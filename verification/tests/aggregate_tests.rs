use onebrc::model::AggError;
use onebrc::parse_from_str;
use onebrc::record::Record;

fn run(input: &[u8]) -> String {
    String::from_utf8(parse_from_str(input).expect("input should aggregate")).unwrap()
}

#[test]
fn single_record() {
    assert_eq!(run(b"Kunming;19.8\n"), "{Kunming=19.8/19.8/19.8}\n");
}

#[test]
fn two_keys_three_records() {
    assert_eq!(run(b"A;1.0\nB;2.0\nA;3.0\n"), "{A=1.0/2.0/3.0, B=2.0/2.0/2.0}\n");
}

#[test]
fn missing_trailing_newline_matches_newline() {
    let with = parse_from_str(b"A;1.0\nB;2.0\nA;3.0\n").unwrap();
    let without = parse_from_str(b"A;1.0\nB;2.0\nA;3.0").unwrap();
    assert_eq!(with, without);
}

#[test]
fn empty_input_renders_empty_braces() {
    assert_eq!(run(b""), "{}\n");
    assert_eq!(run(b"\n"), "{}\n");
}

#[test]
fn keys_are_sorted_bytewise() {
    assert_eq!(
        run(b"b;1.0\nB;2.0\na;3.0\nA;4.0\n"),
        "{A=4.0/4.0/4.0, B=2.0/2.0/2.0, a=3.0/3.0/3.0, b=1.0/1.0/1.0}\n"
    );
}

#[test]
fn utf8_keys_sort_by_bytes() {
    assert_eq!(
        run("Zürich;12.3\nAbha;18.0\nÉvora;20.1\n".as_bytes()),
        "{Abha=18.0/18.0/18.0, Zürich=12.3/12.3/12.3, Évora=20.1/20.1/20.1}\n"
    );
}

#[test]
fn mean_rounds_half_away_from_zero() {
    assert_eq!(run(b"A;0.1\nA;0.2\n"), "{A=0.1/0.2/0.2}\n");
    assert_eq!(run(b"A;-0.1\nA;-0.2\n"), "{A=-0.2/-0.2/-0.1}\n");
}

#[test]
fn tiny_negative_mean_renders_as_zero() {
    assert_eq!(run(b"A;-0.1\nA;0.0\nA;0.0\nA;0.0\n"), "{A=-0.1/0.0/0.0}\n");
}

#[test]
fn extreme_values_cancel() {
    assert_eq!(run(b"A;99.9\nA;-99.9\n"), "{A=-99.9/0.0/99.9}\n");
}

#[test]
fn record_without_separator_is_fatal() {
    assert_eq!(parse_from_str(b"NoSeparator\n"), Err(AggError::MissingSeparator));
    assert_eq!(parse_from_str(b"A;1.0\nbroken\nB;2.0\n"), Err(AggError::MissingSeparator));
}

#[test]
fn malformed_value_is_fatal() {
    assert_eq!(parse_from_str(b"A;12.34\n"), Err(AggError::MalformedValue));
    assert_eq!(parse_from_str(b"A;1.0\nB;x\n"), Err(AggError::MalformedValue));
    assert_eq!(parse_from_str(b"A;\n"), Err(AggError::MalformedValue));
}

#[test]
fn empty_key_is_accepted() {
    assert_eq!(run(b";1.0\n"), "{=1.0/1.0/1.0}\n");
}

#[test]
fn single_value_record_renders_round_trip() {
    let rec = Record::new(53, b"x".to_vec());
    let mut out = Vec::new();
    rec.write(&mut out);
    assert_eq!(out, b"5.3/5.3/5.3".to_vec());

    let rec = Record::new(-999, b"y".to_vec());
    let mut out = Vec::new();
    rec.write(&mut out);
    assert_eq!(out, b"-99.9/-99.9/-99.9".to_vec());
}

#[test]
fn rows_yield_each_record_without_its_line_feed() {
    let mut rows = onebrc::rows::Rows::new(b"a;1.0\nbb;2.0\nc;3.0");
    assert_eq!(rows.next(), Some(b"a;1.0" as &[u8]));
    assert_eq!(rows.next(), Some(b"bb;2.0" as &[u8]));
    assert_eq!(rows.next(), Some(b"c;3.0" as &[u8]));
    assert_eq!(rows.next(), None);
    assert_eq!(rows.next(), None);

    let mut empty = onebrc::rows::Rows::new(b"");
    assert_eq!(empty.next(), None);
}

#[test]
fn lex_cmp_orders_bytes() {
    assert_eq!(onebrc::merge::lex_cmp(b"abc", b"abd"), -1);
    assert_eq!(onebrc::merge::lex_cmp(b"abc", b"abc"), 0);
    assert_eq!(onebrc::merge::lex_cmp(b"abd", b"abc"), 1);
    assert_eq!(onebrc::merge::lex_cmp(b"ab", b"abc"), -1);
    assert_eq!(onebrc::merge::lex_cmp(b"abc", b"ab"), 1);
    assert_eq!(onebrc::merge::lex_cmp(b"", b"a"), -1);
}
