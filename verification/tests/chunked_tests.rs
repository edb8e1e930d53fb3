use onebrc::chunked::aggregate_chunks;
use onebrc::model::AggError;
use onebrc::parse_from_str;

#[test]
fn worker_counts_do_not_change_output() {
    let input = b"Paris;10.0\nOslo;-3.2\nParis;12.4\nLima;30.1\nOslo;0.0\nQuito;14.7\n";
    let base = aggregate_chunks(input, 1).unwrap();
    for n in [2usize, 3, 8, 64] {
        assert_eq!(aggregate_chunks(input, n).unwrap(), base);
    }
    assert_eq!(parse_from_str(input).unwrap(), base);
    assert_eq!(
        String::from_utf8(base).unwrap(),
        "{Lima=30.1/30.1/30.1, Oslo=-3.2/-1.6/0.0, Paris=10.0/11.2/12.4, Quito=14.7/14.7/14.7}\n"
    );
}

#[test]
fn chunked_without_trailing_newline() {
    let input = b"A;1.0\nB;2.0\nA;3.0";
    for n in [1usize, 2, 8] {
        assert_eq!(
            aggregate_chunks(input, n).unwrap(),
            b"{A=1.0/2.0/3.0, B=2.0/2.0/2.0}\n".to_vec()
        );
    }
}

#[test]
fn chunked_errors_match_single_pass() {
    let input = b"A;1.0\nbroken\nB;2.0\n";
    for n in [1usize, 2, 8] {
        assert_eq!(aggregate_chunks(input, n), Err(AggError::MissingSeparator));
    }
    let input = b"A;1.0\nB;2.555\n";
    for n in [1usize, 2, 8] {
        assert_eq!(aggregate_chunks(input, n), Err(AggError::MalformedValue));
    }
}

#[test]
fn chunked_empty_input() {
    assert_eq!(aggregate_chunks(b"", 4).unwrap(), b"{}\n".to_vec());
}
