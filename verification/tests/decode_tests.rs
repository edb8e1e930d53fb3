use onebrc::decode::parse_temperature;

#[test]
fn decodes_all_stated_literals() {
    assert_eq!(parse_temperature(b"0.0"), Some(0));
    assert_eq!(parse_temperature(b"5.3"), Some(53));
    assert_eq!(parse_temperature(b"-5.3"), Some(-53));
    assert_eq!(parse_temperature(b"99.9"), Some(999));
    assert_eq!(parse_temperature(b"-99.9"), Some(-999));
    assert_eq!(parse_temperature(b"0.1"), Some(1));
}

#[test]
fn decodes_two_digit_forms() {
    assert_eq!(parse_temperature(b"12.7"), Some(127));
    assert_eq!(parse_temperature(b"-10.0"), Some(-100));
    assert_eq!(parse_temperature(b"-0.3"), Some(-3));
}

#[test]
fn refuses_other_shapes() {
    assert_eq!(parse_temperature(b""), None);
    assert_eq!(parse_temperature(b"5"), None);
    assert_eq!(parse_temperature(b"5."), None);
    assert_eq!(parse_temperature(b".5"), None);
    assert_eq!(parse_temperature(b"5.35"), None);
    assert_eq!(parse_temperature(b"123.4"), None);
    assert_eq!(parse_temperature(b"-"), None);
    assert_eq!(parse_temperature(b"-5"), None);
    assert_eq!(parse_temperature(b"--5.3"), None);
    assert_eq!(parse_temperature(b"5,3"), None);
    assert_eq!(parse_temperature(b"a.b"), None);
    assert_eq!(parse_temperature(b"5.x"), None);
}
