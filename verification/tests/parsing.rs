use keystats::SCALE;
use keystats::parse::parse_line;
use keystats::parse::parse_number;

#[test]
fn parse_is_idempotent() {
    let line = b"Dallas;23.7";
    let first = parse_line(line, 0, line.len());
    let second = parse_line(line, 0, line.len());
    assert_eq!(first, second);
    let (sep, v) = first.unwrap();
    assert_eq!(sep, 6);
    assert_eq!(v, 237000);
}

#[test]
fn parse_line_splits_at_first_separator() {
    let line = b"a;b;2.0";
    // the measurement "b;2.0" is not a number, so the line is malformed
    assert_eq!(parse_line(line, 0, line.len()), None);
    let ok = b"a;2.0";
    let (sep, v) = parse_line(ok, 0, ok.len()).unwrap();
    assert_eq!(sep, 1);
    assert_eq!(v, 2 * SCALE);
}

#[test]
fn parse_line_without_separator_fails() {
    let line = b"no separator here";
    assert_eq!(parse_line(line, 0, line.len()), None);
}

#[test]
fn parse_number_integer_and_fraction() {
    let cases: Vec<(&[u8], Option<i64>)> = vec![
        (b"0", Some(0)),
        (b"7", Some(7 * SCALE)),
        (b"10.0", Some(10 * SCALE)),
        (b"-2.5", Some(-25000)),
        (b"+4.25", Some(42500)),
        (b"3.1234", Some(31234)),
        (b"0.5", Some(5000)),
        (b"-0.0001", Some(-1)),
        (b"", None),
        (b"-", None),
        (b"+", None),
        (b".5", None),
        (b"5.", None),
        (b"1.12345", None),
        (b"12a", None),
        (b"1e5", None),
        (b"1.2.3", None),
        (b" 1", None),
    ];
    for (input, expected) in cases {
        assert_eq!(parse_number(input, 0, input.len()), expected);
    }
}

#[test]
fn parse_number_magnitude_limit() {
    let just_under = b"99999999999";
    assert_eq!(parse_number(just_under, 0, just_under.len()), Some(99999999999 * SCALE));
    let at_limit = b"100000000000";
    assert_eq!(parse_number(at_limit, 0, at_limit.len()), None);
    let padded = b"00000000000000009.5";
    assert_eq!(parse_number(padded, 0, padded.len()), Some(95000));
}

#[test]
fn parse_number_within_slice_bounds() {
    let buf = b"key;41.5;junk";
    assert_eq!(parse_number(buf, 4, 8), Some(415000));
    assert_eq!(parse_number(buf, 4, buf.len()), None);
}
