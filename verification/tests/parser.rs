use one_brc::parse::{parse_line, parse_value_bytes, LineOutcome};

fn expect_record(line: &[u8], key: &[u8], value: i64) {
    match parse_line(line) {
        LineOutcome::Record(k, v) => {
            assert_eq!(k.as_slice(), key);
            assert_eq!(v, value);
        },
        _ => panic!("expected a record"),
    }
}

fn expect_skip(line: &[u8]) {
    assert!(matches!(parse_line(line), LineOutcome::Skip));
}

fn expect_malformed(line: &[u8]) {
    assert!(matches!(parse_line(line), LineOutcome::Malformed));
}

#[test]
fn simple_record() {
    expect_record(b"A;1.5", b"A", 15_000);
}

#[test]
fn integer_value() {
    expect_record(b"A;2", b"A", 20_000);
}

#[test]
fn negative_value() {
    expect_record(b"K;-2.75", b"K", -27_500);
}

#[test]
fn key_taken_verbatim() {
    expect_record(b" spaced key ;0.1", b" spaced key ", 1_000);
}

#[test]
fn four_fractional_digits() {
    expect_record(b"A;0.0001", b"A", 1);
}

#[test]
fn empty_line_skipped() {
    expect_skip(b"");
}

#[test]
fn comment_line_skipped() {
    expect_skip(b"#note");
}

#[test]
fn missing_delimiter_malformed() {
    expect_malformed(b"A");
}

#[test]
fn non_numeric_value_malformed() {
    expect_malformed(b"A;x");
}

#[test]
fn empty_value_malformed() {
    expect_malformed(b"A;");
}

#[test]
fn extra_field_malformed() {
    expect_malformed(b"A;1.0;junk");
}

#[test]
fn trailing_dot_malformed() {
    expect_malformed(b"A;2.");
}

#[test]
fn leading_dot_malformed() {
    expect_malformed(b"A;.5");
}

#[test]
fn too_many_fractional_digits_malformed() {
    expect_malformed(b"A;3.14159");
}

#[test]
fn widest_integer_part_accepted() {
    expect_record(b"A;99999999999999", b"A", 999_999_999_999_990_000);
}

#[test]
fn fifteen_integer_digits_malformed() {
    expect_malformed(b"A;999999999999999");
}

#[test]
fn double_dot_malformed() {
    assert_eq!(parse_value_bytes(b"1..2"), None);
}

#[test]
fn plain_value_parses() {
    assert_eq!(parse_value_bytes(b"12.34"), Some(123_400));
    assert_eq!(parse_value_bytes(b"-0.5"), Some(-5_000));
    assert_eq!(parse_value_bytes(b"0"), Some(0));
}
