use drone_riscv::literal::parse_u32;
use drone_riscv::token::{ErrorKind, Expected};

const NOT_INT: Result<u32, ErrorKind> = Err(ErrorKind::Expected(Expected::IntLiteral));

#[test]
fn decimal_literals() {
    assert_eq!(parse_u32("0"), Ok(0));
    assert_eq!(parse_u32("42"), Ok(42));
    assert_eq!(parse_u32("1_000"), Ok(1000));
    assert_eq!(parse_u32("4294967295"), Ok(u32::MAX));
}

#[test]
fn prefixed_literals() {
    assert_eq!(parse_u32("0x1F"), Ok(31));
    assert_eq!(parse_u32("0xff"), Ok(255));
    assert_eq!(parse_u32("0o17"), Ok(15));
    assert_eq!(parse_u32("0b101"), Ok(5));
    assert_eq!(parse_u32("0x"), Ok(0));
}

#[test]
fn suffixes_are_ignored() {
    assert_eq!(parse_u32("5u8"), Ok(5));
    assert_eq!(parse_u32("7_i64"), Ok(7));
    assert_eq!(parse_u32("0x10usize"), Ok(16));
    assert_eq!(parse_u32("1e"), Ok(1));
}

#[test]
fn too_large() {
    assert_eq!(parse_u32("4294967296"), Err(ErrorKind::IntTooLarge));
    assert_eq!(parse_u32("0x1_0000_0000"), Err(ErrorKind::IntTooLarge));
    assert_eq!(parse_u32("99999999999999999999999"), Err(ErrorKind::IntTooLarge));
}

#[test]
fn negative() {
    assert_eq!(parse_u32("-1"), Err(ErrorKind::InvalidDigit));
    assert_eq!(parse_u32("-0"), Err(ErrorKind::InvalidDigit));
}

#[test]
fn not_integers() {
    assert_eq!(parse_u32(""), NOT_INT);
    assert_eq!(parse_u32("\"1\""), NOT_INT);
    assert_eq!(parse_u32("'a'"), NOT_INT);
    assert_eq!(parse_u32("1.5"), NOT_INT);
    assert_eq!(parse_u32("1e3"), NOT_INT);
    assert_eq!(parse_u32("2E-1"), NOT_INT);
    assert_eq!(parse_u32("0b12"), NOT_INT);
    assert_eq!(parse_u32("0o8"), NOT_INT);
    assert_eq!(parse_u32("1#"), NOT_INT);
}
