use dfu_flasher::numbers::{decimal, hex, parse_hex_u16, parse_number, parse_usize, IntErrorKind};

#[test]
fn hexadecimal_digits_in_either_case() {
    assert_eq!(parse_hex_u16("0"), Ok(0));
    assert_eq!(parse_hex_u16("df11"), Ok(0xdf11));
    assert_eq!(parse_hex_u16("DF11"), Ok(0xdf11));
    assert_eq!(parse_hex_u16("ffff"), Ok(0xffff));
    assert_eq!(parse_hex_u16("+1f"), Ok(0x1f));
    assert_eq!(parse_hex_u16("00000000000000000001"), Ok(1));
}

#[test]
fn hexadecimal_failures() {
    assert_eq!(parse_hex_u16(""), Err(IntErrorKind::Empty));
    assert_eq!(parse_hex_u16("+"), Err(IntErrorKind::InvalidDigit));
    assert_eq!(parse_hex_u16("-1"), Err(IntErrorKind::InvalidDigit));
    assert_eq!(parse_hex_u16("12g4"), Err(IntErrorKind::InvalidDigit));
    assert_eq!(parse_hex_u16(" 12"), Err(IntErrorKind::InvalidDigit));
    assert_eq!(parse_hex_u16("10000"), Err(IntErrorKind::PosOverflow));
    assert_eq!(parse_hex_u16("fffffffffffffffffffffffff"), Err(IntErrorKind::PosOverflow));
}

#[test]
fn the_failure_that_comes_first_is_reported() {
    assert_eq!(parse_hex_u16("fffffffffffffffffffffffffx"), Err(IntErrorKind::PosOverflow));
    assert_eq!(parse_hex_u16("ffffx0"), Err(IntErrorKind::InvalidDigit));
    assert_eq!(parse_hex_u16("fffxfffffffffffffffff"), Err(IntErrorKind::InvalidDigit));
    assert_eq!(parse_hex_u16("10000x"), Err(IntErrorKind::PosOverflow));
    assert_eq!(parse_usize("99999999999999999999a"), Err(IntErrorKind::PosOverflow));
    assert_eq!(parse_usize("9999999999999999999a9"), Err(IntErrorKind::InvalidDigit));
    assert_eq!(parse_usize("18446744073709551615a"), Err(IntErrorKind::InvalidDigit));
}

#[test]
fn decimal_numbers() {
    assert_eq!(parse_usize("0"), Ok(0));
    assert_eq!(parse_usize("28672"), Ok(28672));
    assert_eq!(parse_usize("007"), Ok(7));
    assert_eq!(parse_usize(&usize::MAX.to_string()), Ok(usize::MAX));
    assert_eq!(parse_usize("18446744073709551616"), Err(IntErrorKind::PosOverflow));
    assert_eq!(parse_usize("1a"), Err(IntErrorKind::InvalidDigit));
    assert_eq!(parse_usize("\u{663}"), Err(IntErrorKind::InvalidDigit));
    assert_eq!(parse_usize(""), Err(IntErrorKind::Empty));
}

fn kind_of(error: std::num::ParseIntError) -> IntErrorKind {
    match error.kind() {
        std::num::IntErrorKind::Empty => IntErrorKind::Empty,
        std::num::IntErrorKind::InvalidDigit => IntErrorKind::InvalidDigit,
        std::num::IntErrorKind::PosOverflow => IntErrorKind::PosOverflow,
        other => panic!("{:?}", other),
    }
}

#[test]
fn numbers_agree_with_std() {
    let texts = [
        "", "+", "-", "+0", "++1", "-0", "12", "0012", "ffff", "1_0", "65535", "65536", "zz", "Z",
        "1 ", " 1", "99999999999999999999", "99999999999999999999x", "9999x99999999999999999",
        "fffffffffffffffffffffffffx", "10000x", "ffffx", "\u{663}", "1\u{663}",
        "000000000000000000000000000000000000001", "11111111111111111", "1111111111111111",
    ];
    for text in texts {
        for radix in [2u32, 8, 10, 16, 36] {
            let ours = parse_number(text, radix, u16::MAX as u64);
            let theirs = u16::from_str_radix(text, radix).map(|n| n as u64).map_err(kind_of);
            assert_eq!(ours, theirs, "{:?} in radix {}", text, radix);
            let ours = parse_number(text, radix, u64::MAX);
            let theirs = u64::from_str_radix(text, radix).map_err(kind_of);
            assert_eq!(ours, theirs, "{:?} in radix {}", text, radix);
        }
    }
}

#[test]
fn decimal_text() {
    assert_eq!(decimal(0), "0");
    assert_eq!(decimal(7), "7");
    assert_eq!(decimal(10), "10");
    assert_eq!(decimal(28672), "28672");
    assert_eq!(decimal(usize::MAX), usize::MAX.to_string());
}

#[test]
fn hexadecimal_text() {
    assert_eq!(hex(0, 8), "00000000");
    assert_eq!(hex(0x0800_0000, 8), "08000000");
    assert_eq!(hex(0xabcdef, 0), "abcdef");
    assert_eq!(hex(0, 0), "0");
    assert_eq!(hex(0x1234_5678_9, 8), "123456789");
    assert_eq!(hex(usize::MAX, 3), format!("{:x}", usize::MAX));
}

#[test]
fn written_numbers_are_read_back() {
    for n in [0usize, 1, 9, 10, 99, 100, 65535, 65536, usize::MAX] {
        assert_eq!(parse_usize(&decimal(n)), Ok(n));
        assert_eq!(parse_number(&hex(n, 0), 16, u64::MAX), Ok(n as u64));
    }
}
