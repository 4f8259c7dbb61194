use cbasm::number::{parse_decimal, parse_hex, read_digit, read_numeral, to_decimal};

#[test]
fn hex_digits_in_both_cases() {
    assert_eq!(read_digit('0'), Some(0));
    assert_eq!(read_digit('9'), Some(9));
    assert_eq!(read_digit('a'), Some(10));
    assert_eq!(read_digit('f'), Some(15));
    assert_eq!(read_digit('A'), Some(10));
    assert_eq!(read_digit('F'), Some(15));
    assert_eq!(read_digit('g'), None);
    assert_eq!(read_digit('G'), None);
    assert_eq!(read_digit('/'), None);
    assert_eq!(read_digit(':'), None);
    assert_eq!(read_digit('@'), None);
    assert_eq!(read_digit('`'), None);
    assert_eq!(read_digit(' '), None);
}

#[test]
fn hex_literals_have_their_values() {
    assert_eq!(parse_hex("0"), Some(0));
    assert_eq!(parse_hex("10"), Some(16));
    assert_eq!(parse_hex("5"), Some(5));
    assert_eq!(parse_hex("ff"), Some(255));
    assert_eq!(parse_hex("FF"), Some(255));
    assert_eq!(parse_hex("DeadBeef"), Some(0xdead_beef));
    assert_eq!(parse_hex("0000000000000000000001"), Some(1));
}

#[test]
fn largest_hex_literal_fits() {
    assert_eq!(parse_hex("ffffffffffffffff"), Some(u64::MAX));
    assert_eq!(parse_hex("0ffffffffffffffff"), Some(u64::MAX));
}

#[test]
fn seventeen_hex_digits_overflow() {
    assert_eq!(parse_hex("10000000000000000"), None);
    assert_eq!(parse_hex("fffffffffffffffff"), None);
    assert_eq!(parse_hex("10000000000000000g"), None);
}

#[test]
fn hex_literal_takes_digits_only() {
    assert_eq!(parse_hex(""), None);
    assert_eq!(parse_hex("+ff"), None);
    assert_eq!(parse_hex("-1"), None);
    assert_eq!(parse_hex("0x10"), None);
    assert_eq!(parse_hex("1 "), None);
    assert_eq!(parse_hex("1_0"), None);
    assert_eq!(parse_hex("xyz"), None);
}

#[test]
fn decimal_numbers_have_their_values() {
    assert_eq!(parse_decimal("0"), Some(0));
    assert_eq!(parse_decimal("16"), Some(16));
    assert_eq!(parse_decimal("007"), Some(7));
    assert_eq!(parse_decimal("+5"), Some(5));
    assert_eq!(parse_decimal("18446744073709551615"), Some(u64::MAX));
}

#[test]
fn decimal_number_rejects_other_text() {
    assert_eq!(parse_decimal(""), None);
    assert_eq!(parse_decimal("+"), None);
    assert_eq!(parse_decimal("++5"), None);
    assert_eq!(parse_decimal("-5"), None);
    assert_eq!(parse_decimal("a"), None);
    assert_eq!(parse_decimal("1a"), None);
    assert_eq!(parse_decimal("r0+1"), None);
    assert_eq!(parse_decimal("18446744073709551616"), None);
    assert_eq!(parse_decimal("99999999999999999999"), None);
}

#[test]
fn numeral_is_read_from_a_start() {
    let chars: Vec<char> = "x7f".chars().collect();
    assert_eq!(read_numeral(&chars, 1, 16), Some(0x7f));
    assert_eq!(read_numeral(&chars, 1, 10), None);
    assert_eq!(read_numeral(&chars, 0, 16), None);
    assert_eq!(read_numeral(&chars, 3, 16), None);
    let bits: Vec<char> = "101".chars().collect();
    assert_eq!(read_numeral(&bits, 0, 2), Some(5));
}

#[test]
fn decimal_strings_are_shortest() {
    assert_eq!(to_decimal(0), "0");
    assert_eq!(to_decimal(9), "9");
    assert_eq!(to_decimal(10), "10");
    assert_eq!(to_decimal(16), "16");
    assert_eq!(to_decimal(12345), "12345");
    assert_eq!(to_decimal(u64::MAX), "18446744073709551615");
}

#[test]
fn decimal_string_reads_back() {
    for n in [0u64, 1, 9, 10, 99, 100, 255, 65536, u64::MAX - 1, u64::MAX] {
        assert_eq!(parse_decimal(&to_decimal(n)), Some(n));
        assert_eq!(to_decimal(n), n.to_string());
    }
}
