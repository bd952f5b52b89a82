use icolor::digits::{decimal_bounded, hex_digit, match_to_num, match_to_num2};
use icolor::grammar::{at_literal, read_field, read_triple, scan_decimal, scan_digits, scan_fraction};
use icolor::notation::strip_spaces;

#[test]
fn hex_digits_in_both_cases() {
    assert_eq!(hex_digit(b'0'), Some(0));
    assert_eq!(hex_digit(b'9'), Some(9));
    assert_eq!(hex_digit(b'a'), Some(10));
    assert_eq!(hex_digit(b'f'), Some(15));
    assert_eq!(hex_digit(b'A'), Some(10));
    assert_eq!(hex_digit(b'F'), Some(15));
    assert_eq!(hex_digit(b'g'), None);
    assert_eq!(hex_digit(b'G'), None);
    assert_eq!(hex_digit(b'/'), None);
    assert_eq!(hex_digit(b':'), None);
    assert_eq!(hex_digit(b'@'), None);
    assert_eq!(hex_digit(b'`'), None);
    assert_eq!(hex_digit(b'_'), None);
}

#[test]
fn hex_token_is_doubled_when_single() {
    assert_eq!(match_to_num(b"f"), Some(255));
    assert_eq!(match_to_num(b"a"), Some(170));
    assert_eq!(match_to_num(b"0"), Some(0));
    assert_eq!(match_to_num(b"0a"), Some(10));
    assert_eq!(match_to_num(b"A0"), Some(160));
    assert_eq!(match_to_num(b"ff"), Some(255));
    assert_eq!(match_to_num(b"104"), Some(16));
    assert_eq!(match_to_num(b""), None);
    assert_eq!(match_to_num(b"g"), None);
    assert_eq!(match_to_num(b"1g"), None);
    assert_eq!(match_to_num(b"zz"), None);
}

#[test]
fn decimal_token_is_a_byte() {
    assert_eq!(match_to_num2(b"0"), Some(0));
    assert_eq!(match_to_num2(b"80"), Some(80));
    assert_eq!(match_to_num2(b"255"), Some(255));
    assert_eq!(match_to_num2(b"000255"), Some(255));
    assert_eq!(match_to_num2(b"256"), None);
    assert_eq!(match_to_num2(b"99999999999999999999"), None);
    assert_eq!(match_to_num2(b""), None);
    assert_eq!(match_to_num2(b"Z0"), None);
    assert_eq!(match_to_num2(b"1a"), None);
    assert_eq!(match_to_num2(b"-1"), None);
}

#[test]
fn bounded_decimal_stops_at_its_limit() {
    assert_eq!(decimal_bounded(b"4294967295", u32::MAX), Some(4294967295));
    assert_eq!(decimal_bounded(b"4294967296", u32::MAX), None);
    assert_eq!(decimal_bounded(b"00000000004294967295", u32::MAX), Some(4294967295));
    assert_eq!(decimal_bounded(b"360", 359), None);
    assert_eq!(decimal_bounded(b"359", 359), Some(359));
    assert_eq!(decimal_bounded(b"59", 359), Some(59));
    assert_eq!(decimal_bounded(b"", 359), Some(0));
    assert_eq!(decimal_bounded(b"3x", 359), None);
    assert_eq!(decimal_bounded(b"999999999999x", 359), None);
    assert_eq!(decimal_bounded(b"+3", 359), None);
}

#[test]
fn digit_runs_and_literals() {
    assert_eq!(scan_digits(b"12a", 0), 2);
    assert_eq!(scan_digits(b"12a", 2), 2);
    assert_eq!(scan_digits(b"12", 0), 2);
    assert_eq!(scan_digits(b"12", 2), 2);
    assert_eq!(scan_digits(b"12", 7), 7);
    assert!(!at_literal(b"rgb(1", 6, b""));
    assert!(at_literal(b"rgb(1", 0, b"rgb("));
    assert!(at_literal(b"rgb(1", 4, b"1"));
    assert!(at_literal(b"rgb(1", 5, b""));
    assert!(!at_literal(b"rgb(1", 4, b"12"));
    assert!(!at_literal(b"rgb(1", 0, b"rgba"));
}

#[test]
fn fields_give_numbers_and_positions() {
    assert_eq!(read_field(b"12%,3", 0, b"%,", 100), Some((12, 4)));
    assert_eq!(read_field(b"12%,3", 0, b",", 100), None);
    assert_eq!(read_field(b"12%,3", 0, b"%,", 11), None);
    assert_eq!(read_field(b"%,3", 0, b"%,", 11), None);
    assert_eq!(read_field(b"12%,3", 9, b"%,", 100), None);
    assert_eq!(read_triple(b"(1,22%,333)", 1, b",", b"%,", b")", 333), Some((1, 22, 333, 11)));
    assert_eq!(read_triple(b"(1,22%,333)", 1, b",", b"%,", b")", 332), None);
    assert_eq!(read_triple(b"(1,22%,333)", 1, b",", b",", b")", 333), None);
}

#[test]
fn decimal_and_fraction_ends() {
    assert_eq!(scan_decimal(b"0.8)", 0), Some(3));
    assert_eq!(scan_decimal(b"12)", 0), Some(2));
    assert_eq!(scan_decimal(b"12.)", 0), Some(2));
    assert_eq!(scan_decimal(b".5)", 0), None);
    assert_eq!(scan_decimal(b"", 0), None);
    assert_eq!(scan_fraction(b"0.8)", 0), Some(3));
    assert_eq!(scan_fraction(b"0.875", 0), Some(5));
    assert_eq!(scan_fraction(b"1.8)", 0), None);
    assert_eq!(scan_fraction(b"0.)", 0), None);
    assert_eq!(scan_fraction(b"0", 0), None);
    assert_eq!(scan_fraction(b"0.", 0), None);
    assert_eq!(scan_fraction(b"0.5", 4), None);
    assert_eq!(scan_decimal(b"0.5", 4), None);
}

#[test]
fn only_spaces_are_stripped() {
    assert_eq!(strip_spaces(b" a  b\tc \n"), b"ab\tc\n".to_vec());
    assert_eq!(strip_spaces(b""), b"".to_vec());
    assert_eq!(strip_spaces(b"   "), b"".to_vec());
}
