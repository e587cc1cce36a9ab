use crolk::scan::{chars_of, is_white_char, parse_i32_at, skip_white_at, word_end_at};
use crolk::text::{push_decimal, push_decimal2, push_signed_decimal};

#[test]
fn decimal_rendering() {
    let mut s = String::from("x=");
    push_decimal(&mut s, 0);
    assert_eq!(s, "x=0");
    let mut s = String::new();
    push_decimal(&mut s, 1234567890123456789012345);
    assert_eq!(s, "1234567890123456789012345");
    let mut s = String::new();
    push_decimal(&mut s, u128::MAX);
    assert_eq!(s, u128::MAX.to_string());
}

#[test]
fn two_digit_rendering() {
    for (n, text) in [(0u128, "00"), (7, "07"), (10, "10"), (99, "99"), (100, "100")] {
        let mut s = String::new();
        push_decimal2(&mut s, n);
        assert_eq!(s, text);
    }
}

#[test]
fn signed_rendering() {
    for n in [0i32, 5, -5, i32::MAX, i32::MIN, -10] {
        let mut s = String::new();
        push_signed_decimal(&mut s, n);
        assert_eq!(s, n.to_string());
    }
}

#[test]
fn whitespace_class_matches_std() {
    for u in 0u32..0x3100 {
        if let Some(c) = char::from_u32(u) {
            assert_eq!(is_white_char(c), c.is_whitespace(), "{:x}", u);
        }
    }
}

#[test]
fn parse_matches_std() {
    let cases = [
        "0", "42", "+42", "-42", "", "+", "-", "2147483647", "2147483648", "-2147483648",
        "-2147483649", "00012", "1_000", " 1", "1 ", "٣", "99999999999999999999999", "--1",
    ];
    for case in cases {
        let v = chars_of(case);
        let got = parse_i32_at(&v, 0, v.len());
        assert_eq!(got, case.parse::<i32>().ok(), "{:?}", case);
    }
}

#[test]
fn word_scanning() {
    let v = chars_of("  ab\tcd ");
    assert_eq!(v.len(), 8);
    let b = skip_white_at(&v, 0);
    assert_eq!(b, 2);
    let e = word_end_at(&v, b);
    assert_eq!(e, 4);
    let b2 = skip_white_at(&v, e);
    assert_eq!(b2, 5);
    assert_eq!(word_end_at(&v, b2), 7);
    assert_eq!(skip_white_at(&v, 7), 8);
}
