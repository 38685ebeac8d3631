use listing_cache::digest::md5_hex_of;
use listing_cache::text::{parse_u64, to_hex, u64_to_decimal};

#[test]
fn decimal_of_zero_is_one_digit() {
    assert_eq!(u64_to_decimal(0), "0");
}

#[test]
fn decimal_has_no_leading_zero() {
    assert_eq!(u64_to_decimal(7), "7");
    assert_eq!(u64_to_decimal(10), "10");
    assert_eq!(u64_to_decimal(440), "440");
    assert_eq!(u64_to_decimal(1_000_000), "1000000");
}

#[test]
fn decimal_of_the_largest_number() {
    assert_eq!(u64_to_decimal(u64::MAX), "18446744073709551615");
}

#[test]
fn decimal_agrees_with_std() {
    for n in [0u64, 1, 9, 10, 99, 100, 12345, 9_876_543_210, u64::MAX - 1] {
        assert_eq!(u64_to_decimal(n), n.to_string());
    }
}

#[test]
fn parse_reads_plain_digits() {
    assert_eq!(parse_u64("0"), Some(0));
    assert_eq!(parse_u64("007"), Some(7));
    assert_eq!(parse_u64("15079428672"), Some(15079428672));
}

#[test]
fn parse_accepts_a_plus_sign() {
    assert_eq!(parse_u64("+42"), Some(42));
}

#[test]
fn parse_refuses_what_is_no_number() {
    assert_eq!(parse_u64(""), None);
    assert_eq!(parse_u64("+"), None);
    assert_eq!(parse_u64("-1"), None);
    assert_eq!(parse_u64("12a"), None);
    assert_eq!(parse_u64("1.5"), None);
    assert_eq!(parse_u64(" 1"), None);
    assert_eq!(parse_u64("++1"), None);
    assert_eq!(parse_u64("١٢"), None);
}

#[test]
fn parse_refuses_what_does_not_fit() {
    assert_eq!(parse_u64("18446744073709551615"), Some(u64::MAX));
    assert_eq!(parse_u64("18446744073709551616"), None);
    assert_eq!(parse_u64("99999999999999999999999"), None);
}

#[test]
fn parse_agrees_with_std() {
    for text in ["0", "+0", "123", "+", "", "18446744073709551615", "18446744073709551616", "1_0", "0x10"] {
        assert_eq!(parse_u64(text), text.parse::<u64>().ok(), "{}", text);
    }
}

#[test]
fn parse_reads_back_what_decimal_wrote() {
    for n in [0u64, 5, 60, 1200, 86400, 259200, u64::MAX] {
        assert_eq!(parse_u64(&u64_to_decimal(n)), Some(n));
    }
}

#[test]
fn hex_writes_two_digits_per_byte() {
    assert_eq!(to_hex(&[]), "");
    assert_eq!(to_hex(&[0]), "00");
    assert_eq!(to_hex(&[0x0f, 0xf0, 0xab, 0x09]), "0ff0ab09");
    assert_eq!(to_hex(&[255, 16, 1]), "ff1001");
}

#[test]
fn digest_of_the_empty_text() {
    assert_eq!(md5_hex_of(""), "d41d8cd98f00b204e9800998ecf8427e");
}

#[test]
fn digest_of_the_alphabet() {
    assert_eq!(md5_hex_of("abcdefghijklmnopqrstuvwxyz"), "c3fcd3d76192e4007dfb496cca67e13b");
}

#[test]
fn digest_is_not_the_text() {
    let hex = md5_hex_of("Team Captain");
    assert_eq!(hex.len(), 32);
    assert_ne!(hex, "Team Captain");
    assert_ne!(hex, md5_hex_of("team captain"));
}
