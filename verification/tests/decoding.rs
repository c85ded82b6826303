use bin_ocr::solution::{bin_todeci, word_is_decodable};
use bin_ocr::text::{chars_of, parse_u32_at, push_decimal, white_space};

#[test]
fn decodes_unsigned_word() {
    assert_eq!(bin_todeci("101".to_string(), false), 5);
}

#[test]
fn decodes_zero() {
    assert_eq!(bin_todeci("0".to_string(), false), 0);
    assert_eq!(bin_todeci("0".to_string(), true), 0);
}

#[test]
fn decodes_signed_word_with_leading_zero() {
    assert_eq!(bin_todeci("0101".to_string(), true), 5);
}

#[test]
fn decodes_negative_words_as_twos_complement() {
    assert_eq!(bin_todeci("101".to_string(), true), -3);
    assert_eq!(bin_todeci("1111".to_string(), true), -1);
    assert_eq!(bin_todeci("1000".to_string(), true), -8);
    assert_eq!(bin_todeci("10000000".to_string(), true), -128);
}

#[test]
fn signed_value_is_unsigned_value_minus_two_to_the_length() {
    for word in ["1", "10", "1010", "110011", "1000000001"] {
        let unsigned = bin_todeci(word.to_string(), false) as i64;
        let signed = bin_todeci(word.to_string(), true) as i64;
        assert_eq!(signed, unsigned - (1i64 << word.len()));
    }
}

#[test]
fn words_without_leading_one_read_the_same_signed_or_not() {
    for word in ["0", "01", "0110", "0111111"] {
        assert_eq!(
            bin_todeci(word.to_string(), true),
            bin_todeci(word.to_string(), false)
        );
    }
}

#[test]
fn thirty_two_ones_wrap_around() {
    let word = "1".repeat(32);
    assert_eq!(bin_todeci(word.clone(), false), -1);
    assert_eq!(bin_todeci(word, true), -1);
}

#[test]
fn top_bit_of_thirty_two_unsigned() {
    let mut word = "1".to_string();
    word.push_str(&"0".repeat(31));
    assert_eq!(bin_todeci(word, false), i32::MIN);
}

#[test]
fn other_characters_count_as_zero_bits() {
    assert_eq!(bin_todeci("1x1".to_string(), false), 5);
}

#[test]
fn parses_u32_words() {
    let text = chars_of("+42 4294967295 4294967296 x");
    assert_eq!(parse_u32_at(&text, 0, 3), Some(42));
    assert_eq!(parse_u32_at(&text, 4, 14), Some(u32::MAX));
    assert_eq!(parse_u32_at(&text, 15, 25), None);
    assert_eq!(parse_u32_at(&text, 26, 27), None);
    assert_eq!(parse_u32_at(&text, 0, 0), None);
    assert_eq!(parse_u32_at(&text, 0, 1), None);
}

#[test]
fn writes_decimals() {
    let mut s = "x".to_string();
    push_decimal(&mut s, 120);
    push_decimal(&mut s, 0);
    assert_eq!(s, "x1200");
}

#[test]
fn knows_unicode_white_space() {
    assert!(white_space(' '));
    assert!(white_space('\n'));
    assert!(white_space('\u{a0}'));
    assert!(white_space('\u{3000}'));
    assert!(!white_space('x'));
    assert!(!white_space('0'));
}

#[test]
fn decodable_words() {
    assert!(!word_is_decodable("", false));
    assert!(!word_is_decodable("", true));
    assert!(word_is_decodable("101", true));
    assert!(word_is_decodable(&"1".repeat(32), false));
    assert!(word_is_decodable(&"1".repeat(32), true));
    assert!(!word_is_decodable(&"1".repeat(33), false));
    assert!(word_is_decodable(&format!("{}{}", "0".repeat(40), "1"), false));
    let mut min_word = "1".to_string();
    min_word.push_str(&"0".repeat(31));
    assert!(word_is_decodable(&min_word, false));
    assert!(!word_is_decodable(&min_word, true));
    assert_eq!(bin_todeci(min_word, false), i32::MIN);
}
