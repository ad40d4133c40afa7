use rpiboot_rs_lib::error::BootError;
use rpiboot_rs_lib::duid::{c40_to_char, char_to_c40, decode_half_word, duid_decode_c40, parse_hex_word};

#[test]
fn half_word_one_gives_zero_symbols() {
    let mut list: Vec<i32> = Vec::new();
    decode_half_word(1, &mut list);
    assert_eq!(list, vec![0, 0, 0]);
    assert_eq!(duid_decode_c40("1"), Err(BootError::DecodeError));
}

#[test]
fn half_word_symbols_of_fixtures() {
    let mut list: Vec<i32> = Vec::new();
    decode_half_word(0x19a5, &mut list);
    decode_half_word(0x59e9, &mut list);
    decode_half_word(0xf5d7, &mut list);
    assert_eq!(list, vec![4, 4, 4, 14, 15, 16, 39, 13, 14]);
}

#[test]
fn half_word_zero_is_out_of_alphabet() {
    let mut list: Vec<i32> = Vec::new();
    decode_half_word(0, &mut list);
    assert_eq!(list, vec![-1, 39, 39]);
    assert_eq!(duid_decode_c40("0"), Err(BootError::DecodeError));
}

#[test]
fn decode_digit_fixture() {
    assert_eq!(duid_decode_c40("19a5"), Ok("000".to_string()));
}

#[test]
fn decode_letter_fixture() {
    assert_eq!(duid_decode_c40("59E9"), Ok("ABC".to_string()));
}

#[test]
fn decode_mixed_fixture() {
    assert_eq!(duid_decode_c40("f5d7"), Ok("Z9A".to_string()));
}

#[test]
fn decode_high_half_follows_low_half() {
    assert_eq!(duid_decode_c40("59e919a5"), Ok("000ABC".to_string()));
}

#[test]
fn decode_several_words() {
    assert_eq!(duid_decode_c40("19a5_59e9_f5d7"), Ok("000ABCZ9A".to_string()));
}

#[test]
fn decode_stops_at_non_hex_segment() {
    assert_eq!(duid_decode_c40("19a5_xyz_59e9"), Ok("000".to_string()));
    assert_eq!(duid_decode_c40("19a5_"), Ok("000".to_string()));
    assert_eq!(duid_decode_c40("19a5__59e9"), Ok("000".to_string()));
    assert_eq!(duid_decode_c40("zz_19a5"), Ok(String::new()));
}

#[test]
fn decode_empty_input() {
    assert_eq!(duid_decode_c40(""), Ok(String::new()));
}

#[test]
fn decode_word_too_wide_stops() {
    assert_eq!(duid_decode_c40("19a5_100000000"), Ok("000".to_string()));
}

#[test]
fn decode_bad_symbol_fails_whole_call() {
    assert_eq!(duid_decode_c40("19a5_1"), Err(BootError::DecodeError));
}

#[test]
fn parse_hex_word_forms() {
    let b = "+ff_12_FFFFFFFF_+".as_bytes();
    assert_eq!(parse_hex_word(b, 0, 3), Some(255));
    assert_eq!(parse_hex_word(b, 4, 6), Some(0x12));
    assert_eq!(parse_hex_word(b, 7, 15), Some(0xffff_ffff));
    assert_eq!(parse_hex_word(b, 16, 17), None);
    assert_eq!(parse_hex_word(b, 3, 3), None);
}

#[test]
fn char_codes() {
    assert_eq!(char_to_c40('0'), Some(4));
    assert_eq!(char_to_c40('9'), Some(13));
    assert_eq!(char_to_c40('A'), Some(14));
    assert_eq!(char_to_c40('z'), Some(39));
    assert_eq!(char_to_c40('_'), None);
}

#[test]
fn symbol_characters() {
    assert_eq!(c40_to_char(4), Some('0'));
    assert_eq!(c40_to_char(13), Some('9'));
    assert_eq!(c40_to_char(14), Some('A'));
    assert_eq!(c40_to_char(39), Some('Z'));
    assert_eq!(c40_to_char(3), None);
    assert_eq!(c40_to_char(40), None);
    assert_eq!(c40_to_char(-1), None);
}

#[test]
fn decoded_or_raw_falls_back() {
    assert_eq!(rpiboot_rs_lib::duid::decoded_or_raw("59e9"), "ABC".to_string());
    assert_eq!(rpiboot_rs_lib::duid::decoded_or_raw("19a5_1"), "19a5_1".to_string());
}
