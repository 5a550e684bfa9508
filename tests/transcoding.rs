use taiji_encode::{base64_decode, base64_encode, taiji_decode, taiji_encode};

const PAD_SYMBOL: char = '☯';

#[test]
fn it_works() {
    let str = "你好世界!";
    let result = taiji_encode(str.as_bytes());
    assert_eq!(result, "䷘䷵䷸䷖䷘䷮䷯䷌䷘䷵䷃䷯䷘䷘䷯䷽䷏䷇☯☯");
    let de_result = taiji_decode(&result);
    assert_eq!(de_result, Ok::<_, &str>("你好世界!".to_string()))
}

#[test]
fn hello_world_round_trip() {
    let encoded = taiji_encode("hello world!".as_bytes());
    assert_eq!(encoded.chars().count(), 16);
    assert_eq!(encoded, "䷮䷭䷾䷷䷹䷭䷠䷖䷰䷸䷌䷺䷹䷭䷇䷚");
    assert_eq!(taiji_decode(&encoded), Ok("hello world!".to_string()));
}

#[test]
fn empty_input() {
    assert_eq!(taiji_encode(b""), "");
    assert_eq!(taiji_decode(""), Ok(String::new()));
    assert_eq!(base64_encode(b""), "");
    assert_eq!(base64_decode(""), Ok(String::new()));
}

#[test]
fn base64_known_vectors() {
    assert_eq!(base64_encode(b"Man"), "TWFu");
    assert_eq!(base64_encode(b"Ma"), "TWE=");
    assert_eq!(base64_encode(b"M"), "TQ==");
    assert_eq!(base64_encode("hello world!".as_bytes()), "aGVsbG8gd29ybGQh");
    assert_eq!(base64_encode("你好世界!".as_bytes()), "5L2g5aW95LiW55WMIQ==");
    assert_eq!(base64_encode(&[0xfb, 0xff]), "+/8=");
}

#[test]
fn base64_decodes_each_padding_form() {
    assert_eq!(base64_decode("TWFu"), Ok("Man".to_string()));
    assert_eq!(base64_decode("YWI="), Ok("ab".to_string()));
    assert_eq!(base64_decode("YQ=="), Ok("a".to_string()));
    assert_eq!(base64_decode("5L2g5aW95LiW55WMIQ=="), Ok("你好世界!".to_string()));
}

#[test]
fn padding_symbols_by_length() {
    let one = taiji_encode(b"a");
    assert_eq!(one, "䷬䷇☯☯");
    let two = taiji_encode(b"ab");
    assert_eq!(two, "䷬䷯䷏☯");
    let three = taiji_encode(b"abc");
    assert_eq!(three, "䷬䷯䷲䷨");
    assert_eq!(taiji_encode(b"abcdef").chars().filter(|c| *c == PAD_SYMBOL).count(), 0);
    assert_eq!(taiji_encode(b"abcd").chars().filter(|c| *c == PAD_SYMBOL).count(), 2);
    assert_eq!(taiji_encode(b"abcde").chars().filter(|c| *c == PAD_SYMBOL).count(), 1);
}

#[test]
fn encoded_length_is_four_per_started_group() {
    for n in 0..20usize {
        let input = vec![b'x'; n];
        let symbols = taiji_encode(&input).chars().count();
        assert_eq!(symbols, 4 * ((n + 2) / 3));
        assert_eq!(symbols % 4, 0);
        assert_eq!(base64_encode(&input).len(), symbols);
    }
}

#[test]
fn text_round_trips() {
    for s in ["a", "ab", "abc", "abcd", "Verus ☯ 易经", "\u{0}\u{7f}\u{80}\u{10ffff}"] {
        assert_eq!(taiji_decode(&taiji_encode(s.as_bytes())), Ok(s.to_string()));
        assert_eq!(base64_decode(&base64_encode(s.as_bytes())), Ok(s.to_string()));
    }
}

#[test]
fn every_symbol_maps_back() {
    let all: Vec<u8> = (0..=255u8).collect();
    let base = base64_encode(&all);
    let symbols = taiji_encode(&all);
    assert_eq!(base.len(), symbols.chars().count());
    let distinct: std::collections::BTreeSet<char> = symbols.chars().collect();
    assert_eq!(distinct.len(), 65);
    // The bytes are not UTF-8, so decoding gets as far as the text check.
    assert_eq!(taiji_decode(&symbols), Err("tran utf8 error"));
    assert_eq!(base64_decode(&base), Err("tran utf8 error"));
}

#[test]
fn rejects_length_not_multiple_of_four() {
    assert_eq!(taiji_decode("䷮䷭䷾"), Err("Input length is not a multiple of 4"));
    assert_eq!(taiji_decode("䷮䷭䷾䷷䷹"), Err("Input length is not a multiple of 4"));
    assert_eq!(base64_decode("TWF"), Err("Input length is not a multiple of 4"));
}

#[test]
fn rejects_unknown_symbol() {
    assert_eq!(taiji_decode("䷮䷭䷾A"), Err("Input contains invalid Base64 characters"));
    assert_eq!(taiji_decode("abc"), Err("Input contains invalid Base64 characters"));
    assert_eq!(base64_decode("TW-u"), Err("Input contains invalid Base64 characters"));
    assert_eq!(base64_decode("T\u{e9}u"), Err("Input contains invalid Base64 characters"));
}

#[test]
fn rejects_misplaced_padding() {
    assert_eq!(base64_decode("T=Fu"), Err("Input contains invalid Base64 characters"));
    assert_eq!(base64_decode("TQ==TWFu"), Err("Input contains invalid Base64 characters"));
    assert_eq!(base64_decode("T==="), Err("Input contains invalid Base64 characters"));
    assert_eq!(taiji_decode("䷬☯☯☯"), Err("Input contains invalid Base64 characters"));
    assert_eq!(base64_decode("===="), Ok(String::new()));
}

#[test]
fn rejects_bytes_that_are_not_text() {
    assert_eq!(base64_decode("/w=="), Err("tran utf8 error"));
    assert_eq!(taiji_decode("䷀䷓☯☯"), Err("tran utf8 error"));
}
