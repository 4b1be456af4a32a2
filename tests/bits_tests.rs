use qrgen::bits::{
    alphanumeric_char_to_idx, decode_alphanumeric, decode_latin, decode_numeric, encode_alphanumeric,
    encode_latin, encode_numeric, get_encoding, push_to_bit_list,
};
use qrgen::qr::Encoding;

const ALPHANUMERIC_CHARS: &[u8] = b"0123456789ABCDEFGHIJKLMNOPQRSTUVWXYZ $%*+-./:";

#[test]
fn test_numeric() {
    const NUMERIC_TESTS: [&str; 13] = [
        "12345", "54321", "99999", "9999", "999", "99", "9", "1", "0", "00", "000", "0000", "0010000",
    ];
    assert_eq!(encode_numeric("5").unwrap(), vec![0, 1, 0, 1]);
    assert_eq!(encode_numeric("10").unwrap(), vec![0, 0, 0, 1, 0, 1, 0]);
    assert_eq!(encode_numeric("512").unwrap(), vec![1, 0, 0, 0, 0, 0, 0, 0, 0, 0]);
    for str in NUMERIC_TESTS {
        assert_eq!(decode_numeric(encode_numeric(&(*str).to_string()).unwrap()).unwrap(), str);
    }
}

#[test]
fn test_alphanumeric() {
    assert_eq!(encode_alphanumeric("01").unwrap(), vec![0, 0, 0, 0, 0, 0, 0, 0, 0, 0, 1]);
    assert_eq!(encode_alphanumeric("21").unwrap(), vec![0, 0, 0, 0, 1, 0, 1, 1, 0, 1, 1]);
    assert_eq!(encode_alphanumeric("1").unwrap(), vec![0, 0, 0, 0, 0, 1]);
    assert_eq!(
        encode_alphanumeric("001").unwrap(),
        vec![0, 0, 0, 0, 0, 0, 0, 0, 0, 0, 0, 0, 0, 0, 0, 0, 1]
    );
    for x in 0..45 {
        assert_eq!(
            alphanumeric_char_to_idx(char::from_u32(ALPHANUMERIC_CHARS[x] as u32).unwrap()).unwrap(),
            x as u32
        );
    }
    for x in 0..45 {
        for y in 0..45 {
            let str: String = [
                char::from_u32(ALPHANUMERIC_CHARS[x] as u32).unwrap(),
                char::from_u32(ALPHANUMERIC_CHARS[y] as u32).unwrap(),
            ]
            .iter()
            .collect();
            let mut bits: Vec<u8> = vec![];
            push_to_bit_list(&mut bits, (x * 45 + y) as u32, 11);
            assert_eq!(encode_alphanumeric(str.as_str()).unwrap(), bits, "{} {}", x, y);
        }
        let str: String = [char::from_u32(ALPHANUMERIC_CHARS[x] as u32).unwrap()].iter().collect();
        let mut bits: Vec<u8> = vec![];
        push_to_bit_list(&mut bits, x as u32, 6);
        assert_eq!(encode_alphanumeric(str.as_str()).unwrap(), bits);
    }
}

#[test]
fn test_latin() {
    const LATIN_TESTS: [&str; 10] = [
        "ab",
        "4é",
        "\\,,",
        "r~!!",
        "  ",
        "https://leetcode.com",
        "lsajg;kagl;sdgaksl;gjgl;sj",
        "¡",
        "±",
        "ñ",
    ];
    assert_eq!(
        encode_latin("abc").unwrap(),
        vec![0, 1, 1, 0, 0, 0, 0, 1, 0, 1, 1, 0, 0, 0, 1, 0, 0, 1, 1, 0, 0, 0, 1, 1]
    );
    assert_eq!(
        encode_latin("123").unwrap(),
        vec![0, 0, 1, 1, 0, 0, 0, 1, 0, 0, 1, 1, 0, 0, 1, 0, 0, 0, 1, 1, 0, 0, 1, 1]
    );
    for x in 0..255 {
        let ch = char::from_u32(x).unwrap();
        let mut bits: Vec<u8> = vec![];
        push_to_bit_list(&mut bits, x, 8);
        assert_eq!(encode_latin(Into::<String>::into(ch).as_str()).unwrap(), bits);
    }
    for x in 256..1000 {
        let ch = char::from_u32(x).unwrap();
        assert!(encode_latin(Into::<String>::into(ch).as_str()).is_err());
    }
    for str in LATIN_TESTS {
        assert_eq!(decode_latin(encode_latin(&(*str).to_string()).unwrap()).unwrap(), (*str).to_string());
    }
}

#[test]
fn mode_selection_prefers_smallest_alphabet() {
    assert_eq!(get_encoding("0123456789"), Encoding::Numeric);
    assert_eq!(get_encoding(""), Encoding::Numeric);
    assert_eq!(get_encoding("HELLO WORLD $%*+-./:"), Encoding::Alphanumeric);
    assert_eq!(get_encoding("AB12"), Encoding::Alphanumeric);
    assert_eq!(get_encoding("hello"), Encoding::Byte);
    assert_eq!(get_encoding("ñandú"), Encoding::Byte);
    assert_eq!(get_encoding("漢字"), Encoding::ECI);
}

#[test]
fn encoders_report_first_bad_character() {
    assert_eq!(encode_numeric("12a4b"), Err('a'));
    assert_eq!(encode_alphanumeric("AbC"), Err('b'));
    assert_eq!(encode_alphanumeric("A?"), Err('?'));
    assert_eq!(encode_latin("aĀbĂ"), Err('Ā'));
}

#[test]
fn numeric_and_alphanumeric_round_trip_at_boundary_lengths() {
    let digits = "31415926535897932384626433832795028841971";
    for len in 0..digits.len() {
        let s = &digits[..len];
        assert_eq!(decode_numeric(encode_numeric(s).unwrap()).unwrap(), s);
    }
    let text = "THE QUICK BROWN FOX $%*+-./: 0123456789 JUMPS";
    for len in 0..text.len() {
        let s = &text[..len];
        assert_eq!(decode_alphanumeric(encode_alphanumeric(s).unwrap()).unwrap(), s);
    }
}

#[test]
fn decoders_reject_malformed_streams() {
    assert_eq!(decode_numeric(vec![1, 1, 1, 1, 1, 1, 1, 1, 1, 1]), None);
    assert_eq!(decode_numeric(vec![0, 1, 0]), None);
    assert_eq!(decode_alphanumeric(vec![1; 11]), None);
    assert_eq!(decode_alphanumeric(vec![0, 0, 0]), None);
    assert_eq!(decode_latin(vec![]).unwrap(), "");
}

#[test]
fn push_appends_most_significant_first() {
    let mut bits: Vec<u8> = vec![0, 0, 1, 1, 0];
    push_to_bit_list(&mut bits, 0b11001, 5);
    assert_eq!(bits, vec![0, 0, 1, 1, 0, 1, 1, 0, 0, 1]);
    assert_eq!(qrgen::bits::collect_bits(&[0, 1, 1, 0]), 6);
}

#[test]
fn reads_back_thirty_two_bits() {
    let mut bits: Vec<u8> = vec![];
    push_to_bit_list(&mut bits, 0xDEAD_BEEF, 32);
    assert_eq!(qrgen::bits::collect_bits(&bits), 0xDEAD_BEEF);
}
