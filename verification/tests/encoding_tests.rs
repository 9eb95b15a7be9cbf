use rustycsv::strategy::encoding::{
    encode_utf8_extend, encode_utf8_to_target, utf8_to_latin1, utf8_to_utf16, utf8_to_utf32, EncodingTarget,
};

#[test]
fn test_utf8_passthrough() {
    let input = b"hello,world\n";
    let result = encode_utf8_to_target(input, EncodingTarget::Utf8);
    assert_eq!(result, input);
}

#[test]
fn test_latin1_ascii() {
    let input = b"hello";
    let result = utf8_to_latin1(input);
    assert_eq!(result, b"hello");
}

#[test]
fn test_latin1_with_accents() {
    let input = "caf\u{e9}".as_bytes();
    let result = utf8_to_latin1(input);
    assert_eq!(result, &[99, 97, 102, 0xe9]);
}

#[test]
fn test_latin1_unmappable() {
    let input = "\u{0100}".as_bytes();
    let result = utf8_to_latin1(input);
    assert_eq!(result, b"?");
}

#[test]
fn test_utf16_le_ascii() {
    let input = b"AB";
    let result = utf8_to_utf16(input, false);
    assert_eq!(result, &[0x41, 0x00, 0x42, 0x00]);
}

#[test]
fn test_utf16_be_ascii() {
    let input = b"AB";
    let result = utf8_to_utf16(input, true);
    assert_eq!(result, &[0x00, 0x41, 0x00, 0x42]);
}

#[test]
fn test_utf16_le_surrogate_pair() {
    let input = "\u{1F600}".as_bytes();
    let result = utf8_to_utf16(input, false);
    assert_eq!(result, &[0x3D, 0xD8, 0x00, 0xDE]);
}

#[test]
fn test_utf32_le_ascii() {
    let input = b"A";
    let result = utf8_to_utf32(input, false);
    assert_eq!(result, &[0x41, 0x00, 0x00, 0x00]);
}

#[test]
fn test_utf32_be_ascii() {
    let input = b"A";
    let result = utf8_to_utf32(input, true);
    assert_eq!(result, &[0x00, 0x00, 0x00, 0x41]);
}

#[test]
fn test_utf32_le_emoji() {
    let input = "\u{1F600}".as_bytes();
    let result = utf8_to_utf32(input, false);
    assert_eq!(result, &[0x00, 0xF6, 0x01, 0x00]);
}

#[test]
fn test_empty_input() {
    assert_eq!(encode_utf8_to_target(b"", EncodingTarget::Utf8), b"");
    assert_eq!(encode_utf8_to_target(b"", EncodingTarget::Latin1), b"");
    assert_eq!(encode_utf8_to_target(b"", EncodingTarget::Utf16Le), b"");
    assert_eq!(encode_utf8_to_target(b"", EncodingTarget::Utf32Be), b"");
}

#[test]
fn test_extend_utf8() {
    let mut out = vec![0xAA];
    encode_utf8_extend(&mut out, b"hello", EncodingTarget::Utf8);
    assert_eq!(out, &[0xAA, b'h', b'e', b'l', b'l', b'o']);
}

#[test]
fn test_extend_latin1() {
    let mut out = Vec::new();
    encode_utf8_extend(&mut out, "caf\u{e9}".as_bytes(), EncodingTarget::Latin1);
    assert_eq!(out, utf8_to_latin1("caf\u{e9}".as_bytes()));
}

#[test]
fn test_extend_utf16_le() {
    let mut out = Vec::new();
    encode_utf8_extend(&mut out, b"AB", EncodingTarget::Utf16Le);
    assert_eq!(out, utf8_to_utf16(b"AB", false));
}

#[test]
fn test_extend_utf16_be() {
    let mut out = Vec::new();
    encode_utf8_extend(&mut out, b"AB", EncodingTarget::Utf16Be);
    assert_eq!(out, utf8_to_utf16(b"AB", true));
}

#[test]
fn test_extend_utf32_le() {
    let mut out = Vec::new();
    encode_utf8_extend(&mut out, "\u{1F600}".as_bytes(), EncodingTarget::Utf32Le);
    assert_eq!(out, utf8_to_utf32("\u{1F600}".as_bytes(), false));
}

#[test]
fn test_extend_utf32_be() {
    let mut out = Vec::new();
    encode_utf8_extend(&mut out, b"A", EncodingTarget::Utf32Be);
    assert_eq!(out, utf8_to_utf32(b"A", true));
}

#[test]
fn test_extend_appends() {
    let mut out = vec![1, 2, 3];
    encode_utf8_extend(&mut out, b"X", EncodingTarget::Utf16Le);
    assert_eq!(out, &[1, 2, 3, 0x58, 0x00]);
}

#[test]
fn utf16_be_and_utf32_be_of_emoji() {
    let input = "\u{1F600}".as_bytes();
    assert_eq!(utf8_to_utf16(input, true), vec![0xD8, 0x3D, 0xDE, 0x00]);
    assert_eq!(utf8_to_utf32(input, true), vec![0x00, 0x01, 0xF6, 0x00]);
}

#[test]
fn latin1_of_three_byte_scalar_is_question_mark() {
    assert_eq!(utf8_to_latin1("a\u{20AC}b".as_bytes()), b"a?b".to_vec());
}

#[test]
fn utf32_output_decodes_to_the_input_chars() {
    let s = "aé€😀\n";
    for big_endian in [false, true] {
        let out = utf8_to_utf32(s.as_bytes(), big_endian);
        assert_eq!(out.len(), 4 * s.chars().count());
        let units: Vec<u32> = out
            .chunks(4)
            .map(|b| {
                let b = [b[0], b[1], b[2], b[3]];
                if big_endian { u32::from_be_bytes(b) } else { u32::from_le_bytes(b) }
            })
            .collect();
        assert_eq!(units, s.chars().map(|c| c as u32).collect::<Vec<u32>>());
    }
}
