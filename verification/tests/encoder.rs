use cmprsr_rs::encoder::{Code, Encoder, END_PATTERN, MAX_CODE_BITS, START_PATTERN};
use cmprsr_rs::error::CodecError;

fn code(c: char, bits: &str) -> Code {
    Code { code: String::from(bits), c }
}

fn encoder_with(text: &str, codes: Vec<Code>) -> Encoder {
    let mut encoder = Encoder::new(String::from(text));
    encoder.canon_codes = codes;
    encoder
}

#[test]
fn markers_are_the_fixed_bytes() {
    assert_eq!(START_PATTERN, [0xAB, 0xCD]);
    assert_eq!(END_PATTERN, [0xEF, 0x01]);
    assert_eq!(MAX_CODE_BITS, 255);
}

#[test]
fn new_encoder_has_counted_nothing() {
    let encoder = Encoder::new(String::from("abc"));
    assert_eq!(encoder.text, "abc");
    assert_eq!(encoder.char_map.len(), 0);
    assert!(encoder.base_codes.is_empty());
    assert!(encoder.canon_codes.is_empty());
}

#[test]
fn counts_each_character() {
    let mut encoder = Encoder::new(String::from("aaab"));
    encoder.count_chars();
    assert_eq!(encoder.char_map.as_slice(), &[('a', 3), ('b', 1)]);
}

#[test]
fn counts_hello_world() {
    let mut encoder = Encoder::new(String::from("hello world"));
    encoder.count_chars();
    assert_eq!(encoder.char_map.len(), 8);
    assert_eq!(
        encoder.char_map.as_slice(),
        &[
            (' ', 1),
            ('d', 1),
            ('e', 1),
            ('h', 1),
            ('l', 3),
            ('o', 2),
            ('r', 1),
            ('w', 1),
        ]
    );
}

#[test]
fn empty_text_gives_an_empty_table() {
    let mut encoder = Encoder::new(String::new());
    encoder.count_chars();
    assert_eq!(encoder.char_map.len(), 0);
}

#[test]
fn line_ends_are_counted() {
    let mut encoder = Encoder::new(String::from("a\nb\r\na\n"));
    encoder.count_chars();
    assert_eq!(encoder.char_map.as_slice(), &[('\n', 3), ('\r', 1), ('a', 2), ('b', 1)]);
}

#[test]
fn counting_again_gives_the_same_table() {
    let mut encoder = Encoder::new(String::from("abca"));
    encoder.count_chars();
    encoder.count_chars();
    assert_eq!(encoder.char_map.as_slice(), &[('a', 2), ('b', 1), ('c', 1)]);
}

#[test]
fn counts_characters_not_bytes() {
    let mut encoder = Encoder::new(String::from("\u{e9}\u{1F600}\u{e9}"));
    encoder.count_chars();
    assert_eq!(encoder.char_map.as_slice(), &[('\u{e9}', 2), ('\u{1F600}', 1)]);
}

#[test]
fn header_holds_one_entry_for_each_code() {
    let encoder = encoder_with("", vec![code('a', "0"), code('b', "10"), code('c', "110110110")]);
    assert_eq!(
        encoder.write_header_data(),
        Ok(vec![
            0xAB, 0xCD, // start marker
            0x61, 0x00, 0x00, 0x00, 1, 0x00, // 'a'
            0x62, 0x00, 0x00, 0x00, 2, 0x80, // 'b'
            0x63, 0x00, 0x00, 0x00, 9, 0xDB, 0x00, // 'c'
            0xEF, 0x01, // end marker
        ])
    );
}

#[test]
fn header_without_codes_is_the_two_markers() {
    let encoder = encoder_with("", Vec::new());
    assert_eq!(encoder.write_header_data(), Ok(vec![0xAB, 0xCD, 0xEF, 0x01]));
}

#[test]
fn header_writes_the_code_point_in_little_endian_order() {
    let encoder = encoder_with("", vec![code('\u{1F600}', "1"), code('\u{20AC}', "01")]);
    assert_eq!(
        encoder.write_header_data(),
        Ok(vec![
            0xAB, 0xCD, 0x00, 0xF6, 0x01, 0x00, 1, 0x80, 0xAC, 0x20, 0x00, 0x00, 2, 0x40, 0xEF,
            0x01,
        ])
    );
}

#[test]
fn payload_holds_one_entry_for_each_character() {
    let encoder = encoder_with("abca", vec![code('a', "0"), code('b', "10"), code('c', "11")]);
    assert_eq!(
        encoder.encode(),
        Ok(vec![1, 0x00, 2, 0x80, 2, 0xC0, 1, 0x00])
    );
}

#[test]
fn payload_of_the_empty_text_is_empty() {
    let encoder = encoder_with("", vec![code('a', "0")]);
    assert_eq!(encoder.encode(), Ok(Vec::new()));
}

#[test]
fn payload_uses_the_first_code_of_a_symbol() {
    let encoder = encoder_with("a", vec![code('a', "01"), code('a', "1")]);
    assert_eq!(encoder.encode(), Ok(vec![2, 0x40]));
}

#[test]
fn character_without_code_is_an_error() {
    let encoder = encoder_with("ab", vec![code('a', "0")]);
    assert_eq!(encoder.encode(), Err(CodecError::MissingCode));
}

#[test]
fn code_of_255_bits_fits_the_length_byte() {
    let bits = "1".repeat(255);
    let encoder = encoder_with("a", vec![code('a', &bits)]);

    let header = encoder.write_header_data().unwrap();
    assert_eq!(header.len(), 2 + 4 + 1 + 32 + 2);
    assert_eq!(header[6], 255);
    assert_eq!(&header[7..38], &[0xFF; 31]);
    assert_eq!(header[38], 0xFE);

    let payload = encoder.encode().unwrap();
    assert_eq!(payload.len(), 33);
    assert_eq!(payload[0], 255);
}

#[test]
fn code_of_256_bits_is_a_format_error() {
    let bits = "1".repeat(256);
    let encoder = encoder_with("a", vec![code('a', &bits)]);
    assert_eq!(encoder.write_header_data(), Err(CodecError::Format));
    assert_eq!(encoder.encode(), Err(CodecError::Format));
}

#[test]
fn unused_long_code_does_not_stop_the_payload() {
    let bits = "1".repeat(256);
    let encoder = encoder_with("a", vec![code('a', "0"), code('b', &bits)]);
    assert_eq!(encoder.encode(), Ok(vec![1, 0x00]));
    assert_eq!(encoder.write_header_data(), Err(CodecError::Format));
}

#[test]
fn first_fault_of_the_text_decides() {
    let bits = "1".repeat(256);
    let encoder = encoder_with("abz", vec![code('a', "0"), code('b', &bits)]);
    assert_eq!(encoder.encode(), Err(CodecError::Format));
    let encoder = encoder_with("azb", vec![code('a', "0"), code('b', &bits)]);
    assert_eq!(encoder.encode(), Err(CodecError::MissingCode));
}

#[test]
fn errors_describe_themselves() {
    assert_eq!(CodecError::Format.message(), "malformed container");
    assert_eq!(
        CodecError::InvalidSymbol.message(),
        "code point is not a Unicode scalar value"
    );
    assert_eq!(
        CodecError::UnknownEncoding.message(),
        "payload entry matches no header entry"
    );
    assert_eq!(CodecError::MissingCode.message(), "character has no code");
}

#[test]
fn base_codes_are_sorted_by_bits_then_symbol() {
    let mut encoder = Encoder::new(String::new());
    encoder.base_codes = vec![
        code('a', "1"),
        code('b', "01"),
        code('z', "0"),
        code('c', "0"),
        code('q', ""),
        code('d', "011"),
        code('e', "0101"),
    ];
    encoder.sort_base();
    assert_eq!(
        encoder.base_codes,
        vec![
            code('q', ""),
            code('c', "0"),
            code('z', "0"),
            code('b', "01"),
            code('e', "0101"),
            code('d', "011"),
            code('a', "1"),
        ]
    );
}

#[test]
fn sorting_agrees_with_the_order_of_codes() {
    let codes = vec![
        code('\u{e9}', "110"),
        code('x', "110"),
        code('\u{1F600}', "10"),
        code('a', "111"),
        code('b', "0"),
        code('b', "0"),
        code('A', "0"),
    ];
    let mut expected = codes.clone();
    expected.sort();
    let mut encoder = Encoder::new(String::from("kept"));
    encoder.base_codes = codes;
    encoder.sort_base();
    assert_eq!(encoder.base_codes, expected);
    assert_eq!(encoder.text, "kept");
}

#[test]
fn sorting_nothing_gives_nothing() {
    let mut encoder = Encoder::new(String::new());
    encoder.sort_base();
    assert!(encoder.base_codes.is_empty());
}
