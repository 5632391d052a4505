use cmprsr_rs::container::{symbol_hides_end_marker, text_is_marker_free};
use cmprsr_rs::decoder::Decoder;
use cmprsr_rs::error::CodecError;
use cmprsr_rs::{compress, decompress};

fn round_trip(text: &str) {
    let container = compress(String::from(text)).unwrap();
    assert_eq!(decompress(&container), Ok(String::from(text)), "text: {:?}", text);
}

#[test]
fn two_symbols_get_one_bit_each() {
    let container = compress(String::from("aaab")).unwrap();
    assert_eq!(
        container,
        vec![
            0xAB, 0xCD, // start marker
            0x61, 0x00, 0x00, 0x00, 1, 0x00, // 'a' is written as 0
            0x62, 0x00, 0x00, 0x00, 1, 0x80, // 'b' is written as 1
            0xEF, 0x01, // end marker
            1, 0x00, 1, 0x00, 1, 0x00, 1, 0x80, // a a a b
        ]
    );
    assert_eq!(decompress(&container), Ok(String::from("aaab")));
}

#[test]
fn hello_world_has_eight_header_and_eleven_payload_entries() {
    let container = compress(String::from("hello world")).unwrap();

    let mut decoder = Decoder::new();
    decoder.parse_header_and_data(&container).unwrap();
    assert_eq!(decoder.header.len(), 8);
    assert_eq!(
        decoder.header,
        vec![
            (0x6C, vec![2, 0x00]), // l  00
            (0x65, vec![3, 0x40]), // e  010
            (0x68, vec![3, 0x60]), // h  011
            (0x6F, vec![3, 0x80]), // o  100
            (0x72, vec![3, 0xA0]), // r  101
            (0x77, vec![3, 0xC0]), // w  110
            (0x20, vec![4, 0xE0]), // ' ' 1110
            (0x64, vec![4, 0xF0]), // d  1111
        ]
    );

    // Each code is packed into one byte: eleven entries of two bytes.
    assert_eq!(decoder.data.len(), 11 * (1 + 1));
    assert_eq!(
        decoder.data,
        vec![
            3, 0x60, 3, 0x40, 2, 0x00, 2, 0x00, 3, 0x80, 4, 0xE0, 3, 0xC0, 3, 0x80, 3, 0xA0, 2,
            0x00, 4, 0xF0,
        ]
    );
    assert_eq!(container.len(), 2 + 8 * 6 + 2 + 22);

    let lookup_table = decoder.header_to_lookup_table().unwrap();
    assert_eq!(lookup_table.len(), 8);
    assert_eq!(decoder.decode(lookup_table), Ok(String::from("hello world")));
}

#[test]
fn one_repeated_character_is_written_with_one_bit() {
    let container = compress(String::from("zzzz")).unwrap();
    assert_eq!(
        container,
        vec![
            0xAB, 0xCD, 0x7A, 0x00, 0x00, 0x00, 1, 0x00, 0xEF, 0x01, 1, 0x00, 1, 0x00, 1, 0x00, 1,
            0x00,
        ]
    );
    assert_eq!(decompress(&container), Ok(String::from("zzzz")));
}

#[test]
fn one_character_alone_comes_back() {
    round_trip("x");
}

#[test]
fn empty_text_is_the_two_markers() {
    let container = compress(String::new()).unwrap();
    assert_eq!(container, vec![0xAB, 0xCD, 0xEF, 0x01]);
    assert_eq!(decompress(&container), Ok(String::new()));
}

#[test]
fn plain_texts_come_back() {
    round_trip("hello world");
    round_trip("aaab");
    round_trip("abracadabra");
    round_trip("The quick brown fox jumps over the lazy dog.");
    round_trip("mississippi river");
}

#[test]
fn line_ends_come_back() {
    round_trip("first line\nsecond line\r\nthird line\n");
    round_trip("\n");
    round_trip("\n\n\n");
}

#[test]
fn characters_beyond_ascii_come_back() {
    round_trip("na\u{ef}ve caf\u{e9} \u{2014} \u{4f60}\u{597d} \u{1F600}\u{1F600}");
    round_trip("\u{0}\u{1}\u{10FFFF}");
}

#[test]
fn many_different_characters_come_back() {
    let mut text = String::new();
    for code_point in 0x20u32..0x220 {
        // Leave out the one character whose header entry begins like the end marker.
        if code_point == 0x1EF {
            continue;
        }
        let c = char::from_u32(code_point).unwrap();
        for _ in 0..(1 + code_point % 7) {
            text.push(c);
        }
    }
    round_trip(&text);
}

#[test]
fn skewed_counts_come_back() {
    let mut text = String::new();
    let mut count = 1;
    for c in "abcdefghijklmnop".chars() {
        for _ in 0..count {
            text.push(c);
        }
        count *= 2;
    }
    round_trip(&text);
}

#[test]
fn header_entry_that_begins_like_the_end_marker_ends_the_header() {
    // The code point U+01EF is stored as EF 01 00 00.
    let container = compress(String::from("a\u{1EF}")).unwrap();
    assert_eq!(
        container,
        vec![
            0xAB, 0xCD, 0x61, 0x00, 0x00, 0x00, 1, 0x00, 0xEF, 0x01, 0x00, 0x00, 1, 0x80, 0xEF,
            0x01, 1, 0x00, 1, 0x80,
        ]
    );
    let mut decoder = Decoder::new();
    decoder.parse_header_and_data(&container).unwrap();
    assert_eq!(decoder.header, vec![(0x61, vec![1, 0x00])]);
    assert_eq!(decoder.data, vec![0x00, 0x00, 1, 0x80, 0xEF, 0x01, 1, 0x00, 1, 0x80]);
    assert_eq!(decompress(&container), Err(CodecError::UnknownEncoding));
}

#[test]
fn same_text_gives_the_same_container() {
    let one = compress(String::from("determinism matters")).unwrap();
    let other = compress(String::from("determinism matters")).unwrap();
    assert_eq!(one, other);
}

#[test]
fn texts_with_the_same_counts_share_the_header() {
    let one = compress(String::from("aabbbc")).unwrap();
    let other = compress(String::from("cbabab")).unwrap();
    let header_len = 2 + 3 * 6 + 2;
    assert_eq!(&one[..header_len], &other[..header_len]);
}

#[test]
fn decompress_reports_what_is_wrong() {
    assert_eq!(decompress(&[]), Err(CodecError::Format));
    assert_eq!(decompress(&[0xAB, 0xCD]), Err(CodecError::Format));
    assert_eq!(decompress(&[0xCD, 0xAB, 0xEF, 0x01]), Err(CodecError::Format));
    assert_eq!(
        decompress(&[0xAB, 0xCD, 0x00, 0xD8, 0x00, 0x00, 1, 0x00, 0xEF, 0x01]),
        Err(CodecError::InvalidSymbol)
    );
    assert_eq!(
        decompress(&[0xAB, 0xCD, 0x61, 0x00, 0x00, 0x00, 1, 0x00, 0xEF, 0x01, 1, 0x80]),
        Err(CodecError::UnknownEncoding)
    );
    assert_eq!(
        decompress(&[0xAB, 0xCD, 0x61, 0x00, 0x00, 0x00, 1, 0x00, 0xEF, 0x01, 1]),
        Err(CodecError::Format)
    );
}

#[test]
fn texts_that_hide_the_end_marker_are_told_apart() {
    assert!(text_is_marker_free("hello world"));
    assert!(text_is_marker_free(""));
    assert!(!text_is_marker_free("a\u{1EF}"));
    assert!(!text_is_marker_free("\u{101EF}"));
    assert!(text_is_marker_free("\u{1EE}\u{1F0}\u{EF}"));
    assert!(symbol_hides_end_marker('\u{1EF}'));
    assert!(!symbol_hides_end_marker('a'));
}
