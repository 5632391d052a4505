use cmprsr_rs::decoder::Decoder;
use cmprsr_rs::encoder::{END_PATTERN, START_PATTERN};
use cmprsr_rs::error::CodecError;

// A container with two header entries and two payload entries. Each code
// is sixteen bits long, so each is packed into two bytes.
fn create_test_data() -> Vec<u8> {
    let mut raw_bytes: Vec<u8> = Vec::new();

    // Start pattern
    raw_bytes.extend_from_slice(&START_PATTERN);

    // Header: character 'A' (0x41), code length 16 bits, packed [0x01, 0x02]
    raw_bytes.extend_from_slice(&[0x41, 0x00, 0x00, 0x00, 16, 0x01, 0x02]);

    // Header: character 'B' (0x42), code length 16 bits, packed [0x03, 0x04]
    raw_bytes.extend_from_slice(&[0x42, 0x00, 0x00, 0x00, 16, 0x03, 0x04]);

    // End pattern
    raw_bytes.extend_from_slice(&END_PATTERN);

    // Data: the code of 'A', then the code of 'B'
    raw_bytes.extend_from_slice(&[16, 0x01, 0x02, 16, 0x03, 0x04]);

    raw_bytes
}

#[test]
fn test_parse_header_and_data() -> Result<(), CodecError> {
    let raw_bytes = create_test_data();
    let mut decoder = Decoder::new();

    decoder.parse_header_and_data(&raw_bytes)?;

    // Check header
    assert_eq!(decoder.header.len(), 2);
    assert_eq!(decoder.header[0].0, 0x41);
    assert_eq!(decoder.header[0].1, vec![16, 0x01, 0x02]);
    assert_eq!(decoder.header[1].0, 0x42);
    assert_eq!(decoder.header[1].1, vec![16, 0x03, 0x04]);

    // Check data
    assert_eq!(decoder.data, vec![16, 0x01, 0x02, 16, 0x03, 0x04]);

    Ok(())
}

#[test]
fn test_header_to_lookup_table() -> Result<(), CodecError> {
    let raw_bytes = create_test_data();
    let mut decoder = Decoder::new();

    decoder.parse_header_and_data(&raw_bytes)?;
    let lookup_table = decoder.header_to_lookup_table()?;

    // Check lookup table
    assert_eq!(lookup_table.len(), 2);
    assert_eq!(lookup_table.get(&vec![0x01, 0x02]), Some('A'));
    assert_eq!(lookup_table.get(&vec![0x03, 0x04]), Some('B'));

    Ok(())
}

#[test]
fn test_decode() -> Result<(), CodecError> {
    let raw_bytes = create_test_data();
    let mut decoder = Decoder::new();

    decoder.parse_header_and_data(&raw_bytes)?;
    let lookup_table = decoder.header_to_lookup_table()?;
    let decoded_text = decoder.decode(lookup_table.clone())?;

    println!("{:?}", lookup_table);
    println!("{:?}", decoder);

    // Check decoded text
    assert_eq!(decoded_text, "AB");

    Ok(())
}

#[test]
fn parse_rejects_missing_start_marker() {
    let mut raw_bytes = create_test_data();
    raw_bytes[0] = 0x00;
    let mut decoder = Decoder::new();
    assert_eq!(decoder.parse_header_and_data(&raw_bytes), Err(CodecError::Format));
    assert!(decoder.header.is_empty());
    assert!(decoder.data.is_empty());
}

#[test]
fn parse_rejects_input_shorter_than_the_start_marker() {
    let mut decoder = Decoder::new();
    assert_eq!(decoder.parse_header_and_data(&[]), Err(CodecError::Format));
    assert_eq!(decoder.parse_header_and_data(&[0xAB]), Err(CodecError::Format));
}

#[test]
fn parse_rejects_header_without_end_marker() {
    let mut raw_bytes: Vec<u8> = Vec::new();
    raw_bytes.extend_from_slice(&START_PATTERN);
    raw_bytes.extend_from_slice(&[0x41, 0x00, 0x00, 0x00, 16, 0x01, 0x02]);
    raw_bytes.extend_from_slice(&[0x42, 0x00, 0x00, 0x00, 16, 0x03, 0x04]);
    let mut decoder = Decoder::new();
    assert_eq!(decoder.parse_header_and_data(&raw_bytes), Err(CodecError::Format));
    assert!(decoder.header.is_empty());
}

#[test]
fn parse_rejects_start_marker_alone() {
    let mut decoder = Decoder::new();
    assert_eq!(decoder.parse_header_and_data(&START_PATTERN), Err(CodecError::Format));
}

#[test]
fn parse_rejects_header_entry_cut_short() {
    let mut raw_bytes: Vec<u8> = Vec::new();
    raw_bytes.extend_from_slice(&START_PATTERN);
    // The entry announces sixteen bits and brings one byte.
    raw_bytes.extend_from_slice(&[0x41, 0x00, 0x00, 0x00, 16, 0x01]);
    let mut decoder = Decoder::new();
    assert_eq!(decoder.parse_header_and_data(&raw_bytes), Err(CodecError::Format));
}

#[test]
fn parse_accepts_header_without_entries() {
    let mut raw_bytes: Vec<u8> = Vec::new();
    raw_bytes.extend_from_slice(&START_PATTERN);
    raw_bytes.extend_from_slice(&END_PATTERN);
    let mut decoder = Decoder::new();
    assert_eq!(decoder.parse_header_and_data(&raw_bytes), Ok(()));
    assert!(decoder.header.is_empty());
    assert!(decoder.data.is_empty());
}

#[test]
fn length_byte_counts_bits() {
    let mut raw_bytes: Vec<u8> = Vec::new();
    raw_bytes.extend_from_slice(&START_PATTERN);
    // Two bits are packed into one byte, nine bits into two.
    raw_bytes.extend_from_slice(&[0x41, 0x00, 0x00, 0x00, 2, 0x40]);
    raw_bytes.extend_from_slice(&[0x42, 0x00, 0x00, 0x00, 9, 0x80, 0x80]);
    // No bits, no bytes.
    raw_bytes.extend_from_slice(&[0x43, 0x00, 0x00, 0x00, 0]);
    raw_bytes.extend_from_slice(&END_PATTERN);
    raw_bytes.extend_from_slice(&[9, 0x80, 0x80, 2, 0x40]);

    let mut decoder = Decoder::new();
    assert_eq!(decoder.parse_header_and_data(&raw_bytes), Ok(()));
    assert_eq!(decoder.header.len(), 3);
    assert_eq!(decoder.header[0], (0x41, vec![2, 0x40]));
    assert_eq!(decoder.header[1], (0x42, vec![9, 0x80, 0x80]));
    assert_eq!(decoder.header[2], (0x43, vec![0]));
    assert_eq!(decoder.data, vec![9, 0x80, 0x80, 2, 0x40]);

    let lookup_table = decoder.header_to_lookup_table().unwrap();
    assert_eq!(decoder.decode(lookup_table), Ok(String::from("BA")));
}

#[test]
fn code_point_is_read_in_little_endian_order() {
    let mut raw_bytes: Vec<u8> = Vec::new();
    raw_bytes.extend_from_slice(&START_PATTERN);
    // U+1F600 is stored as 00 F6 01 00.
    raw_bytes.extend_from_slice(&[0x00, 0xF6, 0x01, 0x00, 1, 0x80]);
    raw_bytes.extend_from_slice(&END_PATTERN);
    raw_bytes.extend_from_slice(&[1, 0x80]);

    let mut decoder = Decoder::new();
    decoder.parse_header_and_data(&raw_bytes).unwrap();
    assert_eq!(decoder.header[0].0, 0x1F600);
    let lookup_table = decoder.header_to_lookup_table().unwrap();
    assert_eq!(lookup_table.get(&[0x80]), Some('\u{1F600}'));
    assert_eq!(decoder.decode(lookup_table), Ok(String::from("\u{1F600}")));
}

#[test]
fn parse_appends_to_what_the_decoder_holds() {
    let raw_bytes = create_test_data();
    let mut decoder = Decoder::new();
    decoder.parse_header_and_data(&raw_bytes).unwrap();
    decoder.parse_header_and_data(&raw_bytes).unwrap();
    assert_eq!(decoder.header.len(), 4);
    assert_eq!(decoder.header[2], (0x41, vec![16, 0x01, 0x02]));
    assert_eq!(decoder.data.len(), 12);
}

#[test]
fn surrogate_code_point_is_an_invalid_symbol() {
    let mut raw_bytes: Vec<u8> = Vec::new();
    raw_bytes.extend_from_slice(&START_PATTERN);
    raw_bytes.extend_from_slice(&[0x41, 0x00, 0x00, 0x00, 1, 0x00]);
    raw_bytes.extend_from_slice(&[0x00, 0xD8, 0x00, 0x00, 1, 0x80]);
    raw_bytes.extend_from_slice(&END_PATTERN);
    let mut decoder = Decoder::new();
    decoder.parse_header_and_data(&raw_bytes).unwrap();
    assert!(matches!(decoder.header_to_lookup_table(), Err(CodecError::InvalidSymbol)));
}

#[test]
fn code_point_beyond_unicode_is_an_invalid_symbol() {
    let decoder = Decoder { header: vec![(0x110000, vec![1, 0x00])], data: Vec::new() };
    assert!(matches!(decoder.header_to_lookup_table(), Err(CodecError::InvalidSymbol)));
    let decoder = Decoder { header: vec![(0x10FFFF, vec![1, 0x00])], data: Vec::new() };
    let lookup_table = decoder.header_to_lookup_table().unwrap();
    assert_eq!(lookup_table.get(&[0x00]), Some('\u{10FFFF}'));
}

#[test]
fn payload_entry_without_header_entry_is_an_unknown_encoding() {
    let mut raw_bytes = create_test_data();
    raw_bytes.extend_from_slice(&[16, 0x05, 0x06]);
    let mut decoder = Decoder::new();
    decoder.parse_header_and_data(&raw_bytes).unwrap();
    let lookup_table = decoder.header_to_lookup_table().unwrap();
    assert_eq!(decoder.decode(lookup_table), Err(CodecError::UnknownEncoding));
}

#[test]
fn payload_entry_cut_short_is_a_format_error() {
    let mut raw_bytes = create_test_data();
    raw_bytes.extend_from_slice(&[16, 0x01]);
    let mut decoder = Decoder::new();
    decoder.parse_header_and_data(&raw_bytes).unwrap();
    let lookup_table = decoder.header_to_lookup_table().unwrap();
    assert_eq!(decoder.decode(lookup_table), Err(CodecError::Format));
}

#[test]
fn first_fault_of_the_payload_decides() {
    let mut raw_bytes = create_test_data();
    // An unknown entry, then one that is cut short.
    raw_bytes.extend_from_slice(&[16, 0x05, 0x06, 16, 0x01]);
    let mut decoder = Decoder::new();
    decoder.parse_header_and_data(&raw_bytes).unwrap();
    let lookup_table = decoder.header_to_lookup_table().unwrap();
    assert_eq!(decoder.decode(lookup_table), Err(CodecError::UnknownEncoding));
}

#[test]
fn later_header_entry_with_the_same_bytes_counts() {
    let decoder = Decoder {
        header: vec![(0x41, vec![8, 0x01]), (0x42, vec![8, 0x02]), (0x43, vec![8, 0x01])],
        data: vec![8, 0x01, 8, 0x02],
    };
    let lookup_table = decoder.header_to_lookup_table().unwrap();
    assert_eq!(lookup_table.len(), 2);
    assert_eq!(lookup_table.get(&[0x01]), Some('C'));
    assert_eq!(lookup_table.get(&[0x02]), Some('B'));
    assert_eq!(lookup_table.get(&[0x03]), None);
    assert_eq!(decoder.decode(lookup_table), Ok(String::from("CB")));
}

#[test]
fn key_of_a_header_entry_leaves_the_length_byte_out() {
    let decoder = Decoder {
        header: vec![(0x41, vec![16, 0x10, 0x20]), (0x42, vec![])],
        data: Vec::new(),
    };
    let lookup_table = decoder.header_to_lookup_table().unwrap();
    assert_eq!(lookup_table.get(&[0x10, 0x20]), Some('A'));
    assert_eq!(lookup_table.get(&[16, 0x10, 0x20]), None);
    assert_eq!(lookup_table.get(&[]), Some('B'));
}

#[test]
fn empty_payload_decodes_to_empty_text() {
    let decoder = Decoder::new();
    let lookup_table = decoder.header_to_lookup_table().unwrap();
    assert_eq!(lookup_table.len(), 0);
    assert_eq!(decoder.decode(lookup_table), Ok(String::new()));
}

#[test]
fn length_byte_is_no_count_of_bytes() {
    // Each entry announces two bits and brings two bytes: the second byte
    // is read as the start of the next entry, and the header never closes.
    let mut raw_bytes: Vec<u8> = Vec::new();
    raw_bytes.extend_from_slice(&START_PATTERN);
    raw_bytes.extend_from_slice(&[0x41, 0x00, 0x00, 0x00, 2, 0x01, 0x02]);
    raw_bytes.extend_from_slice(&[0x42, 0x00, 0x00, 0x00, 2, 0x03, 0x04]);
    raw_bytes.extend_from_slice(&END_PATTERN);
    raw_bytes.extend_from_slice(&[2, 0x01, 0x02, 2, 0x03, 0x04]);

    let mut decoder = Decoder::new();
    assert_eq!(decoder.parse_header_and_data(&raw_bytes), Err(CodecError::Format));
    assert!(decoder.header.is_empty());
    assert!(decoder.data.is_empty());
}
