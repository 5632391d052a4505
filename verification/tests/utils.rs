use cmprsr_rs::utils::{bytes_to_string, pack_str, string_to_bytes};

#[test]
fn packs_most_significant_bit_first() {
    assert_eq!(string_to_bytes(String::from("10110")), vec![0xB0]);
    assert_eq!(string_to_bytes(String::from("00000001")), vec![0x01]);
    assert_eq!(string_to_bytes(String::from("10000000")), vec![0x80]);
}

#[test]
fn pads_the_last_byte_with_zero_bits() {
    assert_eq!(string_to_bytes(String::from("1")), vec![0x80]);
    assert_eq!(string_to_bytes(String::from("111111111")), vec![0xFF, 0x80]);
    assert_eq!(string_to_bytes(String::from("0000000011")), vec![0x00, 0xC0]);
}

#[test]
fn packs_nothing_into_nothing() {
    assert_eq!(string_to_bytes(String::new()), Vec::<u8>::new());
}

#[test]
fn packs_whole_bytes_without_padding() {
    assert_eq!(string_to_bytes(String::from("1010010100000001")), vec![0xA5, 0x01]);
}

#[test]
fn other_characters_count_as_zero_bits() {
    assert_eq!(string_to_bytes(String::from("1x1")), vec![0xA0]);
    assert_eq!(pack_str("1x1"), vec![0xA0]);
}

#[test]
fn writes_eight_characters_for_each_byte() {
    assert_eq!(bytes_to_string(&[0xA5, 0x01]), "1010010100000001");
    assert_eq!(bytes_to_string(&[0x00]), "00000000");
    assert_eq!(bytes_to_string(&[0xFF]), "11111111");
    assert_eq!(bytes_to_string(&[]), "");
}

#[test]
fn unpacking_gives_the_bits_back_with_the_padding() {
    let bits = "110100111";
    let packed = string_to_bytes(String::from(bits));
    let unpacked = bytes_to_string(&packed);
    assert_eq!(unpacked.len(), 16);
    assert_eq!(&unpacked[..bits.len()], bits);
    assert_eq!(&unpacked[bits.len()..], "0000000");
}
