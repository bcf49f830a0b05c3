use scel2txt::parser::ScelParser;

#[test]
fn zero_units_elided() {
    // little-endian units 0x0041, 0x0000, 0x0042: the zero unit is padding
    let bytes = [0x41u8, 0x00, 0x00, 0x00, 0x42, 0x00];
    assert_eq!(ScelParser::byte_to_str(&bytes), "AB");
}

#[test]
fn empty_input_decodes_empty() {
    let bytes: [u8; 0] = [];
    assert_eq!(ScelParser::byte_to_str(&bytes), "");
}

#[test]
fn all_zero_decodes_empty() {
    let bytes = [0u8; 64];
    assert_eq!(ScelParser::byte_to_str(&bytes), "");
}

#[test]
fn trailing_odd_byte_dropped() {
    let bytes = [0x41u8, 0x00, 0x42];
    assert_eq!(ScelParser::byte_to_str(&bytes), "A");
}

#[test]
fn lone_surrogate_substituted() {
    // 0xD800 is a lone surrogate, no scalar value on its own
    let bytes = [0x00u8, 0xD8, 0x41, 0x00];
    assert_eq!(ScelParser::byte_to_str(&bytes), "?A");
}

#[test]
fn basic_plane_text_decodes() {
    // UTF-16LE for the two ideographs of the end-to-end sample word
    let bytes = [0x4Bu8, 0x6D, 0xD5, 0x8B];
    assert_eq!(ScelParser::byte_to_str(&bytes), "\u{6D4B}\u{8BD5}");
}

#[test]
fn decode_inverts_utf16le_encoding() {
    // nonzero code units below the surrogate range: decoding then encoding
    // gives back the original bytes
    let text = "Hello, pinyin";
    let bytes: Vec<u8> = text.encode_utf16().flat_map(|u| u.to_le_bytes()).collect();
    let decoded = ScelParser::byte_to_str(&bytes);
    assert_eq!(decoded, text);
    let reencoded: Vec<u8> = decoded.encode_utf16().flat_map(|u| u.to_le_bytes()).collect();
    assert_eq!(reencoded, bytes);
}
