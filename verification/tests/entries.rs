use scel2txt::parser::{ScelError, ScelParser};

fn le(v: u16) -> [u8; 2] {
    v.to_le_bytes()
}

fn utf16le(text: &str) -> Vec<u8> {
    text.encode_utf16().flat_map(|u| u.to_le_bytes()).collect()
}

// one word of a homophone group: word length, word text, extension length,
// frequency count, and the rest of the extension block zero-filled
fn word(text: &str, ext_len: u16, count: u16) -> Vec<u8> {
    let body = utf16le(text);
    let mut out = Vec::new();
    out.extend(le(body.len() as u16));
    out.extend(body);
    out.extend(le(ext_len));
    out.extend(le(count));
    for _ in 2..ext_len {
        out.push(0);
    }
    out
}

// one pinyin-table record
fn py_record(index: u16, text: &str) -> Vec<u8> {
    let body = utf16le(text);
    let mut out = Vec::new();
    out.extend(le(index));
    out.extend(le(body.len() as u16));
    out.extend(body);
    out
}

fn parser_with_ni() -> ScelParser {
    let mut p = ScelParser::new();
    assert!(p.get_py_table(&py_record(1, "ni")).is_ok());
    p
}

#[test]
fn single_word_group() {
    let mut region: Vec<u8> = Vec::new();
    region.extend(le(1)); // same
    region.extend(le(2)); // pinyin byte length
    region.extend(le(1)); // pinyin index 1
    region.extend(word("A", 2, 5));
    let mut p = parser_with_ni();
    assert!(p.get_chinese(&region).is_ok());
    assert_eq!(p.g_table, vec![(5, "ni".to_string(), "A".to_string())]);
}

#[test]
fn entry_count_is_sum_of_same_fields_in_buffer_order() {
    let mut region: Vec<u8> = Vec::new();
    // first group: two homophone words sharing pinyin "ni"
    region.extend(le(2));
    region.extend(le(2));
    region.extend(le(1));
    region.extend(word("A", 2, 7));
    region.extend(word("B", 2, 8));
    // second group: one word with an empty pinyin index list
    region.extend(le(1));
    region.extend(le(0));
    region.extend(word("C", 2, 9));
    let mut p = parser_with_ni();
    assert!(p.get_chinese(&region).is_ok());
    assert_eq!(p.g_table.len(), 2 + 1);
    assert_eq!(
        p.g_table,
        vec![
            (7, "ni".to_string(), "A".to_string()),
            (8, "ni".to_string(), "B".to_string()),
            (9, String::new(), "C".to_string()),
        ]
    );
}

#[test]
fn empty_region_gives_no_entries() {
    let mut p = parser_with_ni();
    assert!(p.get_chinese(&[]).is_ok());
    assert!(p.g_table.is_empty());
}

#[test]
fn unknown_pinyin_index_skipped_in_entry() {
    let mut region: Vec<u8> = Vec::new();
    region.extend(le(1));
    region.extend(le(4)); // two indices: 1 known, 2 unknown
    region.extend(le(1));
    region.extend(le(2));
    region.extend(word("A", 2, 3));
    let mut p = parser_with_ni();
    assert!(p.get_chinese(&region).is_ok());
    assert_eq!(p.g_table, vec![(3, "ni".to_string(), "A".to_string())]);
}

#[test]
fn final_extension_may_step_past_the_end() {
    // the last word's extension length is 4 with only the 2 count bytes left:
    // the cursor steps past the end and the region simply ends
    let mut region: Vec<u8> = Vec::new();
    region.extend(le(1));
    region.extend(le(0));
    region.extend(le(2)); // word length
    region.extend(utf16le("A"));
    region.extend(le(4)); // extension length
    region.extend(le(5)); // count, and nothing further
    let mut p = ScelParser::new();
    assert!(p.get_chinese(&region).is_ok());
    assert_eq!(p.g_table, vec![(5, String::new(), "A".to_string())]);
}

#[test]
fn overlong_word_rejected() {
    let mut region: Vec<u8> = Vec::new();
    region.extend(le(1));
    region.extend(le(0));
    region.extend(le(0xFFFF)); // word length far past the end
    region.extend(utf16le("A"));
    let mut p = ScelParser::new();
    assert_eq!(p.get_chinese(&region), Err(ScelError::MalformedEntries));
    // no partial entry is kept
    assert!(p.g_table.is_empty());
}

#[test]
fn truncated_group_header_rejected() {
    // a group needs four bytes of same and pinyin length
    let region = [0x01u8, 0x00];
    let mut p = ScelParser::new();
    assert_eq!(p.get_chinese(&region), Err(ScelError::MalformedEntries));
    assert!(p.g_table.is_empty());
}

#[test]
fn missing_second_word_rejected() {
    // same = 2, but the region ends after the first word: the whole region
    // is rejected and the first word is not kept
    let mut region: Vec<u8> = Vec::new();
    region.extend(le(2));
    region.extend(le(0));
    region.extend(word("A", 2, 5));
    let mut p = ScelParser::new();
    assert_eq!(p.get_chinese(&region), Err(ScelError::MalformedEntries));
    assert!(p.g_table.is_empty());
}

#[test]
fn entries_accumulate_across_regions() {
    let mut region: Vec<u8> = Vec::new();
    region.extend(le(1));
    region.extend(le(0));
    region.extend(word("A", 2, 1));
    let mut p = ScelParser::new();
    assert!(p.get_chinese(&region).is_ok());
    assert!(p.get_chinese(&region).is_ok());
    assert_eq!(
        p.g_table,
        vec![
            (1, String::new(), "A".to_string()),
            (1, String::new(), "A".to_string()),
        ]
    );
}
