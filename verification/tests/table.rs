use scel2txt::parser::{ScelError, ScelParser};

// one pinyin-table record: 2-byte index, 2-byte length, UTF-16LE text
fn record(index: u16, text: &str) -> Vec<u8> {
    let body: Vec<u8> = text.encode_utf16().flat_map(|u| u.to_le_bytes()).collect();
    let mut out = Vec::new();
    out.extend(index.to_le_bytes());
    out.extend((body.len() as u16).to_le_bytes());
    out.extend(body);
    out
}

#[test]
fn table_records_inserted() {
    let mut region = record(1, "ni");
    region.extend(record(2, "hao"));
    let mut p = ScelParser::new();
    assert!(p.get_py_table(&region).is_ok());
    assert_eq!(p.py_table.get(&1).map(String::as_str), Some("ni"));
    assert_eq!(p.py_table.get(&2).map(String::as_str), Some("hao"));
    assert_eq!(p.py_table.len(), 2);
}

#[test]
fn duplicate_index_last_write_wins() {
    let mut region = record(7, "ma");
    region.extend(record(7, "me"));
    let mut p = ScelParser::new();
    assert!(p.get_py_table(&region).is_ok());
    assert_eq!(p.py_table.get(&7).map(String::as_str), Some("me"));
    assert_eq!(p.py_table.len(), 1);
}

#[test]
fn empty_region_gives_empty_table() {
    let mut p = ScelParser::new();
    assert!(p.get_py_table(&[]).is_ok());
    assert!(p.py_table.is_empty());
}

#[test]
fn overlong_record_rejected() {
    // length field claims 0xFFFF bytes that are not there
    let region = [0x01u8, 0x00, 0xFF, 0xFF, 0x41, 0x00];
    let mut p = ScelParser::new();
    assert_eq!(p.get_py_table(&region), Err(ScelError::MalformedPinyinTable));
    assert!(p.py_table.is_empty());
}

#[test]
fn short_record_tail_rejected() {
    // a record needs four bytes of index and length before its text
    let mut region = record(1, "ni");
    region.extend([0x02u8, 0x00]);
    let mut p = ScelParser::new();
    assert_eq!(p.get_py_table(&region), Err(ScelError::MalformedPinyinTable));
    // no partial record is kept
    assert!(p.py_table.is_empty());
}

#[test]
fn reparsing_same_region_is_idempotent() {
    let mut region = record(1, "ni");
    region.extend(record(2, "hao"));
    region.extend(record(1, "nii"));

    let mut once = ScelParser::new();
    assert!(once.get_py_table(&region).is_ok());

    let mut twice = ScelParser::new();
    assert!(twice.get_py_table(&region).is_ok());
    assert!(twice.get_py_table(&region).is_ok());

    assert_eq!(once.py_table, twice.py_table);
}

#[test]
fn resolver_skips_unknown_indices() {
    let mut p = ScelParser::new();
    assert!(p.get_py_table(&record(1, "ni")).is_ok());
    // indices 1 and 2; only 1 is in the table
    let indices = [0x01u8, 0x00, 0x02, 0x00];
    assert_eq!(p.get_word_py(&indices), "ni");
}

#[test]
fn resolver_concatenates_in_order() {
    let mut region = record(1, "ni");
    region.extend(record(2, "hao"));
    let mut p = ScelParser::new();
    assert!(p.get_py_table(&region).is_ok());
    let indices = [0x02u8, 0x00, 0x01, 0x00];
    assert_eq!(p.get_word_py(&indices), "haoni");
}

#[test]
fn resolver_ignores_trailing_odd_byte() {
    let mut p = ScelParser::new();
    assert!(p.get_py_table(&record(1, "ni")).is_ok());
    let indices = [0x01u8, 0x00, 0x02];
    assert_eq!(p.get_word_py(&indices), "ni");
}
