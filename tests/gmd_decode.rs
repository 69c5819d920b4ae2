use mhw_data_reader::cursor::{self, Eof};
use mhw_data_reader::gmd::{self, GmdError, Language};

fn push_u32(out: &mut Vec<u8>, v: u32) {
    out.extend_from_slice(&v.to_le_bytes());
}

fn push_cstr(out: &mut Vec<u8>, s: &[u8]) {
    out.extend_from_slice(s);
    out.push(0);
}

fn gmd_buffer(language: u32, indexes: &[u32], keys: &[&str], values: &[&[u8]]) -> Vec<u8> {
    let mut out = Vec::new();
    out.extend_from_slice(b"GMD\0");
    push_u32(&mut out, 0x00010302);
    push_u32(&mut out, language);
    out.extend_from_slice(&[0u8; 8]);
    push_u32(&mut out, keys.len() as u32);
    push_u32(&mut out, values.len() as u32);
    push_u32(&mut out, 0);
    push_u32(&mut out, 0);
    push_u32(&mut out, 9);
    push_cstr(&mut out, b"item_eng");
    for index in indexes {
        push_u32(&mut out, *index);
        out.extend_from_slice(&[0xAAu8; 28]);
    }
    out.extend_from_slice(&[0x55u8; 0x800]);
    for key in keys {
        push_cstr(&mut out, key.as_bytes());
    }
    for value in values {
        push_cstr(&mut out, value);
    }
    out
}

#[test]
fn minimal_table_has_one_keyed_entry() {
    let buf = gmd_buffer(1, &[0], &["Key1"], &[b"Value1"]);
    let doc = gmd::parse(&buf).unwrap();
    assert_eq!(doc.entries.len(), 1);
    assert_eq!(doc.entries[0].key, Some("Key1".to_string()));
    assert_eq!(doc.entries[0].value, "Value1");
    assert_eq!(doc.header.filename, "item_eng");
    assert_eq!(doc.header.version, 0x00010302);
    assert_eq!(doc.header.language, Language::English);
}

#[test]
fn values_without_keys_are_kept_in_order() {
    let buf = gmd_buffer(0, &[1, 3], &["K0", "K1"], &[b"v0", b"v1", b"v2", b"v3", b"v4"]);
    let doc = gmd::parse(&buf).unwrap();
    let got: Vec<(Option<&str>, &str)> = doc
        .entries
        .iter()
        .map(|e| (e.key.as_deref(), e.value.as_str()))
        .collect();
    assert_eq!(
        got,
        vec![(None, "v0"), (Some("K0"), "v1"), (None, "v2"), (Some("K1"), "v3"), (None, "v4")]
    );
    assert_eq!(doc.entries.len() as u32, doc.header.string_count);
    let keyed = doc.entries.iter().filter(|e| e.key.is_some()).count() as u32;
    assert_eq!(keyed, doc.header.key_count);
}

#[test]
fn empty_table_decodes() {
    let buf = gmd_buffer(0, &[], &[], &[]);
    let doc = gmd::parse(&buf).unwrap();
    assert!(doc.entries.is_empty());
}

#[test]
fn decreasing_index_is_malformed() {
    let buf = gmd_buffer(1, &[2, 1], &["A", "B"], &[b"a", b"b", b"c"]);
    assert_eq!(gmd::parse(&buf).unwrap_err(), GmdError::MalformedIndexTable);
}

#[test]
fn repeated_index_is_malformed() {
    let buf = gmd_buffer(1, &[1, 1], &["A", "B"], &[b"a", b"b", b"c"]);
    assert_eq!(gmd::parse(&buf).unwrap_err(), GmdError::MalformedIndexTable);
}

#[test]
fn index_past_last_value_is_malformed() {
    let buf = gmd_buffer(1, &[3], &["A"], &[b"a", b"b", b"c"]);
    assert_eq!(gmd::parse(&buf).unwrap_err(), GmdError::MalformedIndexTable);
}

#[test]
fn language_codes() {
    let bad = gmd_buffer(9, &[0], &["K"], &[b"v"]);
    assert_eq!(gmd::parse(&bad).unwrap_err(), GmdError::UnsupportedLanguageCode(9));
    let pt = gmd_buffer(21, &[0], &["K"], &[b"v"]);
    assert_eq!(gmd::parse(&pt).unwrap().header.language, Language::Portuguese);
    let en = gmd_buffer(1, &[0], &["K"], &[b"v"]);
    assert_eq!(gmd::parse(&en).unwrap().header.language, Language::English);
    assert_eq!(Language::from_code(22), Some(Language::Arabic));
    assert_eq!(Language::from_code(10), Some(Language::Russian));
    assert_eq!(Language::from_code(12), None);
    assert_eq!(Language::from_code(20), None);
}

#[test]
fn wrong_magic_is_rejected() {
    let mut buf = gmd_buffer(1, &[0], &["K"], &[b"v"]);
    buf[0] = b'X';
    assert_eq!(gmd::parse(&buf).unwrap_err(), GmdError::InvalidMagic);
}

#[test]
fn truncated_header_reports_counts() {
    let buf = gmd_buffer(1, &[0], &["K"], &[b"v"]);
    assert_eq!(
        gmd::parse(&buf[..2]).unwrap_err(),
        GmdError::UnexpectedEof { needed: 4, available: 2 }
    );
    assert_eq!(
        gmd::parse(&buf[..10]).unwrap_err(),
        GmdError::UnexpectedEof { needed: 4, available: 2 }
    );
    assert_eq!(
        gmd::parse(&buf[..15]).unwrap_err(),
        GmdError::UnexpectedEof { needed: 8, available: 3 }
    );
    assert_eq!(
        gmd::parse(&buf[..43]).unwrap_err(),
        GmdError::UnexpectedEof { needed: 4, available: 3 }
    );
}

#[test]
fn truncated_info_and_block_report_counts() {
    let buf = gmd_buffer(1, &[0], &["K"], &[b"v"]);
    // The header with its 9-byte filename ends at 49.
    assert_eq!(
        gmd::parse(&buf[..51]).unwrap_err(),
        GmdError::UnexpectedEof { needed: 4, available: 2 }
    );
    assert_eq!(
        gmd::parse(&buf[..60]).unwrap_err(),
        GmdError::UnexpectedEof { needed: 28, available: 7 }
    );
    assert_eq!(
        gmd::parse(&buf[..81]).unwrap_err(),
        GmdError::UnexpectedEof { needed: 0x800, available: 0 }
    );
}

#[test]
fn every_truncation_is_an_eof() {
    let buf = gmd_buffer(1, &[0, 2], &["K", "L"], &[b"a", b"b", b"c"]);
    assert!(gmd::parse(&buf).is_ok());
    for n in 0..buf.len() {
        match gmd::parse(&buf[..n]) {
            Err(GmdError::UnexpectedEof { needed, available }) => assert!(needed > available),
            other => panic!("prefix of {} bytes gave {:?}", n, other.map(|d| d.entries.len())),
        }
    }
}

#[test]
fn invalid_utf8_is_replaced() {
    let buf = gmd_buffer(1, &[0], &["K"], &[&[b'a', 0xFF, b'b']]);
    let doc = gmd::parse(&buf).unwrap();
    assert_eq!(doc.entries[0].value, "a\u{FFFD}b");
}

#[test]
fn parse_document_reports_end() {
    let mut buf = gmd_buffer(1, &[0], &["K"], &[b"v"]);
    let len = buf.len();
    buf.extend_from_slice(b"trailing");
    let (end, doc) = gmd::parse_document(&buf).unwrap();
    assert_eq!(end, len);
    assert_eq!(doc.entries.len(), 1);
}

#[test]
fn header_then_entries() {
    let buf = gmd_buffer(4, &[1], &["K"], &[b"x", b"y"]);
    let (pos, header) = gmd::parse_header(&buf).unwrap();
    assert_eq!(pos, 49);
    assert_eq!(header.language, Language::German);
    assert_eq!(header.key_count, 1);
    assert_eq!(header.string_count, 2);
    let (end, entries) = gmd::parse_entries(&buf, pos, &header).unwrap();
    assert_eq!(end, buf.len());
    assert_eq!(entries[0].key, None);
    assert_eq!(entries[0].value, "x");
    assert_eq!(entries[1].key, Some("K".to_string()));
    assert_eq!(entries[1].value, "y");
}

#[test]
fn truncated_text_counts_bytes_left_at_the_read() {
    let buf = gmd_buffer(1, &[0], &["Key1"], &[b"Value1"]);
    // Keys start after the header (49), the info table (32) and the block.
    let keys_at = 49 + 32 + 0x800;
    assert_eq!(
        gmd::parse(&buf[..keys_at + 2]).unwrap_err(),
        GmdError::UnexpectedEof { needed: 3, available: 2 }
    );
    let values_at = keys_at + 5;
    assert_eq!(
        gmd::parse(&buf[..values_at]).unwrap_err(),
        GmdError::UnexpectedEof { needed: 1, available: 0 }
    );
    assert_eq!(
        gmd::parse(&buf[..values_at + 6]).unwrap_err(),
        GmdError::UnexpectedEof { needed: 7, available: 6 }
    );
}

#[test]
fn null_terminated_read() {
    let (s, end) = cursor::take_null_terminated_string(b"ab\0cd", 0).unwrap();
    assert_eq!(s, "ab");
    assert_eq!(end, 3);
    assert_eq!(
        cursor::take_null_terminated_string(b"ab\0cd", 3).unwrap_err(),
        Eof { needed: 3, available: 2 }
    );
    assert_eq!(
        cursor::take_null_terminated_string(b"", 0).unwrap_err(),
        Eof { needed: 1, available: 0 }
    );
}
