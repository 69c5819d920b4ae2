use mhw_data_reader::gmd::{GmdDocument, GmdEntry, GmdHeader, Language};
use mhw_data_reader::itm::{
    self, ItemContainerType, ItemSubType, ItmDocument, ItmEntry, ItmError, ItmImportResult,
};

struct Record {
    id: u32,
    subtype: u8,
    container_type: u16,
    rarity: u8,
    carry_limit: u8,
    sort_order: u16,
    sell_price: u32,
    buy_price: u32,
}

fn record(id: u32) -> Record {
    Record {
        id,
        subtype: 1,
        container_type: 0,
        rarity: 3,
        carry_limit: 10,
        sort_order: 5,
        sell_price: 100,
        buy_price: 200,
    }
}

fn itm_buffer(records: &[Record]) -> Vec<u8> {
    let mut out = vec![0xEE, 0x00, 0x01, 0x00, 0x00, 0x00];
    out.extend_from_slice(&(records.len() as u32).to_le_bytes());
    for r in records {
        out.extend_from_slice(&r.id.to_le_bytes());
        out.push(0x77);
        out.push(r.subtype);
        out.extend_from_slice(&r.container_type.to_le_bytes());
        out.push(0x77);
        out.push(r.rarity);
        out.push(r.carry_limit);
        out.push(r.carry_limit);
        out.extend_from_slice(&r.sort_order.to_le_bytes());
        out.extend_from_slice(&[0x77u8; 10]);
        out.extend_from_slice(&r.sell_price.to_le_bytes());
        out.extend_from_slice(&r.buy_price.to_le_bytes());
    }
    out
}

fn entry(id: u32) -> ItmEntry {
    ItmEntry {
        id,
        subtype: ItemSubType::NoSubType,
        container_type: ItemContainerType::Item,
        rarity: 1,
        carry_limit: 1,
        sort_order: 0,
        sell_price: 0,
        buy_price: 0,
        name: None,
    }
}

fn string_table(n: usize) -> GmdDocument {
    GmdDocument {
        header: GmdHeader {
            version: 1,
            language: Language::English,
            filename: "item_eng".to_string(),
            key_count: 0,
            string_count: n as u32,
            key_block_size: 0,
            string_block_size: 0,
        },
        entries: (0..n).map(|i| GmdEntry { key: None, value: format!("text{}", i) }).collect(),
    }
}

#[test]
fn single_record_decodes_exactly() {
    let buf = itm_buffer(&[record(7)]);
    let doc = itm::parse(&buf).unwrap();
    assert_eq!(doc.entries.len(), 1);
    let e = &doc.entries[0];
    assert_eq!(e.id, 7);
    assert_eq!(e.subtype, ItemSubType::Ammo);
    assert_eq!(e.container_type, ItemContainerType::Item);
    assert_eq!(e.rarity, 3);
    assert_eq!(e.carry_limit, 10);
    assert_eq!(e.sort_order, 5);
    assert_eq!(e.sell_price, 100);
    assert_eq!(e.buy_price, 200);
    assert_eq!(e.name, None);
}

#[test]
fn records_take_thirty_two_bytes_each() {
    let mut records = vec![record(4), record(0), record(9)];
    records[1].subtype = 5;
    records[1].container_type = 5;
    records[2].sell_price = 0xDEADBEEF;
    let mut buf = itm_buffer(&records);
    assert_eq!(buf.len(), 10 + 32 * 3);
    buf.extend_from_slice(&[1, 2, 3]);
    let (end, doc) = itm::parse_document(&buf).unwrap();
    assert_eq!(end, 10 + 32 * 3);
    let ids: Vec<u32> = doc.entries.iter().map(|e| e.id).collect();
    assert_eq!(ids, vec![4, 0, 9]);
    assert_eq!(doc.entries[1].subtype, ItemSubType::Unknown5);
    assert_eq!(doc.entries[1].container_type, ItemContainerType::Furniture);
    assert_eq!(doc.entries[2].sell_price, 0xDEADBEEF);
}

#[test]
fn empty_catalog_decodes() {
    let buf = itm_buffer(&[]);
    let doc = itm::parse(&buf).unwrap();
    assert!(doc.entries.is_empty());
}

#[test]
fn unsupported_subtype_is_rejected() {
    let mut r = record(1);
    r.subtype = 6;
    let buf = itm_buffer(&[r]);
    assert_eq!(
        itm::parse(&buf).unwrap_err(),
        ItmError::UnsupportedEnumValue { field: "subtype", raw: 6 }
    );
}

#[test]
fn unsupported_container_type_is_rejected() {
    let mut r = record(1);
    r.container_type = 0x0106;
    let buf = itm_buffer(&[r]);
    assert_eq!(
        itm::parse(&buf).unwrap_err(),
        ItmError::UnsupportedEnumValue { field: "container_type", raw: 0x0106 }
    );
}

#[test]
fn truncated_catalog_reports_counts() {
    let buf = itm_buffer(&[record(7), record(8)]);
    assert_eq!(
        itm::parse(&buf[..3]).unwrap_err(),
        ItmError::UnexpectedEof { needed: 6, available: 3 }
    );
    assert_eq!(
        itm::parse(&buf[..8]).unwrap_err(),
        ItmError::UnexpectedEof { needed: 4, available: 2 }
    );
    // Second record starts at 42; its sell price at 66.
    assert_eq!(
        itm::parse(&buf[..68]).unwrap_err(),
        ItmError::UnexpectedEof { needed: 4, available: 2 }
    );
    assert_eq!(
        itm::parse(&buf[..47]).unwrap_err(),
        ItmError::UnexpectedEof { needed: 1, available: 0 }
    );
    for n in 0..buf.len() {
        assert!(matches!(itm::parse(&buf[..n]), Err(ItmError::UnexpectedEof { .. })));
    }
}

#[test]
fn parse_entry_reads_one_record() {
    let buf = itm_buffer(&[record(12)]);
    let (end, e) = itm::parse_entry(&buf, 10).unwrap();
    assert_eq!(end, 42);
    assert_eq!(e.id, 12);
    assert_eq!(e.buy_price, 200);
}

#[test]
fn raw_enum_values() {
    assert_eq!(ItemSubType::from_raw(4), Some(ItemSubType::Coating));
    assert_eq!(ItemSubType::from_raw(6), None);
    assert_eq!(ItemContainerType::from_raw(3), Some(ItemContainerType::AmmoCoating));
    assert_eq!(ItemContainerType::from_raw(6), None);
}

#[test]
fn link_names_by_twice_the_id() {
    let mut doc = ItmDocument { entries: vec![entry(3)] };
    let gmd = string_table(7);
    assert_eq!(doc.import_gmd(&gmd), ItmImportResult::Success);
    assert_eq!(doc.entries[0].name, Some("text6".to_string()));
}

#[test]
fn link_past_the_table_leaves_name_absent() {
    let mut doc = ItmDocument { entries: vec![entry(3)] };
    let gmd = string_table(5);
    assert_eq!(doc.import_gmd(&gmd), ItmImportResult::NoEntriesImported);
    assert_eq!(doc.entries[0].name, None);
}

#[test]
fn link_partial() {
    let mut doc = ItmDocument { entries: vec![entry(0), entry(2), entry(1), entry(40)] };
    let gmd = string_table(5);
    assert_eq!(doc.import_gmd(&gmd), ItmImportResult::PartialSuccess(3));
    let names: Vec<Option<String>> = doc.entries.iter().map(|e| e.name.clone()).collect();
    assert_eq!(
        names,
        vec![Some("text0".to_string()), Some("text4".to_string()), Some("text2".to_string()), None]
    );
}

#[test]
fn link_large_id_does_not_wrap() {
    let mut doc = ItmDocument { entries: vec![entry(0x8000_0000)] };
    let gmd = string_table(3);
    assert_eq!(doc.import_gmd(&gmd), ItmImportResult::NoEntriesImported);
    assert_eq!(doc.entries[0].name, None);
}

#[test]
fn link_empty_catalog() {
    let mut doc = ItmDocument { entries: vec![] };
    let gmd = string_table(3);
    assert_eq!(doc.import_gmd(&gmd), ItmImportResult::NoEntriesImported);
}

#[test]
fn link_with_other_stride_and_offset() {
    let mut doc = ItmDocument { entries: vec![entry(0), entry(1), entry(2)] };
    let gmd = string_table(7);
    assert_eq!(doc.import_gmd_with(&gmd, 3, 1), ItmImportResult::PartialSuccess(2));
    let names: Vec<Option<String>> = doc.entries.iter().map(|e| e.name.clone()).collect();
    assert_eq!(names, vec![Some("text1".to_string()), Some("text4".to_string()), None]);
}

#[test]
fn link_keeps_other_fields() {
    let buf = itm_buffer(&[record(1)]);
    let mut doc = itm::parse(&buf).unwrap();
    let gmd = string_table(4);
    assert_eq!(doc.import_gmd(&gmd), ItmImportResult::Success);
    let e = &doc.entries[0];
    assert_eq!(e.name, Some("text2".to_string()));
    assert_eq!((e.id, e.rarity, e.carry_limit, e.sort_order), (1, 3, 10, 5));
    assert_eq!((e.sell_price, e.buy_price), (100, 200));
    assert_eq!(e.subtype, ItemSubType::Ammo);
}
