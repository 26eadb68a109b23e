use ucd_tables::error::UcdError;
use ucd_tables::table::{DefaultRange, PropertyField, PropertyTable, UnicodeDataEntry};

fn entry(c: char, gc: &str, bc: &str) -> UnicodeDataEntry {
    UnicodeDataEntry { character: c, general_category: gc.to_string(), bidi_class: bc.to_string() }
}

#[test]
fn insert_rejects_empty_label() {
    let mut t = PropertyTable::new();
    assert_eq!(t.insert('a', ""), Err(UcdError::MalformedPropertyValue));
    assert_eq!(t.len(), 0);
}

#[test]
fn insert_keeps_keys_ordered() {
    let mut t = PropertyTable::new();
    t.insert('c', "Ll").unwrap();
    t.insert('a', "Ll").unwrap();
    t.insert('B', "Lu").unwrap();
    assert_eq!(t.len(), 3);
    assert_eq!(t.key_at(0), 'B');
    assert_eq!(t.key_at(1), 'a');
    assert_eq!(t.key_at(2), 'c');
}

#[test]
fn later_duplicate_overwrites() {
    let data = vec![entry('a', "Ll", "L"), entry('a', "Lu", "R")];
    let t = PropertyTable::from_records(&data, PropertyField::GeneralCategory).unwrap();
    assert_eq!(t.len(), 1);
    assert_eq!(t.get('a'), Some("Lu"));
}

#[test]
fn from_records_selects_field() {
    let data = vec![entry('0', "Nd", "EN"), entry('A', "Lu", "L")];
    let g = PropertyTable::from_records(&data, PropertyField::GeneralCategory).unwrap();
    let b = PropertyTable::from_records(&data, PropertyField::BidiClass).unwrap();
    assert_eq!(g.get('0'), Some("Nd"));
    assert_eq!(b.get('0'), Some("EN"));
    assert_eq!(b.get('A'), Some("L"));
    assert_eq!(b.get('B'), None);
}

#[test]
fn from_records_rejects_empty_label() {
    let data = vec![entry('0', "Nd", "EN"), entry('A', "", "L")];
    assert!(matches!(
        PropertyTable::from_records(&data, PropertyField::GeneralCategory),
        Err(UcdError::MalformedPropertyValue)
    ));
    assert!(PropertyTable::from_records(&data, PropertyField::BidiClass).is_ok());
}

#[test]
fn explicit_record_beats_default_range() {
    let data = vec![entry('\u{0600}', "Cf", "AN")];
    let mut t = PropertyTable::from_records(&data, PropertyField::BidiClass).unwrap();
    let d = DefaultRange { start: 0x0600, end: 0x07BF, value: "AL".to_string() };
    t.apply_default_range(&d).unwrap();
    assert_eq!(t.get('\u{0600}'), Some("AN"));
    assert_eq!(t.get('\u{0601}'), Some("AL"));
    assert_eq!(t.get('\u{07BF}'), Some("AL"));
    assert_eq!(t.get('\u{07C0}'), None);
    assert_eq!(t.len(), 0x07BF - 0x0600 + 1);
}

#[test]
fn earlier_default_is_not_overridden() {
    let mut t = PropertyTable::new();
    let ds = vec![
        DefaultRange { start: 0x10, end: 0x12, value: "R".to_string() },
        DefaultRange { start: 0x11, end: 0x13, value: "AL".to_string() },
    ];
    t.apply_defaults(&ds).unwrap();
    assert_eq!(t.get('\u{10}'), Some("R"));
    assert_eq!(t.get('\u{12}'), Some("R"));
    assert_eq!(t.get('\u{13}'), Some("AL"));
    assert_eq!(t.len(), 4);
}

#[test]
fn default_range_skips_surrogates() {
    let mut t = PropertyTable::new();
    let d = DefaultRange { start: 0xD7FE, end: 0xE001, value: "L".to_string() };
    t.apply_default_range(&d).unwrap();
    assert_eq!(t.len(), 4);
    assert_eq!(t.key_at(0), '\u{D7FE}');
    assert_eq!(t.key_at(1), '\u{D7FF}');
    assert_eq!(t.key_at(2), '\u{E000}');
    assert_eq!(t.key_at(3), '\u{E001}');
}

#[test]
fn default_range_beyond_codespace() {
    let mut t = PropertyTable::new();
    let d = DefaultRange { start: 0x10FFFE, end: 0x110005, value: "L".to_string() };
    t.apply_default_range(&d).unwrap();
    assert_eq!(t.len(), 2);
    assert_eq!(t.get('\u{10FFFF}'), Some("L"));
}

#[test]
fn default_range_rejects_empty_label() {
    let mut t = PropertyTable::new();
    t.insert('a', "L").unwrap();
    let ds = vec![
        DefaultRange { start: 0x10, end: 0x12, value: "R".to_string() },
        DefaultRange { start: 0x20, end: 0x22, value: String::new() },
    ];
    assert_eq!(t.apply_defaults(&ds), Err(UcdError::MalformedPropertyValue));
    assert_eq!(t.len(), 1);
}

#[test]
fn empty_default_range_adds_nothing() {
    let mut t = PropertyTable::new();
    let d = DefaultRange { start: 0x20, end: 0x1F, value: "L".to_string() };
    t.apply_default_range(&d).unwrap();
    assert_eq!(t.len(), 0);
}
