use ucd_tables::bidi::{bidi_default_ranges, BidiData};
use ucd_tables::category::CategoryData;
use ucd_tables::error::UcdError;
use ucd_tables::table::UnicodeDataEntry;

fn entry(c: char, gc: &str, bc: &str) -> UnicodeDataEntry {
    UnicodeDataEntry { character: c, general_category: gc.to_string(), bidi_class: bc.to_string() }
}

#[test]
fn bidi_defaults_fill_unassigned() {
    let data = vec![entry('\u{0600}', "Cf", "AN"), entry('A', "Lu", "L")];
    let b = BidiData::from_entries(&data).unwrap();
    assert_eq!(b.table.get('\u{0600}'), Some("AN"));
    assert_eq!(b.table.get('\u{0601}'), Some("AL"));
    assert_eq!(b.table.get('\u{05D0}'), Some("R"));
    assert_eq!(b.table.get('\u{20AC}'), Some("ET"));
    assert_eq!(b.table.get('\u{1EE00}'), Some("AL"));
    assert_eq!(b.table.get('A'), Some("L"));
    assert_eq!(b.table.get('B'), None);
}

#[test]
fn bidi_default_list() {
    let ds = bidi_default_ranges();
    assert_eq!(ds.len(), 13);
    assert_eq!((ds[0].start, ds[0].end, ds[0].value.as_str()), (0x0600, 0x07BF, "AL"));
    assert_eq!((ds[12].start, ds[12].end, ds[12].value.as_str()), (0x20A0, 0x20CF, "ET"));
}

#[test]
fn bidi_emit_text() {
    let data = vec![entry('\u{0600}', "Cf", "AN")];
    let text = BidiData::from_entries(&data).unwrap().emit();
    assert!(text.starts_with("# Bidi_Class\n0x590..=0x5FF => R\n0x600..=0x600 => AN\n0x601..=0x7BF => AL\n0x7C0..=0x89F => R\n0x8A0..=0x8FF => AL\n"));
    assert!(text.ends_with("0x1EE00..=0x1EEFF => AL\n0x1EF00..=0x1EFFF => R\n"));
}

#[test]
fn bidi_rejects_empty_class() {
    let data = vec![entry('a', "Ll", "")];
    assert!(matches!(BidiData::from_entries(&data), Err(UcdError::MalformedPropertyValue)));
}

#[test]
fn category_emit_text() {
    let data = vec![
        entry('0', "Nd", "EN"),
        entry('1', "Nd", "EN"),
        entry('2', "Nd", "EN"),
        entry('A', "Lu", "L"),
        entry('B', "Lu", "L"),
        entry('a', "Ll", "L"),
    ];
    let c = CategoryData::from_entries(&data).unwrap();
    assert_eq!(c.emit(), "# General_Category\n0x30..=0x32 => Nd\n0x41..=0x42 => Lu\n0x61..=0x61 => Ll\n");
}

#[test]
fn category_has_no_defaults() {
    let data = vec![entry('\u{0600}', "Cf", "AN")];
    let c = CategoryData::from_entries(&data).unwrap();
    assert_eq!(c.table.len(), 1);
    assert_eq!(c.table.get('\u{0601}'), None);
}

#[test]
fn category_rejects_empty_category() {
    let data = vec![entry('a', "", "L")];
    assert!(matches!(CategoryData::from_entries(&data), Err(UcdError::MalformedPropertyValue)));
}
