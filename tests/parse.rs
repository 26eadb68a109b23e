use ucd_tables::bidi::BidiData;
use ucd_tables::compress::{compress, CompressedRange};
use ucd_tables::emit::emit_range_table;
use ucd_tables::parse::parse_range_table;
use ucd_tables::table::{PropertyTable, UnicodeDataEntry};

fn triples(rs: &[CompressedRange]) -> Vec<(u32, u32, String)> {
    rs.iter().map(|r| (r.start as u32, r.end as u32, r.value.clone())).collect()
}

#[test]
fn parse_reads_back_emitted_ranges() {
    let mut t = PropertyTable::new();
    for (cp, v) in [(0x0u32, "BN"), (0x1, "BN"), (0x41, "L"), (0xD7FF, "L"), (0xE000, "L"), (0x10FFFF, "X")] {
        t.insert(char::from_u32(cp).unwrap(), v).unwrap();
    }
    let ranges = compress(&t);
    let text = emit_range_table("# header line", &ranges);
    let back = parse_range_table(&text).unwrap();
    assert_eq!(triples(&back), triples(&ranges));
}

#[test]
fn parse_reads_back_bidi_table() {
    let data = vec![UnicodeDataEntry {
        character: '\u{0600}',
        general_category: "Cf".to_string(),
        bidi_class: "AN".to_string(),
    }];
    let b = BidiData::from_entries(&data).unwrap();
    let back = parse_range_table(&b.emit()).unwrap();
    assert_eq!(triples(&back), triples(&compress(&b.table)));
    assert_eq!(back.len(), 14);
}

#[test]
fn parse_exact_values() {
    let back = parse_range_table("h\n0x600..=0x7BF => AL\n0x10800..=0x10FFF => R\n").unwrap();
    assert_eq!(
        triples(&back),
        vec![(0x600, 0x7BF, "AL".to_string()), (0x10800, 0x10FFF, "R".to_string())]
    );
}

#[test]
fn parse_header_only() {
    assert_eq!(parse_range_table("just a header\n").unwrap().len(), 0);
}

#[test]
fn parse_rejects_malformed_text() {
    assert!(parse_range_table("no line break").is_none());
    assert!(parse_range_table("h\n0x600..=0x7BF AL\n").is_none());
    assert!(parse_range_table("h\n0x600..=0x7BF => AL").is_none());
    assert!(parse_range_table("h\n0x600..=0x7BF => \n").is_none());
    assert!(parse_range_table("h\n0xD800..=0xD800 => Cs\n").is_none());
    assert!(parse_range_table("h\n0x110000..=0x110000 => X\n").is_none());
    assert!(parse_range_table("h\n600..=7BF => AL\n").is_none());
}
