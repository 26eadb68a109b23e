use ucd_tables::compress::{compress, CompressedRange};
use ucd_tables::emit::emit_range_table;
use ucd_tables::table::PropertyTable;

fn table(items: &[(u32, &str)]) -> PropertyTable {
    let mut t = PropertyTable::new();
    for &(cp, v) in items {
        t.insert(char::from_u32(cp).unwrap(), v).unwrap();
    }
    t
}

fn triples(rs: &[CompressedRange]) -> Vec<(u32, u32, String)> {
    rs.iter().map(|r| (r.start as u32, r.end as u32, r.value.clone())).collect()
}

#[test]
fn empty_table_has_no_ranges() {
    assert!(compress(&PropertyTable::new()).is_empty());
}

#[test]
fn merges_adjacent_equal_labels() {
    let t = table(&[(0x41, "Lu"), (0x42, "Lu"), (0x43, "Lu"), (0x44, "Ll"), (0x45, "Ll")]);
    assert_eq!(
        triples(&compress(&t)),
        vec![(0x41, 0x43, "Lu".to_string()), (0x44, 0x45, "Ll".to_string())]
    );
}

#[test]
fn gap_splits_equal_labels() {
    let t = table(&[(0x41, "Lu"), (0x43, "Lu")]);
    assert_eq!(
        triples(&compress(&t)),
        vec![(0x41, 0x41, "Lu".to_string()), (0x43, 0x43, "Lu".to_string())]
    );
}

#[test]
fn surrogate_gap_splits_ranges() {
    let t = table(&[(0xD7FF, "Cn"), (0xE000, "Cn")]);
    assert_eq!(compress(&t).len(), 2);
}

#[test]
fn compress_of_expansion_is_same() {
    let t = table(&[(1, "a"), (2, "a"), (3, "b"), (7, "b"), (8, "b"), (9, "a")]);
    let first = compress(&t);
    let mut again = PropertyTable::new();
    for r in &first {
        for cp in r.start as u32..=r.end as u32 {
            again.insert(char::from_u32(cp).unwrap(), &r.value).unwrap();
        }
    }
    assert_eq!(triples(&compress(&again)), triples(&first));
    assert_eq!(again.len(), t.len());
}

#[test]
fn ranges_partition_keys() {
    let keys = [1u32, 2, 3, 10, 11, 20, 0x10FFFF];
    let labels = ["x", "x", "y", "y", "y", "x", "x"];
    let items: Vec<(u32, &str)> = keys.iter().cloned().zip(labels.iter().cloned()).collect();
    let rs = triples(&compress(&table(&items)));
    for w in rs.windows(2) {
        assert!(w[0].1 < w[1].0);
    }
    let mut covered = Vec::new();
    for (s, e, _) in &rs {
        covered.extend(*s..=*e);
    }
    assert_eq!(covered, keys.to_vec());
}

#[test]
fn emits_one_line_per_range() {
    let t = table(&[(0x600, "AL"), (0x601, "AL"), (0x7C0, "R"), (0x1EE00, "AL")]);
    let text = emit_range_table("# header", &compress(&t));
    assert_eq!(text, "# header\n0x600..=0x601 => AL\n0x7C0..=0x7C0 => R\n0x1EE00..=0x1EE00 => AL\n");
}

#[test]
fn emits_small_code_points() {
    let t = table(&[(0x0, "BN"), (0x8, "BN"), (0xF, "S"), (0x10, "S")]);
    let text = emit_range_table("h", &compress(&t));
    assert_eq!(text, "h\n0x0..=0x0 => BN\n0x8..=0x8 => BN\n0xF..=0x10 => S\n");
}
