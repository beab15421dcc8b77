use network_inventory::oui::{OuiDb, OuiEntry, RawManufacturer};
use network_inventory::prefix::parse_prefix;
use rustc_hash::FxHashMap;

fn record(prefix: &str, vendor: &str) -> RawManufacturer {
    RawManufacturer { mac_prefix: prefix.to_string(), vendor_name: vendor.to_string() }
}

fn database(records: &[(&str, &str)]) -> (OuiDb, u64) {
    OuiDb::load(records.iter().map(|(p, v)| record(p, v)).collect())
}

#[test]
fn longest_prefix_match() {
    let mut map: FxHashMap<[u8; 3], Vec<OuiEntry>> = FxHashMap::default();
    let (k1, p1, b1) = parse_prefix("8C:1F:64").unwrap(); // MA-L genérico
    let (k2, p2, b2) = parse_prefix("8C:1F:64:10:00:00/28").unwrap(); // MA-M específico
    map.entry(k1).or_default().push(OuiEntry { prefix: p1, bits: b1, vendor_idx: 0 });
    map.entry(k2).or_default().push(OuiEntry { prefix: p2, bits: b2, vendor_idx: 1 });
    for v in map.values_mut() {
        v.sort_by(|a, b| b.bits.cmp(&a.bits));
    }
    let db = OuiDb { map, vendors: vec!["Generic".into(), "Specific".into()] };
    // MAC dentro del bloque MA-M -> debe ganar el prefijo más largo.
    assert_eq!(db.lookup(&[0x8C, 0x1F, 0x64, 0x12, 0x34, 0x56]), Some("Specific"));
    // MAC fuera del bloque MA-M pero dentro del MA-L -> genérico.
    assert_eq!(db.lookup(&[0x8C, 0x1F, 0x64, 0xF0, 0x00, 0x01]), Some("Generic"));
}

#[test]
fn longest_prefix_wins_in_any_file_order() {
    let large = ("8C:1F:64", "Large");
    let medium = ("8C:1F:64:10:00:00/28", "Medium");
    let small = ("8C:1F:64:12:30:00/36", "Small");
    for order in [
        [large, medium, small],
        [large, small, medium],
        [medium, large, small],
        [medium, small, large],
        [small, large, medium],
        [small, medium, large],
    ] {
        let (db, skipped) = database(&order);
        assert_eq!(skipped, 0);
        assert_eq!(db.lookup(&[0x8C, 0x1F, 0x64, 0x12, 0x34, 0x56]), Some("Small"));
        assert_eq!(db.lookup(&[0x8C, 0x1F, 0x64, 0x12, 0x44, 0x56]), Some("Medium"));
        assert_eq!(db.lookup(&[0x8C, 0x1F, 0x64, 0x22, 0x34, 0x56]), Some("Large"));
        assert_eq!(db.lookup(&[0x8C, 0x1F, 0x65, 0x12, 0x34, 0x56]), None);
    }
}

#[test]
fn first_record_wins_among_equals() {
    let (db, _) = database(&[("AA:BB:CC", "first"), ("AA:BB:CC/24", "second")]);
    assert_eq!(db.lookup(&[0xAA, 0xBB, 0xCC, 0, 0, 0]), Some("first"));
}

#[test]
fn unreadable_records_are_skipped_and_counted() {
    let (db, skipped) = database(&[
        ("no prefix", "a"),
        ("00:00:0C", "Cisco Systems, Inc"),
        ("AA:BB", "b"),
        ("AA:BB:CC/49", "c"),
        ("B8:27:EB", "Raspberry Pi Foundation"),
    ]);
    assert_eq!(skipped, 3);
    assert_eq!(db.vendors, vec!["Cisco Systems, Inc", "Raspberry Pi Foundation"]);
    assert_eq!(db.lookup(&[0x00, 0x00, 0x0C, 0x11, 0x11, 0x11]), Some("Cisco Systems, Inc"));
    assert_eq!(db.lookup(&[0xB8, 0x27, 0xEB, 0x22, 0x22, 0x22]), Some("Raspberry Pi Foundation"));
    assert_eq!(db.lookup(&[0xAA, 0xBB, 0xCC, 0, 0, 0]), None);
}

#[test]
fn groups_are_ordered() {
    let (db, _) = database(&[
        ("AA:BB:CC", "v0"),
        ("AA:BB:CC:10/28", "v1"),
        ("AA:BB:CD", "v2"),
        ("AA:BB:CC:20/28", "v3"),
        ("AA:BB:CC:10:10/36", "v4"),
    ]);
    assert_eq!(db.map.len(), 2);
    let group: Vec<(u32, u32)> =
        db.map[&[0xAA, 0xBB, 0xCC]].iter().map(|e| (e.bits, e.vendor_idx)).collect();
    assert_eq!(group, vec![(36, 4), (28, 1), (28, 3), (24, 0)]);
    assert_eq!(
        db.map[&[0xAA, 0xBB, 0xCD]],
        vec![OuiEntry { prefix: 0xAABB_CD00_0000, bits: 24, vendor_idx: 2 }]
    );
}

#[test]
fn whole_addresses_match_exactly() {
    let (db, _) = database(&[("AA:BB:CC:DD:EE:FF", "one"), ("AA:BB:CC", "all")]);
    assert_eq!(db.lookup(&[0xAA, 0xBB, 0xCC, 0xDD, 0xEE, 0xFF]), Some("one"));
    assert_eq!(db.lookup(&[0xAA, 0xBB, 0xCC, 0xDD, 0xEE, 0xFE]), Some("all"));
}

#[test]
fn short_prefixes_are_skipped() {
    let (db, skipped) = database(&[("AA:BB:CC/8", "short"), ("AA:BB:CC/23", "short")]);
    assert_eq!(skipped, 2);
    assert_eq!(db.lookup(&[0xAA, 0xBB, 0xCC, 1, 2, 3]), None);
}

#[test]
fn stored_prefixes_occupy_their_bits_only() {
    let (db, _) = database(&[("AA:BB:CC:DD:EE:FF/24", "a"), ("AA:BB:CC:DD:EE:FF/28", "b")]);
    assert_eq!(
        db.map[&[0xAA, 0xBB, 0xCC]],
        vec![
            OuiEntry { prefix: 0xAABB_CCD0_0000, bits: 28, vendor_idx: 1 },
            OuiEntry { prefix: 0xAABB_CC00_0000, bits: 24, vendor_idx: 0 },
        ]
    );
    assert_eq!(db.lookup(&[0xAA, 0xBB, 0xCC, 0xD1, 0, 0]), Some("b"));
    assert_eq!(db.lookup(&[0xAA, 0xBB, 0xCC, 0x01, 0, 0]), Some("a"));
}

#[test]
fn one_more_record() {
    let file = [("AA:BB:CC", "old"), ("AA:BB:CC:10/28", "older")];
    let (inside, outside) = ([0xAA, 0xBB, 0xCC, 0x12, 3, 4], [0xAA, 0xBB, 0xCC, 0x92, 3, 4]);
    for (prefix, for_inside, for_outside) in [
        ("AA:BB:CC:12/32", "new", "old"),
        ("AA:BB:CC:10/28", "older", "old"),
        ("AA:BB:CC:90/28", "older", "new"),
        ("AA:BB:CC", "older", "old"),
        ("AA:BB:CD", "older", "old"),
        ("unreadable", "older", "old"),
    ] {
        let (db, _) = database(&[file[0], file[1], (prefix, "new")]);
        assert_eq!(db.lookup(&inside), Some(for_inside));
        assert_eq!(db.lookup(&outside), Some(for_outside));
    }
}

#[test]
fn empty_database() {
    let (db, skipped) = OuiDb::load(Vec::new());
    assert_eq!(skipped, 0);
    assert!(db.map.is_empty());
    assert_eq!(db.lookup(&[0; 6]), None);
}
