use network_inventory::inventory::{DeviceStats, Inventory};
use network_inventory::oui::{OuiDb, RawManufacturer};
use network_inventory::report::{build_rows, render_table, DeviceRow};

fn database() -> OuiDb {
    let records = [
        ("00:00:0C", "Cisco Systems, Inc"),
        ("B8:27:EB", "Raspberry Pi Foundation"),
        ("28:63:36", "Siemens AG"),
    ];
    OuiDb::load(
        records
            .iter()
            .map(|(p, v)| RawManufacturer { mac_prefix: p.to_string(), vendor_name: v.to_string() })
            .collect(),
    )
    .0
}

fn inventory(devices: &[([u8; 6], u64, u64)]) -> Inventory {
    devices
        .iter()
        .map(|&(mac, src_count, dst_count)| (mac, DeviceStats { src_count, dst_count }))
        .collect()
}

const CISCO: [u8; 6] = [0x00, 0x00, 0x0C, 0x11, 0x11, 0x11];
const RASPBERRY: [u8; 6] = [0xB8, 0x27, 0xEB, 0x22, 0x22, 0x22];
const SIEMENS: [u8; 6] = [0x28, 0x63, 0x36, 0x33, 0x33, 0x33];

#[test]
fn rows_exact() {
    let rows = build_rows(&inventory(&[(CISCO, 3, 1), ([0xFF; 6], 0, 9)]), &database());
    assert_eq!(
        rows,
        vec![
            DeviceRow {
                mac: "ff:ff:ff:ff:ff:ff".to_string(),
                vendor: "Unknown".to_string(),
                src_count: 0,
                dst_count: 9,
                total: 9,
                multicast: true,
                locally_administered: true,
            },
            DeviceRow {
                mac: "00:00:0c:11:11:11".to_string(),
                vendor: "Cisco Systems, Inc".to_string(),
                src_count: 3,
                dst_count: 1,
                total: 4,
                multicast: false,
                locally_administered: false,
            },
        ]
    );
}

#[test]
fn ties_by_mac() {
    let devices: Vec<([u8; 6], u64, u64)> =
        [0x9A, 0x0F, 0xF0, 0x10, 0xA9].iter().map(|&b| ([0, b, 0, 0, 0, 0], 1, 1)).collect();
    let rows = build_rows(&inventory(&devices), &database());
    let macs: Vec<&str> = rows.iter().map(|r| &r.mac[3..5]).collect();
    assert_eq!(macs, vec!["0f", "10", "9a", "a9", "f0"]);
}

#[test]
fn many_rows_are_sorted() {
    let mut devices = Vec::new();
    let mut seed: u64 = 12345;
    for _ in 0..5000 {
        seed = seed.wrapping_mul(6364136223846793005).wrapping_add(1442695040888963407);
        let b = seed.to_be_bytes();
        devices.push(([b[0], b[1], b[2], b[3], b[4], b[5]], seed % 7, seed / 11 % 5));
    }
    let inventory = inventory(&devices);
    let rows = build_rows(&inventory, &database());
    assert_eq!(rows.len(), inventory.len());
    let mut expected: Vec<(u64, String)> = rows.iter().map(|r| (r.total, r.mac.clone())).collect();
    expected.sort_by(|a, b| b.0.cmp(&a.0).then_with(|| a.1.cmp(&b.1)));
    let actual: Vec<(u64, String)> = rows.iter().map(|r| (r.total, r.mac.clone())).collect();
    assert_eq!(actual, expected);
    for row in &rows {
        assert_eq!(row.total, row.src_count + row.dst_count);
    }
}

#[test]
fn one_row_per_device() {
    let rows = build_rows(&inventory(&[(CISCO, 1, 0), (RASPBERRY, 1, 0), (SIEMENS, 1, 0)]), &database());
    let mut macs: Vec<String> = rows.iter().map(|r| r.mac.clone()).collect();
    macs.dedup();
    assert_eq!(macs.len(), 3);
}

#[test]
fn report_does_not_depend_on_insertion_order() {
    let a = build_rows(&inventory(&[(CISCO, 3, 1), (RASPBERRY, 1, 4), (SIEMENS, 2, 2)]), &database());
    let b = build_rows(&inventory(&[(SIEMENS, 2, 2), (RASPBERRY, 1, 4), (CISCO, 3, 1)]), &database());
    assert_eq!(a, b);
}

#[test]
fn no_devices() {
    let rows = build_rows(&Inventory::default(), &database());
    assert!(rows.is_empty());
    assert_eq!(
        render_table(&rows),
        "\n----- Inventario de Dispositivos (0 únicos) -----\n\
         MAC                Vendor                              Src    Dst  Total\n"
    );
}

#[test]
fn table_of_three_devices() {
    let inventory = inventory(&[(CISCO, 3, 1), (SIEMENS, 2, 0), (RASPBERRY, 1, 4)]);
    let table = render_table(&build_rows(&inventory, &database()));
    assert_eq!(
        table,
        "\n----- Inventario de Dispositivos (3 únicos) -----\n\
         MAC                Vendor                              Src    Dst  Total\n\
         b8:27:eb:22:22:22  Raspberry Pi Foundation               1      4      5\n\
         00:00:0c:11:11:11  Cisco Systems, Inc                    3      1      4\n\
         28:63:36:33:33:33  Siemens AG                            2      0      2\n"
    );
}

#[test]
fn long_names_are_cut_and_long_numbers_are_not() {
    let row = DeviceRow {
        mac: "00:00:0c:11:11:11".to_string(),
        vendor: "ñ".repeat(40),
        src_count: 12_345_678,
        dst_count: 0,
        total: 12_345_678,
        multicast: false,
        locally_administered: false,
    };
    let line = format!("00:00:0c:11:11:11  {} 12345678      0 12345678", "ñ".repeat(32));
    assert_eq!(render_table(&[row]).lines().nth(3).unwrap(), line);
}

#[test]
fn totals_up_to_the_end() {
    let rows = build_rows(&inventory(&[(CISCO, u64::MAX - 1, 1)]), &database());
    assert_eq!(rows[0].total, u64::MAX);
}
