use network_inventory::mac::{
    clear_low_bits, format_mac, is_locally_administered, is_multicast, mac48,
};

#[test]
fn multicast_detection() {
    assert!(is_multicast(&[0xFF, 0xFF, 0xFF, 0xFF, 0xFF, 0xFF])); // broadcast
    assert!(is_multicast(&[0x01, 0x00, 0x5E, 0x00, 0x00, 0x01])); // IPv4 multicast
    assert!(!is_multicast(&[0x00, 0x11, 0x22, 0x33, 0x44, 0x55])); // unicast
}

#[test]
fn local_bit() {
    assert!(is_locally_administered(&[0x02, 0, 0, 0, 0, 0]));
    assert!(is_locally_administered(&[0xDA, 0xA1, 0x19, 0, 0, 1]));
    assert!(is_locally_administered(&[0xFF; 6]));
    assert!(!is_locally_administered(&[0x01, 0, 0x5E, 0, 0, 1]));
    assert!(!is_locally_administered(&[0xB8, 0x27, 0xEB, 2, 2, 2]));
}

#[test]
fn all_first_bytes() {
    for b in 0..=255u8 {
        let mac = [b, 0xFF, 0xFF, 0xFF, 0xFF, 0xFF];
        assert_eq!(is_multicast(&mac), b & 1 == 1);
        assert_eq!(is_locally_administered(&mac), b & 2 == 2);
    }
}

#[test]
fn mac48_exact() {
    assert_eq!(mac48(&[0x8C, 0x1F, 0x64, 0x12, 0x34, 0x56]), 0x8C1F_6412_3456);
    assert_eq!(mac48(&[0; 6]), 0);
    assert_eq!(mac48(&[0xFF; 6]), 0xFFFF_FFFF_FFFF);
    assert_eq!(mac48(&[0, 0, 0, 0, 1, 0]), 256);
}

#[test]
fn mac48_orders_like_bytes() {
    let macs = [
        [0, 0, 0, 0, 0, 0xFF],
        [0, 0, 0, 0, 1, 0],
        [0, 0, 1, 0, 0, 0],
        [0x7F, 0xFF, 0xFF, 0xFF, 0xFF, 0xFF],
        [0x80, 0, 0, 0, 0, 0],
    ];
    for pair in macs.windows(2) {
        assert!(pair[0] < pair[1]);
        assert!(mac48(&pair[0]) < mac48(&pair[1]));
        assert!(format_mac(&pair[0]) < format_mac(&pair[1]));
    }
}

#[test]
fn mac48_upper_half() {
    assert_eq!(mac48(&[0x8C, 0x1F, 0x64, 0x12, 0x34, 0x56]) >> 24, 0x8C1F64);
}

#[test]
fn low_bits_are_cleared() {
    let value = 0x8C1F_6412_3456;
    assert_eq!(clear_low_bits(value, 48), value);
    assert_eq!(clear_low_bits(value, 36), 0x8C1F_6412_3000);
    assert_eq!(clear_low_bits(value, 24), 0x8C1F_6400_0000);
    assert_eq!(clear_low_bits(value, 0), 0);
    for bits in 0..=48 {
        assert_eq!(clear_low_bits(value, bits) >> (48 - bits), value >> (48 - bits));
    }
}

#[test]
fn format_mac_exact() {
    assert_eq!(format_mac(&[0x00, 0x00, 0x0C, 0x11, 0x11, 0x11]), "00:00:0c:11:11:11");
    assert_eq!(format_mac(&[0xB8, 0x27, 0xEB, 0xA9, 0x0F, 0xF0]), "b8:27:eb:a9:0f:f0");
}

#[test]
fn format_mac_is_injective() {
    let mut texts: Vec<String> = (0..=255u8).map(|b| format_mac(&[b, 0, 0, 0, 0, b])).collect();
    texts.sort();
    texts.dedup();
    assert_eq!(texts.len(), 256);
}
