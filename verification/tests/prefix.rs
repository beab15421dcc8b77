use network_inventory::mac::{format_mac, mac48};
use network_inventory::prefix::parse_prefix;

#[test]
fn parse_ma_l() {
    let (key, prefix, bits) = parse_prefix("00:00:0C").unwrap();
    assert_eq!(key, [0x00, 0x00, 0x0C]);
    assert_eq!(bits, 24);
    assert_eq!(prefix >> 24, 0x00000C);
}

#[test]
fn parse_ma_m_with_mask() {
    let (key, _prefix, bits) = parse_prefix("8C:1F:64:00:00:00/28").unwrap();
    assert_eq!(key, [0x8C, 0x1F, 0x64]);
    assert_eq!(bits, 28);
}

#[test]
fn parse_ma_s_exact() {
    assert_eq!(
        parse_prefix("70:B3:D5:12:30/36"),
        Some(([0x70, 0xB3, 0xD5], 0x70B3_D512_3000, 36))
    );
}

#[test]
fn missing_bytes_are_zero() {
    assert_eq!(parse_prefix("AA:BB:CC"), Some(([0xAA, 0xBB, 0xCC], 0xAABB_CC00_0000, 24)));
    assert_eq!(parse_prefix("AA:BB:CC:DD"), Some(([0xAA, 0xBB, 0xCC], 0xAABB_CCDD_0000, 32)));
    assert_eq!(
        parse_prefix("AA:BB:CC:DD:EE:FF"),
        Some(([0xAA, 0xBB, 0xCC], 0xAABB_CCDD_EEFF, 48))
    );
    assert_eq!(parse_prefix("AA:BB:CC/28"), Some(([0xAA, 0xBB, 0xCC], 0xAABB_CC00_0000, 28)));
}

#[test]
fn hyphens_separate_too() {
    assert_eq!(parse_prefix("aa-bb:cc-dd/28"), parse_prefix("aa:bb:cc:dd/28"));
    assert_eq!(parse_prefix("aa-bb-cc"), Some(([0xAA, 0xBB, 0xCC], 0xAABB_CC00_0000, 24)));
}

#[test]
fn further_fields_are_ignored() {
    let six = parse_prefix("1:2:3:4:5:6");
    assert_eq!(six, Some(([1, 2, 3], 0x0102_0304_0506, 48)));
    assert_eq!(parse_prefix("1:2:3:4:5:6:7"), six);
    assert_eq!(parse_prefix("1:2:3:4:5:6:no number:"), six);
    assert_eq!(parse_prefix("1:2:3:4:5:6:"), six);
}

#[test]
fn fields_may_have_blanks_signs_and_zeros() {
    let plain = parse_prefix("0A:0B:0C/28");
    assert_eq!(parse_prefix(" A:\tB :\u{3000}C\u{A0}/ 28\n"), plain);
    assert_eq!(parse_prefix("+a:+0b:000000c/+0028"), plain);
}

#[test]
fn only_the_first_slash_divides() {
    assert_eq!(parse_prefix("AA:BB:CC/28/30"), None);
    assert_eq!(parse_prefix("AA:BB:CC/"), None);
    assert_eq!(parse_prefix("/28"), None);
}

#[test]
fn too_few_or_bad_bytes() {
    assert_eq!(parse_prefix(""), None);
    assert_eq!(parse_prefix("AA"), None);
    assert_eq!(parse_prefix("AA:BB"), None);
    assert_eq!(parse_prefix("AA:BB:"), None);
    assert_eq!(parse_prefix("AA:BB:GG"), None);
    assert_eq!(parse_prefix("AA:BB:100"), None);
    assert_eq!(parse_prefix("AA:BB:0x1"), None);
    assert_eq!(parse_prefix("AA:BB:+"), None);
    assert_eq!(parse_prefix("AA:BB:++1"), None);
    assert_eq!(parse_prefix("AA:BB:C C"), None);
    assert_eq!(parse_prefix("AA:BB:CC:"), None);
    assert_eq!(parse_prefix("AA:BB:\u{661}"), None);
    assert_eq!(parse_prefix("AA::BB:CC"), None);
    assert_eq!(parse_prefix("AABBCC"), None);
}

#[test]
fn mask_out_of_range() {
    assert_eq!(parse_prefix("AA:BB:CC/0"), None);
    assert_eq!(parse_prefix("AA:BB:CC/49"), None);
    assert_eq!(parse_prefix("AA:BB:CC/4294967295"), None);
    assert_eq!(parse_prefix("AA:BB:CC/4294967296"), None);
    assert_eq!(parse_prefix("AA:BB:CC/-1"), None);
    assert_eq!(parse_prefix("AA:BB:CC/2a"), None);
    assert_eq!(parse_prefix("AA:BB:CC/1"), None);
    assert_eq!(parse_prefix("AA:BB:CC/8"), None);
    assert_eq!(parse_prefix("AA:BB:CC:DD:EE:FF/23"), None);
    assert_eq!(parse_prefix("AA:BB:CC/24").unwrap().2, 24);
    assert_eq!(parse_prefix("AA:BB:CC/48").unwrap().2, 48);
}

#[test]
fn bits_below_the_mask_are_cleared() {
    let key = [0xAA, 0xBB, 0xCC];
    assert_eq!(parse_prefix("AA:BB:CC:DD:EE:FF/24"), Some((key, 0xAABB_CC00_0000, 24)));
    assert_eq!(parse_prefix("AA:BB:CC:DD:EE:FF/28"), Some((key, 0xAABB_CCD0_0000, 28)));
    assert_eq!(parse_prefix("AA:BB:CC:DD:EE:FF/36"), Some((key, 0xAABB_CCDD_E000, 36)));
    assert_eq!(parse_prefix("AA:BB:CC:DD:EE:FF/47"), Some((key, 0xAABB_CCDD_EEFE, 47)));
    assert_eq!(parse_prefix("AA:BB:CC:DD:EE:FF/48"), Some((key, 0xAABB_CCDD_EEFF, 48)));
}

#[test]
fn formatted_mac_reads_back() {
    for mac in [[0x00, 0x1b, 0x44, 0x11, 0x3a, 0xb7], [0xff; 6], [0; 6]] {
        assert_eq!(
            parse_prefix(&format_mac(&mac)),
            Some(([mac[0], mac[1], mac[2]], mac48(&mac), 48))
        );
    }
}

/// A second opinion, from the parsers of the standard library.
fn by_standard_library(s: &str) -> Option<([u8; 3], u64, u32)> {
    let (address, mask) = match s.split_once('/') {
        Some((a, m)) => (a, Some(m)),
        None => (s, None),
    };
    let mut octets = Vec::new();
    for field in address.split([':', '-']).take(6) {
        octets.push(u8::from_str_radix(field.trim(), 16).ok()?);
    }
    if octets.len() < 3 {
        return None;
    }
    let bits = match mask {
        Some(m) => m.trim().parse::<u32>().ok()?,
        None => octets.len() as u32 * 8,
    };
    if bits < 24 || bits > 48 {
        return None;
    }
    let mut prefix = 0u64;
    for i in 0..6 {
        prefix = prefix * 256 + u64::from(*octets.get(i).unwrap_or(&0));
    }
    let mask = 0xFFFF_FFFF_FFFFu64 - ((1u64 << (48 - bits)) - 1);
    Some(([octets[0], octets[1], octets[2]], prefix & mask, bits))
}

#[test]
fn agrees_with_the_standard_library() {
    let pieces = [
        "", "A", "a0", "FF", "0ff", "100", "+", "+7", "-", ":", "/", " ", "g", "9", "28", "49",
        "\u{2003}", "é", "\u{180e}", "\u{200b}",
    ];
    for a in pieces {
        for b in pieces {
            for c in pieces {
                for (d, e) in [("", ""), (":", "5"), ("/", "36"), ("-", "5/"), ("/", "+48 ")] {
                    let s = format!("{a}:{b}-{c}{d}{e}");
                    assert_eq!(parse_prefix(&s), by_standard_library(&s), "{s:?}");
                    let s = format!("1:2:{a}{b}{c}{d}{e}");
                    assert_eq!(parse_prefix(&s), by_standard_library(&s), "{s:?}");
                    let s = format!("1:2:3/{a}{b}{c}");
                    assert_eq!(parse_prefix(&s), by_standard_library(&s), "{s:?}");
                }
            }
        }
    }
}
