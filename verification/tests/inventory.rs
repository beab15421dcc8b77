use network_inventory::inventory::{handle_packet, merge_inventory, DeviceStats, Inventory};
use rustc_hash::FxHashMap;

const A: [u8; 6] = [0x00, 0x11, 0x22, 0x33, 0x44, 0x55];
const B: [u8; 6] = [0xB8, 0x27, 0xEB, 0x22, 0x22, 0x22];
const GROUP: [u8; 6] = [0x01, 0x00, 0x5E, 0x00, 0x00, 0x01];

fn frame(dst: [u8; 6], src: [u8; 6]) -> Vec<u8> {
    let mut frame = vec![0u8; 60];
    frame[0..6].copy_from_slice(&dst);
    frame[6..12].copy_from_slice(&src);
    frame
}

fn count(frames: &[Vec<u8>], include_multicast: bool) -> Inventory {
    let mut inv: Inventory = FxHashMap::default();
    for f in frames {
        handle_packet(f, &mut inv, include_multicast);
    }
    inv
}

fn stats(src_count: u64, dst_count: u64) -> DeviceStats {
    DeviceStats { src_count, dst_count }
}

#[test]
fn handle_skips_multicast_src() {
    let mut inv: Inventory = FxHashMap::default();
    // src multicast, dst unicast
    let mut frame = vec![0u8; 14];
    frame[0..6].copy_from_slice(&[0x00, 0x11, 0x22, 0x33, 0x44, 0x55]); // dst unicast
    frame[6..12].copy_from_slice(&[0x01, 0x00, 0x5E, 0x00, 0x00, 0x01]); // src multicast
    handle_packet(&frame, &mut inv, false);
    assert!(inv.contains_key(&[0x00, 0x11, 0x22, 0x33, 0x44, 0x55]));
    assert!(!inv.contains_key(&[0x01, 0x00, 0x5E, 0x00, 0x00, 0x01]));
}

#[test]
fn counts_both_ends() {
    let inv = count(&[frame(A, B), frame(A, B), frame(B, A)], false);
    assert_eq!(inv.len(), 2);
    assert_eq!(inv[&A], stats(1, 2));
    assert_eq!(inv[&B], stats(2, 1));
}

#[test]
fn same_mac_at_both_ends() {
    let inv = count(&[frame(A, A)], false);
    assert_eq!(inv.len(), 1);
    assert_eq!(inv[&A], stats(1, 1));
}

#[test]
fn groups_only_on_request() {
    let frames = [frame(GROUP, A), frame([0xFF; 6], A), frame(A, GROUP)];
    let without = count(&frames, false);
    assert_eq!(without.len(), 1);
    assert_eq!(without[&A], stats(2, 1));
    let with = count(&frames, true);
    assert_eq!(with.len(), 3);
    assert_eq!(with[&A], stats(2, 1));
    assert_eq!(with[&GROUP], stats(1, 1));
    assert_eq!(with[&[0xFF; 6]], stats(0, 1));
}

#[test]
fn short_frames_are_ignored() {
    for len in 0..14 {
        let inv = count(&[frame(A, B)[..len].to_vec()], true);
        assert!(inv.is_empty());
    }
    assert_eq!(count(&[frame(A, B)[..14].to_vec()], true).len(), 2);
}

#[test]
fn payload_and_tags_are_ignored() {
    let plain = frame(A, B);
    let mut tagged = frame(A, B);
    tagged[12] = 0x81;
    tagged[16] = 0x42;
    tagged.extend_from_slice(&[7; 1400]);
    let cut = plain[..14].to_vec();
    assert_eq!(count(&[plain.clone()], false), count(&[tagged], false));
    assert_eq!(count(&[plain], false), count(&[cut], false));
}

#[test]
fn order_is_ignored() {
    let (x, y, z) = (frame(A, B), frame(GROUP, A), frame(B, A));
    let one = count(&[x.clone(), y.clone(), z.clone()], true);
    assert_eq!(one, count(&[z, x, y], true));
}

#[test]
fn merged_parts_are_the_whole() {
    let frames = [frame(A, B), frame(B, A), frame(GROUP, A), frame(A, B), frame(B, B)];
    for split in 0..=frames.len() {
        let mut merged = count(&frames[..split], true);
        merge_inventory(&mut merged, &count(&frames[split..], true));
        assert_eq!(merged, count(&frames, true));
    }
}

#[test]
fn merge_exact() {
    let mut a: Inventory = FxHashMap::default();
    a.insert(A, stats(1, 2));
    let mut b: Inventory = FxHashMap::default();
    b.insert(A, stats(10, 20));
    b.insert(B, stats(5, 0));
    merge_inventory(&mut a, &b);
    assert_eq!(a.len(), 2);
    assert_eq!(a[&A], stats(11, 22));
    assert_eq!(a[&B], stats(5, 0));
}

#[test]
fn counters_go_up_to_the_end() {
    let mut inv: Inventory = FxHashMap::default();
    inv.insert(B, stats(u64::MAX - 1, 0));
    handle_packet(&frame(A, B), &mut inv, false);
    assert_eq!(inv[&B], stats(u64::MAX, 0));
}

#[test]
fn new_counters_are_zero() {
    assert_eq!(DeviceStats::default(), stats(0, 0));
}
