//! The inventory: which MACs were seen, and how often as source and as destination.

use crate::fxmap::{map_entries, map_get, map_insert};
use crate::mac::{is_multicast, multicast};
use rustc_hash::FxHashMap;
use vstd::prelude::*;

verus! {

/// How often a device was seen.
#[derive(Clone, Copy, Debug, PartialEq, Eq)]
pub struct DeviceStats {
    /// Frames that it sent.
    pub src_count: u64,
    /// Frames that were sent to it.
    pub dst_count: u64,
}

impl Default for DeviceStats {
    fn default() -> (r: Self)
        ensures
            r == no_sightings(),
    {
        DeviceStats { src_count: 0, dst_count: 0 }
    }
}

/// The devices that were seen, by MAC.
pub type Inventory = FxHashMap<[u8; 6], DeviceStats>;

/// The counters of a device that was not seen yet.
pub open spec fn no_sightings() -> DeviceStats {
    DeviceStats { src_count: 0, dst_count: 0 }
}

/// The counters of a MAC; zero where it was not seen.
pub open spec fn stats_of(inventory: Map<[u8; 6], DeviceStats>, mac: [u8; 6]) -> DeviceStats {
    if inventory.contains_key(mac) {
        inventory[mac]
    } else {
        no_sightings()
    }
}

/// The six bytes of a frame from a position on.
pub open spec fn mac_at(frame: Seq<u8>, at: int) -> [u8; 6] {
    [frame[at], frame[at + 1], frame[at + 2], frame[at + 3], frame[at + 4], frame[at + 5]]
}

/// The destination of a frame: its first six bytes.
pub open spec fn destination(frame: Seq<u8>) -> [u8; 6] {
    mac_at(frame, 0)
}

/// The source of a frame: the six bytes after the destination.
pub open spec fn source(frame: Seq<u8>) -> [u8; 6] {
    mac_at(frame, 6)
}

/// A frame is long enough for an Ethernet header.
pub open spec fn has_header(frame: Seq<u8>) -> bool {
    frame.len() >= 14
}

/// A MAC belongs in the inventory: groups do only on request.
pub open spec fn counted(mac: [u8; 6], include_multicast: bool) -> bool {
    include_multicast || !multicast(mac)
}

/// A frame counts for a MAC as its source.
pub open spec fn counts_as_source(frame: Seq<u8>, mac: [u8; 6], include_multicast: bool) -> bool {
    has_header(frame) && source(frame) == mac && counted(mac, include_multicast)
}

/// A frame counts for a MAC as its destination.
pub open spec fn counts_as_destination(
    frame: Seq<u8>,
    mac: [u8; 6],
    include_multicast: bool,
) -> bool {
    has_header(frame) && destination(frame) == mac && counted(mac, include_multicast)
}

/// The inventory with one more frame from a MAC.
pub open spec fn with_source(inventory: Map<[u8; 6], DeviceStats>, mac: [u8; 6]) -> Map<
    [u8; 6],
    DeviceStats,
> {
    let stats = stats_of(inventory, mac);
    inventory.insert(mac, DeviceStats { src_count: (stats.src_count + 1) as u64, ..stats })
}

/// The inventory with one more frame to a MAC.
pub open spec fn with_destination(inventory: Map<[u8; 6], DeviceStats>, mac: [u8; 6]) -> Map<
    [u8; 6],
    DeviceStats,
> {
    let stats = stats_of(inventory, mac);
    inventory.insert(mac, DeviceStats { dst_count: (stats.dst_count + 1) as u64, ..stats })
}

/// The inventory after one more frame.
pub open spec fn after_frame(
    inventory: Map<[u8; 6], DeviceStats>,
    frame: Seq<u8>,
    include_multicast: bool,
) -> Map<[u8; 6], DeviceStats> {
    if !has_header(frame) {
        inventory
    } else {
        let from = if counted(source(frame), include_multicast) {
            with_source(inventory, source(frame))
        } else {
            inventory
        };
        if counted(destination(frame), include_multicast) {
            with_destination(from, destination(frame))
        } else {
            from
        }
    }
}

/// The counters that a frame raises have room for one more.
pub open spec fn has_room(
    inventory: Map<[u8; 6], DeviceStats>,
    frame: Seq<u8>,
    include_multicast: bool,
) -> bool {
    has_header(frame) ==> {
        &&& counted(source(frame), include_multicast) ==> stats_of(
            inventory,
            source(frame),
        ).src_count < u64::MAX
        &&& counted(destination(frame), include_multicast) ==> stats_of(
            inventory,
            destination(frame),
        ).dst_count < u64::MAX
    }
}

/// The six bytes of a frame from a position on.
fn read_mac(data: &[u8], at: usize) -> (mac: [u8; 6])
    requires
        at + 6 <= data@.len(),
    ensures
        mac == mac_at(data@, at as int),
{
    let mac: [u8; 6] = [
        data[at],
        data[at + 1],
        data[at + 2],
        data[at + 3],
        data[at + 4],
        data[at + 5],
    ];
    assert(mac =~= mac_at(data@, at as int));
    mac
}

/// The counters of a MAC; zero where it was not seen.
fn current_stats(inventory: &Inventory, mac: &[u8; 6]) -> (stats: DeviceStats)
    ensures
        stats == stats_of(inventory@, *mac),
{
    match map_get(inventory, mac) {
        Some(stats) => *stats,
        None => DeviceStats::default(),
    }
}

/// Takes the two MACs of a frame and counts them. A frame that is too short for an Ethernet
/// header is ignored, and so is a group address unless groups are asked for. No vendor is looked
/// up here.
pub fn handle_packet(data: &[u8], inventory: &mut Inventory, include_multicast: bool)
    requires
        has_room(old(inventory)@, data@, include_multicast),
    ensures
        final(inventory)@ == after_frame(old(inventory)@, data@, include_multicast),
{
    if data.len() < 14 {
        return;
    }
    let dst = read_mac(data, 0);
    let src = read_mac(data, 6);
    if include_multicast || !is_multicast(&src) {
        let mut stats = current_stats(inventory, &src);
        stats.src_count = stats.src_count + 1;
        map_insert(inventory, src, stats);
    }
    if include_multicast || !is_multicast(&dst) {
        let mut stats = current_stats(inventory, &dst);
        stats.dst_count = stats.dst_count + 1;
        map_insert(inventory, dst, stats);
    }
}

// ---------------------------------------------------------------------------
// Merging
// ---------------------------------------------------------------------------

/// The sum of the counters of two parts of a capture.
pub open spec fn sum_of(a: DeviceStats, b: DeviceStats) -> DeviceStats {
    DeviceStats {
        src_count: (a.src_count + b.src_count) as u64,
        dst_count: (a.dst_count + b.dst_count) as u64,
    }
}

/// The inventory of two parts of a capture together.
pub open spec fn merged(a: Map<[u8; 6], DeviceStats>, b: Map<[u8; 6], DeviceStats>) -> Map<
    [u8; 6],
    DeviceStats,
> {
    Map::new(
        |mac: [u8; 6]| a.contains_key(mac) || b.contains_key(mac),
        |mac: [u8; 6]| sum_of(stats_of(a, mac), stats_of(b, mac)),
    )
}

/// No counter overflows when two inventories are merged.
pub open spec fn mergeable(a: Map<[u8; 6], DeviceStats>, b: Map<[u8; 6], DeviceStats>) -> bool {
    forall|mac: [u8; 6]| #[trigger]
        b.contains_key(mac) ==> stats_of(a, mac).src_count + b[mac].src_count <= u64::MAX
            && stats_of(a, mac).dst_count + b[mac].dst_count <= u64::MAX
}

/// Adds the counters of one inventory to another.
pub fn merge_inventory(target: &mut Inventory, part: &Inventory)
    requires
        mergeable(old(target)@, part@),
    ensures
        final(target)@ == merged(old(target)@, part@),
{
    let entries = map_entries(part);
    let ghost before = target@;
    let mut i: usize = 0;
    while i < entries.len()
        invariant
            i <= entries@.len(),
            mergeable(before, part@),
            forall|k: int|
                0 <= k < entries@.len() ==> part@.contains_key((#[trigger] entries@[k]).0)
                    && part@[entries@[k].0] == entries@[k].1,
            forall|j: int, k: int|
                0 <= j < k < entries@.len() ==> (#[trigger] entries@[j]).0 != (
                #[trigger] entries@[k]).0,
            forall|k: int|
                0 <= k < i ==> target@.contains_key((#[trigger] entries@[k]).0)
                    && target@[entries@[k].0] == sum_of(
                    stats_of(before, entries@[k].0),
                    entries@[k].1,
                ),
            forall|mac: [u8; 6]|
                (forall|k: int| 0 <= k < i ==> (#[trigger] entries@[k]).0 != mac) ==> (
                #[trigger] target@.contains_key(mac) <==> before.contains_key(mac)) && stats_of(
                    target@,
                    mac,
                ) == stats_of(before, mac),
        decreases entries@.len() - i,
    {
        let (mac, stats) = entries[i];
        let sum = current_stats(target, &mac);
        assert(entries@[i as int].0 == mac);
        assert(stats_of(target@, mac) == stats_of(before, mac)) by {
            assert(forall|k: int| 0 <= k < i ==> (#[trigger] entries@[k]).0 != mac);
            assert(target@.contains_key(mac) <==> before.contains_key(mac));
        }
        map_insert(
            target,
            mac,
            DeviceStats {
                src_count: sum.src_count + stats.src_count,
                dst_count: sum.dst_count + stats.dst_count,
            },
        );
        i = i + 1;
    }
    assert(target@ =~= merged(before, part@));
}

// ---------------------------------------------------------------------------
// Laws
// ---------------------------------------------------------------------------

/// The inventory of a whole capture, frame after frame.
pub open spec fn inventory_of(frames: Seq<Seq<u8>>, include_multicast: bool) -> Map<
    [u8; 6],
    DeviceStats,
>
    decreases frames.len(),
{
    if frames.len() == 0 {
        Map::empty()
    } else {
        after_frame(
            inventory_of(frames.drop_last(), include_multicast),
            frames.last(),
            include_multicast,
        )
    }
}

/// How many frames of a capture have a property.
pub open spec fn how_many(frames: Seq<Seq<u8>>, property: spec_fn(Seq<u8>) -> bool) -> nat
    decreases frames.len(),
{
    if frames.len() == 0 {
        0
    } else {
        how_many(frames.drop_last(), property) + if property(frames.last()) {
            1nat
        } else {
            0nat
        }
    }
}

/// The frames that count for a MAC as their source.
pub open spec fn sent_by(mac: [u8; 6], include_multicast: bool) -> spec_fn(Seq<u8>) -> bool {
    |frame: Seq<u8>| counts_as_source(frame, mac, include_multicast)
}

/// The frames that count for a MAC as their destination.
pub open spec fn sent_to(mac: [u8; 6], include_multicast: bool) -> spec_fn(Seq<u8>) -> bool {
    |frame: Seq<u8>| counts_as_destination(frame, mac, include_multicast)
}

/// The numbers of frames that count for a MAC fit its counters.
pub open spec fn counts_fit(frames: Seq<Seq<u8>>, include_multicast: bool, mac: [u8; 6]) -> bool {
    &&& how_many(frames, sent_by(mac, include_multicast)) <= u64::MAX
    &&& how_many(frames, sent_to(mac, include_multicast)) <= u64::MAX
}

/// The numbers of frames that count for each MAC fit its counters.
pub open spec fn all_counts_fit(frames: Seq<Seq<u8>>, include_multicast: bool) -> bool {
    forall|mac: [u8; 6]| #[trigger] counts_fit(frames, include_multicast, mac)
}

/// The numbers of a capture of at most 2^64 - 1 frames fit the counters.
pub proof fn law_counts_of_capture_fit(frames: Seq<Seq<u8>>, include_multicast: bool)
    requires
        frames.len() <= u64::MAX,
    ensures
        all_counts_fit(frames, include_multicast),
{
    assert forall|mac: [u8; 6]| #[trigger] counts_fit(frames, include_multicast, mac) by {
        lemma_how_many_at_most_all(frames, sent_by(mac, include_multicast));
        lemma_how_many_at_most_all(frames, sent_to(mac, include_multicast));
    }
}

/// The inventory of a capture holds a MAC exactly when a frame counts for it, and its counters
/// are the numbers of frames that count for it as source and as destination.
pub proof fn law_inventory_counts(
    frames: Seq<Seq<u8>>,
    include_multicast: bool,
    mac: [u8; 6],
)
    requires
        counts_fit(frames, include_multicast, mac),
    ensures
        ({
            let sent = how_many(frames, sent_by(mac, include_multicast));
            let received = how_many(frames, sent_to(mac, include_multicast));
            let inventory = inventory_of(frames, include_multicast);
            &&& inventory.contains_key(mac) <==> sent + received > 0
            &&& stats_of(inventory, mac).src_count == sent
            &&& stats_of(inventory, mac).dst_count == received
        }),
    decreases frames.len(),
{
    if frames.len() > 0 {
        law_inventory_counts(frames.drop_last(), include_multicast, mac);
    }
}

/// The counters have room for the next frame of a capture as long as its numbers fit them.
pub proof fn law_inventory_has_room(
    frames: Seq<Seq<u8>>,
    frame: Seq<u8>,
    include_multicast: bool,
)
    requires
        all_counts_fit(frames.push(frame), include_multicast),
    ensures
        has_room(inventory_of(frames, include_multicast), frame, include_multicast),
{
    let (src, dst) = (source(frame), destination(frame));
    assert(frames.push(frame).drop_last() =~= frames);
    assert(counts_fit(frames.push(frame), include_multicast, src));
    assert(counts_fit(frames.push(frame), include_multicast, dst));
    law_inventory_counts(frames, include_multicast, src);
    law_inventory_counts(frames, include_multicast, dst);
}

/// Unless groups are asked for, no group address enters an inventory that holds none.
pub proof fn law_groups_stay_out(
    inventory: Map<[u8; 6], DeviceStats>,
    frame: Seq<u8>,
    mac: [u8; 6],
)
    requires
        forall|m: [u8; 6]| #[trigger] inventory.contains_key(m) ==> !multicast(m),
        after_frame(inventory, frame, false).contains_key(mac),
    ensures
        !multicast(mac),
{
}

/// Unless groups are asked for, the inventory of a capture holds no group address: no MAC with an
/// odd first byte.
pub proof fn law_no_groups_in_inventory(frames: Seq<Seq<u8>>, mac: [u8; 6])
    requires
        inventory_of(frames, false).contains_key(mac),
    ensures
        !multicast(mac),
        mac[0] as int % 2 == 0,
    decreases frames.len(),
{
    if frames.len() > 0 && inventory_of(frames.drop_last(), false).contains_key(mac) {
        law_no_groups_in_inventory(frames.drop_last(), mac);
    }
}

/// Only the twelve bytes of the two MACs matter: what comes after them, a VLAN tag or a payload
/// that was cut off, changes nothing as long as a header's length remains. Of two such frames the
/// counters have room for both or for neither, and they leave the same inventory.
pub proof fn law_payload_is_ignored(
    inventory: Map<[u8; 6], DeviceStats>,
    a: Seq<u8>,
    b: Seq<u8>,
    include_multicast: bool,
)
    requires
        a.len() >= 14,
        b.len() >= 14,
        a.take(12) == b.take(12),
    ensures
        has_room(inventory, a, include_multicast) <==> has_room(inventory, b, include_multicast),
        after_frame(inventory, a, include_multicast) == after_frame(
            inventory,
            b,
            include_multicast,
        ),
{
    assert forall|i: int| 0 <= i < 12 implies a[i] == b[i] by {
        assert(a[i] == a.take(12)[i]);
        assert(b[i] == b.take(12)[i]);
    }
    assert(source(a) =~= source(b));
    assert(destination(a) =~= destination(b));
}

/// The order in which frames arrive does not matter.
pub proof fn law_order_is_ignored(a: Seq<Seq<u8>>, b: Seq<Seq<u8>>, include_multicast: bool)
    requires
        a.to_multiset() == b.to_multiset(),
        all_counts_fit(a, include_multicast),
    ensures
        inventory_of(a, include_multicast) == inventory_of(b, include_multicast),
{
    let (x, y) = (inventory_of(a, include_multicast), inventory_of(b, include_multicast));
    assert forall|mac: [u8; 6]|
        #![trigger x.dom().contains(mac)]
        #![trigger y.dom().contains(mac)]
        (x.contains_key(mac) <==> y.contains_key(mac)) && stats_of(x, mac) == stats_of(y, mac) by {
        lemma_how_many_by_multiset(a, sent_by(mac, include_multicast));
        lemma_how_many_by_multiset(b, sent_by(mac, include_multicast));
        lemma_how_many_by_multiset(a, sent_to(mac, include_multicast));
        lemma_how_many_by_multiset(b, sent_to(mac, include_multicast));
        assert(counts_fit(a, include_multicast, mac));
        law_inventory_counts(a, include_multicast, mac);
        law_inventory_counts(b, include_multicast, mac);
    }
    assert(x =~= y);
}

/// The merged inventories of two parts of a capture are the inventory of the whole.
pub proof fn law_merge_is_whole(a: Seq<Seq<u8>>, b: Seq<Seq<u8>>, include_multicast: bool)
    requires
        all_counts_fit(a + b, include_multicast),
    ensures
        mergeable(inventory_of(a, include_multicast), inventory_of(b, include_multicast)),
        merged(inventory_of(a, include_multicast), inventory_of(b, include_multicast))
            == inventory_of(a + b, include_multicast),
{
    let (x, y, z) = (
        inventory_of(a, include_multicast),
        inventory_of(b, include_multicast),
        inventory_of(a + b, include_multicast),
    );
    assert forall|mac: [u8; 6]|
        (z.contains_key(mac) <==> x.contains_key(mac) || y.contains_key(mac)) && (stats_of(
            x,
            mac,
        ).src_count + stats_of(y, mac).src_count == stats_of(z, mac).src_count) && (stats_of(
            x,
            mac,
        ).dst_count + stats_of(y, mac).dst_count == stats_of(z, mac).dst_count) by {
        lemma_how_many_concat(a, b, sent_by(mac, include_multicast));
        lemma_how_many_concat(a, b, sent_to(mac, include_multicast));
        assert(counts_fit(a + b, include_multicast, mac));
        law_inventory_counts(a, include_multicast, mac);
        law_inventory_counts(b, include_multicast, mac);
        law_inventory_counts(a + b, include_multicast, mac);
    }
    assert forall|mac: [u8; 6]| z.contains_key(mac) implies z[mac] == #[trigger] sum_of(
        stats_of(x, mac),
        stats_of(y, mac),
    ) by {
        assert(stats_of(x, mac).src_count + stats_of(y, mac).src_count == stats_of(
            z,
            mac,
        ).src_count);
    }
    assert forall|mac: [u8; 6]| #[trigger] y.contains_key(mac) implies stats_of(x, mac).src_count
        + y[mac].src_count <= u64::MAX && stats_of(x, mac).dst_count + y[mac].dst_count
        <= u64::MAX by {
        assert(stats_of(x, mac).src_count + stats_of(y, mac).src_count == stats_of(
            z,
            mac,
        ).src_count);
    }
    assert(merged(x, y) =~= z);
}

/// What one frame does to an inventory, seen from any MAC. A frame of 14 bytes or more, however
/// long, raises by one the source counter of the MAC in its bytes 6 to 11 and the destination
/// counter of the MAC in its bytes 0 to 5, unless the first byte of that MAC is odd and groups are
/// not asked for. Nothing else changes, and a shorter frame changes nothing.
pub proof fn law_frame_counts(
    inventory: Map<[u8; 6], DeviceStats>,
    frame: Seq<u8>,
    include_multicast: bool,
    mac: [u8; 6],
)
    ensures
        ({
            let sent = frame.len() >= 14 && frame.subrange(6, 12) == mac@ && (include_multicast
                || mac[0] as int % 2 == 0);
            let received = frame.len() >= 14 && frame.subrange(0, 6) == mac@ && (include_multicast
                || mac[0] as int % 2 == 0);
            let after = after_frame(inventory, frame, include_multicast);
            let known = inventory.contains_key(mac);
            let src = if known { inventory[mac].src_count as int } else { 0 };
            let dst = if known { inventory[mac].dst_count as int } else { 0 };
            &&& after.contains_key(mac) <==> known || sent || received
            &&& after.contains_key(mac) && (sent ==> src < u64::MAX) && (received ==> dst
                < u64::MAX) ==> {
                &&& after[mac].src_count == src + (if sent { 1int } else { 0int })
                &&& after[mac].dst_count == dst + (if received { 1int } else { 0int })
            }
        }),
{
    lemma_mac_at(frame, 0, mac);
    lemma_mac_at(frame, 6, mac);
}

/// The bytes of a frame at a position are a MAC exactly when they are its bytes.
proof fn lemma_mac_at(frame: Seq<u8>, at: int, mac: [u8; 6])
    ensures
        0 <= at && at + 6 <= frame.len() ==> (mac_at(frame, at) == mac <==> frame.subrange(
            at,
            at + 6,
        ) == mac@),
{
    if 0 <= at && at + 6 <= frame.len() {
        let found = mac_at(frame, at);
        assert(found@ =~= frame.subrange(at, at + 6));
        if found@ == mac@ {
            assert(found =~= mac);
        }
    }
}

/// A frame can be counted where no counter that it raises is full.
pub proof fn law_frame_fits(
    inventory: Map<[u8; 6], DeviceStats>,
    frame: Seq<u8>,
    include_multicast: bool,
)
    requires
        frame.len() >= 14 ==> forall|mac: [u8; 6]| #[trigger]
            inventory.contains_key(mac) && (include_multicast || mac[0] as int % 2 == 0) ==> (
            frame.subrange(6, 12) == mac@ ==> inventory[mac].src_count < u64::MAX) && (
            frame.subrange(0, 6) == mac@ ==> inventory[mac].dst_count < u64::MAX),
    ensures
        has_room(inventory, frame, include_multicast),
{
    if frame.len() >= 14 {
        let (src, dst) = (source(frame), destination(frame));
        lemma_mac_at(frame, 6, src);
        lemma_mac_at(frame, 0, dst);
    }
}

/// What a call of `handle_packet` does, seen from any MAC, and when it can be made.
pub proof fn law_handle_packet(data: &[u8], include_multicast: bool, mac: [u8; 6])
    ensures
        ({
            let sent = data@.len() >= 14 && data@.subrange(6, 12) == mac@ && (include_multicast
                || mac[0] as int % 2 == 0);
            let received = data@.len() >= 14 && data@.subrange(0, 6) == mac@ && (include_multicast
                || mac[0] as int % 2 == 0);
            forall|inv: &mut Inventory| #[trigger]
                call_ensures(handle_packet, (data, inv, include_multicast), ()) ==> {
                    let known = inv@.contains_key(mac);
                    let src = if known { inv@[mac].src_count as int } else { 0 };
                    let dst = if known { inv@[mac].dst_count as int } else { 0 };
                    &&& final(inv)@.contains_key(mac) <==> known || sent || received
                    &&& final(inv)@.contains_key(mac) && (sent ==> src < u64::MAX) && (received
                        ==> dst < u64::MAX) ==> {
                        &&& final(inv)@[mac].src_count == src + (if sent { 1int } else { 0int })
                        &&& final(inv)@[mac].dst_count == dst + (if received { 1int } else { 0int })
                    }
                }
        }),
        forall|inv: &mut Inventory| #[trigger]
            has_room(inv@, data@, include_multicast) ==> call_requires(
                handle_packet,
                (data, inv, include_multicast),
            ),
{
    let sent = data@.len() >= 14 && data@.subrange(6, 12) == mac@ && (include_multicast || mac[0] as int
        % 2 == 0);
    let received = data@.len() >= 14 && data@.subrange(0, 6) == mac@ && (include_multicast
        || mac[0] as int % 2 == 0);
    assert forall|inv: &mut Inventory| #[trigger]
        call_ensures(handle_packet, (data, inv, include_multicast), ()) implies {
        let known = inv@.contains_key(mac);
        let src = if known { inv@[mac].src_count as int } else { 0 };
        let dst = if known { inv@[mac].dst_count as int } else { 0 };
        &&& final(inv)@.contains_key(mac) <==> known || sent || received
        &&& final(inv)@.contains_key(mac) && (sent ==> src < u64::MAX) && (received ==> dst
            < u64::MAX) ==> {
            &&& final(inv)@[mac].src_count == src + (if sent { 1int } else { 0int })
            &&& final(inv)@[mac].dst_count == dst + (if received { 1int } else { 0int })
        }
    } by {
        law_frame_counts(inv@, data@, include_multicast, mac);
    }
}

/// The inventory of a capture, seen from any MAC: its counters are the numbers of frames of 14
/// bytes or more that have it in their bytes 6 to 11, and in their bytes 0 to 5. It is there
/// exactly when there is such a frame. A MAC with an odd first byte is there only on request.
pub proof fn law_capture_counts(frames: Seq<Seq<u8>>, include_multicast: bool, mac: [u8; 6])
    requires
        frames.len() <= u64::MAX,
    ensures
        ({
            let from = frames.filter(|f: Seq<u8>| f.len() >= 14 && f.subrange(6, 12) == mac@).len();
            let to = frames.filter(|f: Seq<u8>| f.len() >= 14 && f.subrange(0, 6) == mac@).len();
            let inventory = inventory_of(frames, include_multicast);
            if include_multicast || mac[0] as int % 2 == 0 {
                &&& inventory.contains_key(mac) <==> from > 0 || to > 0
                &&& inventory.contains_key(mac) ==> inventory[mac].src_count == from
                    && inventory[mac].dst_count == to
            } else {
                !inventory.contains_key(mac)
            }
        }),
    decreases frames.len(),
{
    reveal(Seq::filter);
    if frames.len() > 0 {
        let rest = frames.drop_last();
        law_capture_counts(rest, include_multicast, mac);
        law_frame_counts(
            inventory_of(rest, include_multicast),
            frames.last(),
            include_multicast,
            mac,
        );
        rest.lemma_filter_len(|f: Seq<u8>| f.len() >= 14 && f.subrange(6, 12) == mac@);
        rest.lemma_filter_len(|f: Seq<u8>| f.len() >= 14 && f.subrange(0, 6) == mac@);
    }
}

/// Two inventories merged, seen from any MAC: it is there exactly when one of them holds it, and
/// its counters are the sums of its counters in both. They can be merged where these sums fit.
pub proof fn law_merged(
    a: Map<[u8; 6], DeviceStats>,
    b: Map<[u8; 6], DeviceStats>,
    mac: [u8; 6],
)
    ensures
        ({
            let src = (if a.contains_key(mac) { a[mac].src_count as int } else { 0 }) + (
            if b.contains_key(mac) { b[mac].src_count as int } else { 0 });
            let dst = (if a.contains_key(mac) { a[mac].dst_count as int } else { 0 }) + (
            if b.contains_key(mac) { b[mac].dst_count as int } else { 0 });
            &&& merged(a, b).contains_key(mac) <==> a.contains_key(mac) || b.contains_key(mac)
            &&& merged(a, b).contains_key(mac) && src <= u64::MAX ==> merged(a, b)[mac].src_count
                == src
            &&& merged(a, b).contains_key(mac) && dst <= u64::MAX ==> merged(a, b)[mac].dst_count
                == dst
        }),
        (forall|m: [u8; 6]|
            a.contains_key(m) && #[trigger] b.contains_key(m) ==> a[m].src_count + b[m].src_count
                <= u64::MAX && a[m].dst_count + b[m].dst_count <= u64::MAX) ==> mergeable(a, b),
{
}

/// What a call of `merge_inventory` does.
pub proof fn law_merge_inventory(part: &Inventory)
    ensures
        forall|target: &mut Inventory| #[trigger]
            call_ensures(merge_inventory, (target, part), ()) ==> final(target)@ == merged(
                target@,
                part@,
            ),
        forall|target: &mut Inventory| #[trigger]
            mergeable(target@, part@) ==> call_requires(merge_inventory, (target, part)),
{
}

/// No more frames have a property than there are frames.
pub proof fn lemma_how_many_at_most_all(frames: Seq<Seq<u8>>, property: spec_fn(Seq<u8>) -> bool)
    ensures
        how_many(frames, property) <= frames.len(),
    decreases frames.len(),
{
    if frames.len() > 0 {
        lemma_how_many_at_most_all(frames.drop_last(), property);
    }
}

/// What two parts of a capture hold together is the sum of what they hold.
pub proof fn lemma_how_many_concat(
    a: Seq<Seq<u8>>,
    b: Seq<Seq<u8>>,
    property: spec_fn(Seq<u8>) -> bool,
)
    ensures
        how_many(a + b, property) == how_many(a, property) + how_many(b, property),
    decreases b.len(),
{
    if b.len() == 0 {
        assert(a + b =~= a);
    } else {
        lemma_how_many_concat(a, b.drop_last(), property);
        assert((a + b).drop_last() =~= a + b.drop_last());
    }
}

/// How many frames have a property does not depend on their order.
pub proof fn lemma_how_many_by_multiset(frames: Seq<Seq<u8>>, property: spec_fn(Seq<u8>) -> bool)
    ensures
        how_many(frames, property) == frames.to_multiset().filter(property).len(),
    decreases frames.len(),
{
    broadcast use vstd::seq_lib::group_to_multiset_ensures;

    if frames.len() == 0 {
        assert(frames.to_multiset().filter(property) =~= vstd::multiset::Multiset::empty());
    } else {
        let (rest, last) = (frames.drop_last(), frames.last());
        lemma_how_many_by_multiset(rest, property);
        assert(frames =~= rest.push(last));
        assert(frames.to_multiset() =~= rest.to_multiset().insert(last));
        if property(last) {
            assert(frames.to_multiset().filter(property) =~= rest.to_multiset().filter(
                property,
            ).insert(last));
        } else {
            assert(frames.to_multiset().filter(property) =~= rest.to_multiset().filter(property));
        }
    }
}

} // verus!
