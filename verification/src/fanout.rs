//! Sharing the traffic of an interface between several sockets.

use crate::capture::{CapStats, SocketStats};
use crate::inventory::{
    all_counts_fit, counts_fit, how_many, inventory_of, law_inventory_counts, law_merge_is_whole,
    law_order_is_ignored, lemma_how_many_by_multiset, lemma_how_many_concat, merge_inventory,
    mergeable, merged, sent_by, sent_to, stats_of, DeviceStats, Inventory,
};
use vstd::prelude::*;

verus! {

/// The socket option that joins a socket to a group that shares traffic.
pub const PACKET_FANOUT: i32 = 18;

/// How the kernel deals frames out to the sockets of a group.
#[derive(Clone, Copy, Debug, PartialEq, Eq)]
pub enum FanoutMode {
    /// By the flow of a frame: all frames of a flow go to one socket.
    Hash,
    /// By the processor that a frame arrived on.
    Cpu,
    /// In turn.
    Lb,
}

/// The kernel's number of a mode.
pub fn fanout_type(mode: FanoutMode) -> (r: u32)
    ensures
        r == (match mode {
            FanoutMode::Hash => 0u32,
            FanoutMode::Lb => 1u32,
            FanoutMode::Cpu => 2u32,
        }),
{
    match mode {
        FanoutMode::Hash => 0,
        FanoutMode::Lb => 1,
        FanoutMode::Cpu => 2,
    }
}

/// The group of a process: the lower half of its number.
pub fn fanout_group(process_id: u32) -> (r: u16)
    ensures
        r == process_id % 0x1_0000,
{
    assert(process_id & 0xffff == process_id % 0x1_0000) by (bit_vector);
    (process_id & 0xffff) as u16
}

/// The argument of the socket option.
pub open spec fn fanout_argument_value(group: u16, fanout_type: u32) -> nat {
    (fanout_type % 0x1_0000 * 0x1_0000 + group) as nat
}

/// The argument of the socket option: the mode in the upper half, the group in the lower half.
pub fn fanout_argument(group: u16, fanout_type: u32) -> (r: u32)
    ensures
        r == fanout_argument_value(group, fanout_type),
{
    let low: u32 = group as u32;
    assert(((fanout_type & 0xffff) << 16) | low == fanout_type % 0x1_0000 * 0x1_0000 + low)
        by (bit_vector)
        requires
            low <= 0xffff,
    ;
    ((fanout_type & 0xffff) << 16) | low
}

/// How a capture thread ended.
pub enum WorkerOutcome<E> {
    /// It counted until the end.
    Finished(Inventory, Option<SocketStats>),
    /// It failed.
    Failed(E),
    /// It panicked.
    Panicked,
}

/// Why the capture as a whole failed.
#[derive(Debug, PartialEq, Eq)]
pub enum FanoutError<E> {
    /// A thread failed.
    Worker(E),
    /// A thread panicked.
    Panicked,
}

/// The sums after a thread that left no statistics, or some.
pub open spec fn totals_after(totals: CapStats, stats: Option<SocketStats>) -> CapStats {
    match stats {
        Some(stats) => totals.plus(stats),
        None => totals,
    }
}

/// Takes the result of a thread into the result of the whole. After a thread that failed nothing
/// changes, and its error is returned.
pub fn absorb_worker<E>(
    inventory: &mut Inventory,
    totals: &mut CapStats,
    outcome: WorkerOutcome<E>,
) -> (r: Result<(), FanoutError<E>>)
    requires
        outcome matches WorkerOutcome::Finished(part, stats) ==> {
            &&& mergeable(old(inventory)@, part@)
            &&& stats matches Some(stats) ==> old(totals).has_room_for(stats)
        },
    ensures
        match outcome {
            WorkerOutcome::Finished(part, stats) => {
                &&& r is Ok
                &&& final(inventory)@ == merged(old(inventory)@, part@)
                &&& *final(totals) == totals_after(*old(totals), stats)
            },
            WorkerOutcome::Failed(error) => {
                &&& r == Err::<(), FanoutError<E>>(FanoutError::Worker(error))
                &&& final(inventory)@ == old(inventory)@
                &&& *final(totals) == *old(totals)
            },
            WorkerOutcome::Panicked => {
                &&& r == Err::<(), FanoutError<E>>(FanoutError::Panicked)
                &&& final(inventory)@ == old(inventory)@
                &&& *final(totals) == *old(totals)
            },
        },
{
    match outcome {
        WorkerOutcome::Finished(part, stats) => {
            merge_inventory(inventory, &part);
            if let Some(stats) = stats {
                totals.add_socket(&stats);
            }
            Ok(())
        },
        WorkerOutcome::Failed(error) => Err(FanoutError::Worker(error)),
        WorkerOutcome::Panicked => Err(FanoutError::Panicked),
    }
}

// ---------------------------------------------------------------------------
// Laws
// ---------------------------------------------------------------------------

/// The argument of the socket option says which mode and which group it was made of.
pub proof fn law_fanout_argument_splits(group: u16, fanout_type: u32)
    requires
        fanout_type < 0x1_0000,
    ensures
        fanout_argument_value(group, fanout_type) % 0x1_0000 == group,
        fanout_argument_value(group, fanout_type) / 0x1_0000 == fanout_type,
{
}

/// The frames of all parts, one part after the other.
pub open spec fn joined(parts: Seq<Seq<Seq<u8>>>) -> Seq<Seq<u8>>
    decreases parts.len(),
{
    if parts.len() == 0 {
        Seq::empty()
    } else {
        joined(parts.drop_last()) + parts.last()
    }
}

/// The inventory of each part.
pub open spec fn inventories_of(parts: Seq<Seq<Seq<u8>>>, include_multicast: bool) -> Seq<
    Map<[u8; 6], DeviceStats>,
> {
    Seq::new(parts.len(), |k: int| inventory_of(parts[k], include_multicast))
}

/// Inventories merged one after the other into an empty one.
pub open spec fn merged_all(inventories: Seq<Map<[u8; 6], DeviceStats>>) -> Map<
    [u8; 6],
    DeviceStats,
>
    decreases inventories.len(),
{
    if inventories.len() == 0 {
        Map::empty()
    } else {
        merged(merged_all(inventories.drop_last()), inventories.last())
    }
}

/// The frames that inventories count for a MAC as source, together.
pub open spec fn sources_sum(inventories: Seq<Map<[u8; 6], DeviceStats>>, mac: [u8; 6]) -> nat
    decreases inventories.len(),
{
    if inventories.len() == 0 {
        0
    } else {
        sources_sum(inventories.drop_last(), mac) + stats_of(
            inventories.last(),
            mac,
        ).src_count as nat
    }
}

/// The frames that inventories count for a MAC as destination, together.
pub open spec fn destinations_sum(
    inventories: Seq<Map<[u8; 6], DeviceStats>>,
    mac: [u8; 6],
) -> nat
    decreases inventories.len(),
{
    if inventories.len() == 0 {
        0
    } else {
        destinations_sum(inventories.drop_last(), mac) + stats_of(
            inventories.last(),
            mac,
        ).dst_count as nat
    }
}

/// The sums for a MAC fit its counters.
pub open spec fn sums_fit(inventories: Seq<Map<[u8; 6], DeviceStats>>, mac: [u8; 6]) -> bool {
    sources_sum(inventories, mac) <= u64::MAX && destinations_sum(inventories, mac) <= u64::MAX
}

/// Merged inventories hold the MACs of all of them and no others, and the counters of a MAC are
/// the sums of its counters: none is lost, overwritten or counted twice.
pub proof fn law_merge_adds_up(inventories: Seq<Map<[u8; 6], DeviceStats>>, mac: [u8; 6])
    requires
        sums_fit(inventories, mac),
    ensures
        merged_all(inventories).contains_key(mac) <==> exists|k: int|
            0 <= k < inventories.len() && (#[trigger] inventories[k]).contains_key(mac),
        stats_of(merged_all(inventories), mac).src_count == sources_sum(inventories, mac),
        stats_of(merged_all(inventories), mac).dst_count == destinations_sum(inventories, mac),
    decreases inventories.len(),
{
    if inventories.len() > 0 {
        let rest = inventories.drop_last();
        law_merge_adds_up(rest, mac);
        if merged_all(rest).contains_key(mac) {
            let k = choose|k: int| 0 <= k < rest.len() && (#[trigger] rest[k]).contains_key(mac);
            assert(inventories[k].contains_key(mac));
        }
        if inventories.last().contains_key(mac) {
            assert(inventories[inventories.len() - 1].contains_key(mac));
        }
        assert forall|k: int|
            0 <= k < inventories.len() && (#[trigger] inventories[k]).contains_key(
                mac,
            ) implies merged_all(inventories).contains_key(mac) by {
            if k < rest.len() {
                assert(rest[k].contains_key(mac));
            }
        }
    }
}

/// Where the sums over all inventories fit the counters, each can be merged into those before it.
pub proof fn law_merge_has_room(inventories: Seq<Map<[u8; 6], DeviceStats>>)
    requires
        inventories.len() > 0,
        forall|mac: [u8; 6]| #[trigger] sums_fit(inventories, mac),
    ensures
        mergeable(merged_all(inventories.drop_last()), inventories.last()),
{
    let rest = inventories.drop_last();
    assert forall|mac: [u8; 6]| #[trigger] inventories.last().contains_key(mac) implies stats_of(
        merged_all(rest),
        mac,
    ).src_count + inventories.last()[mac].src_count <= u64::MAX && stats_of(
        merged_all(rest),
        mac,
    ).dst_count + inventories.last()[mac].dst_count <= u64::MAX by {
        assert(sums_fit(inventories, mac));
        law_merge_adds_up(rest, mac);
    }
}

/// However the frames of a capture are dealt out to any number of sockets, the merged
/// inventories are the inventory that one socket would have made of all frames, whatever their
/// order, as long as its numbers fit the counters. The sums fit as well, so each inventory can be
/// merged into those before it.
pub proof fn law_fanout_counts_like_one_socket(
    whole: Seq<Seq<u8>>,
    parts: Seq<Seq<Seq<u8>>>,
    include_multicast: bool,
)
    requires
        whole.to_multiset() == joined(parts).to_multiset(),
        all_counts_fit(whole, include_multicast),
    ensures
        merged_all(inventories_of(parts, include_multicast)) == inventory_of(
            whole,
            include_multicast,
        ),
        forall|mac: [u8; 6]| #[trigger] sums_fit(inventories_of(parts, include_multicast), mac),
{
    assert forall|mac: [u8; 6]| #[trigger] counts_fit(joined(parts), include_multicast, mac) by {
        assert(counts_fit(whole, include_multicast, mac));
        lemma_how_many_by_multiset(whole, sent_by(mac, include_multicast));
        lemma_how_many_by_multiset(whole, sent_to(mac, include_multicast));
        lemma_how_many_by_multiset(joined(parts), sent_by(mac, include_multicast));
        lemma_how_many_by_multiset(joined(parts), sent_to(mac, include_multicast));
    }
    lemma_parts_make_whole(parts, include_multicast);
    law_order_is_ignored(whole, joined(parts), include_multicast);
    assert forall|mac: [u8; 6]| #[trigger]
        sums_fit(inventories_of(parts, include_multicast), mac) by {
        assert(counts_fit(joined(parts), include_multicast, mac));
        lemma_sums_of_parts(parts, include_multicast, mac);
    }
}

/// The merged inventories of the parts are the inventory of the parts joined.
proof fn lemma_parts_make_whole(parts: Seq<Seq<Seq<u8>>>, include_multicast: bool)
    requires
        all_counts_fit(joined(parts), include_multicast),
    ensures
        merged_all(inventories_of(parts, include_multicast)) == inventory_of(
            joined(parts),
            include_multicast,
        ),
    decreases parts.len(),
{
    if parts.len() > 0 {
        let front = joined(parts.drop_last());
        assert forall|mac: [u8; 6]| #[trigger] counts_fit(front, include_multicast, mac) by {
            assert(counts_fit(joined(parts), include_multicast, mac));
            lemma_how_many_concat(front, parts.last(), sent_by(mac, include_multicast));
            lemma_how_many_concat(front, parts.last(), sent_to(mac, include_multicast));
        }
        lemma_parts_make_whole(parts.drop_last(), include_multicast);
        law_merge_is_whole(front, parts.last(), include_multicast);
        assert(inventories_of(parts, include_multicast).drop_last() =~= inventories_of(
            parts.drop_last(),
            include_multicast,
        ));
    }
}

/// The sums over the inventories of the parts are the numbers of frames in all parts.
proof fn lemma_sums_of_parts(parts: Seq<Seq<Seq<u8>>>, include_multicast: bool, mac: [u8; 6])
    requires
        counts_fit(joined(parts), include_multicast, mac),
    ensures
        sources_sum(inventories_of(parts, include_multicast), mac) == how_many(
            joined(parts),
            sent_by(mac, include_multicast),
        ),
        destinations_sum(inventories_of(parts, include_multicast), mac) == how_many(
            joined(parts),
            sent_to(mac, include_multicast),
        ),
    decreases parts.len(),
{
    if parts.len() > 0 {
        let front = joined(parts.drop_last());
        lemma_how_many_concat(front, parts.last(), sent_by(mac, include_multicast));
        lemma_how_many_concat(front, parts.last(), sent_to(mac, include_multicast));
        lemma_sums_of_parts(parts.drop_last(), include_multicast, mac);
        law_inventory_counts(parts.last(), include_multicast, mac);
        assert(inventories_of(parts, include_multicast).drop_last() =~= inventories_of(
            parts.drop_last(),
            include_multicast,
        ));
    }
}

/// The numbers that the kernel gives to the option and to the modes; the group of a process is the
/// lower half of its number, and the argument holds the mode above the group.
pub proof fn law_kernel_numbers(
    mode: FanoutMode,
    process_id: u32,
    group: u16,
    fanout_mode: u32,
    n: u32,
    g: u16,
)
    ensures
        PACKET_FANOUT == 18,
        call_requires(fanout_type, (mode,)),
        call_ensures(fanout_type, (mode,), n) ==> {
            &&& mode is Hash <==> n == 0
            &&& mode is Lb <==> n == 1
            &&& mode is Cpu <==> n == 2
        },
        call_requires(fanout_group, (process_id,)),
        call_ensures(fanout_group, (process_id,), g) ==> exists|upper: int|
            0 <= upper < 0x1_0000 && process_id == #[trigger] (upper * 0x1_0000) + g,
        call_requires(fanout_argument, (group, fanout_mode)),
        call_ensures(fanout_argument, (group, fanout_mode), n) ==> n % 0x1_0000 == group && n
            / 0x1_0000 == fanout_mode % 0x1_0000,
{
    let upper = process_id as int / 0x1_0000;
    assert(process_id == (upper * 0x1_0000) + process_id % 0x1_0000);
}

/// What a call of `absorb_worker` does: a thread that finished is merged in and its statistics, if
/// it has any, are added; one that failed changes nothing and its own error comes back.
pub proof fn law_absorb_worker<E>(outcome: WorkerOutcome<E>, r: Result<(), FanoutError<E>>)
    ensures
        forall|inventory: &mut Inventory, totals: &mut CapStats| #[trigger]
            call_ensures(absorb_worker::<E>, (inventory, totals, outcome), r) ==> match outcome {
                WorkerOutcome::Finished(part, stats) => {
                    &&& r is Ok
                    &&& final(inventory)@ == merged(inventory@, part@)
                    &&& stats is None ==> *final(totals) == *totals
                    &&& stats matches Some(one) ==> {
                        &&& totals.received + one.received <= u64::MAX ==> final(totals).received
                            == totals.received + one.received
                        &&& totals.dropped + one.dropped <= u64::MAX ==> final(totals).dropped
                            == totals.dropped + one.dropped
                        &&& totals.if_dropped + one.if_dropped <= u64::MAX ==> final(totals).if_dropped
                            == totals.if_dropped + one.if_dropped
                    }
                },
                WorkerOutcome::Failed(error) => {
                    &&& r matches Err(FanoutError::Worker(same)) && same == error
                    &&& final(inventory)@ == inventory@ && *final(totals) == *totals
                },
                WorkerOutcome::Panicked => {
                    &&& r matches Err(FanoutError::Panicked)
                    &&& final(inventory)@ == inventory@ && *final(totals) == *totals
                },
            },
        forall|inventory: &mut Inventory, totals: &mut CapStats|
            (outcome matches WorkerOutcome::Finished(part, stats) ==> mergeable(inventory@, part@) && (
            stats matches Some(one) ==> totals.received + one.received <= u64::MAX && totals.dropped
                + one.dropped <= u64::MAX && totals.if_dropped + one.if_dropped <= u64::MAX))
                ==> #[trigger] call_requires(
                absorb_worker::<E>,
                (inventory, totals, outcome),
            ),
{
}

} // verus!
