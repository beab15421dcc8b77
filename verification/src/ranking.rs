//! Ranking devices: the busiest first, ties by MAC.

use crate::inventory::DeviceStats;
use crate::mac::{mac48, mac_value};
use vstd::prelude::*;

verus! {

/// A device of the inventory with its counters.
pub type Device = ([u8; 6], DeviceStats);

/// How often a device was seen in all.
pub open spec fn total_of(stats: DeviceStats) -> nat {
    (stats.src_count + stats.dst_count) as nat
}

/// A device ranks before another: it was seen more often, or as often with a smaller MAC.
pub open spec fn ranks_before(a: Device, b: Device) -> bool {
    total_of(a.1) > total_of(b.1) || (total_of(a.1) == total_of(b.1) && mac_value(a.0) < mac_value(
        b.0,
    ))
}

/// No device of a list ranks before an earlier one.
pub open spec fn ranked(devices: Seq<Device>) -> bool {
    forall|i: int, j: int|
        0 <= i < j < devices.len() ==> !ranks_before(#[trigger] devices[j], #[trigger] devices[i])
}

/// The totals of a list fit their counter.
pub open spec fn totals_fit(devices: Seq<Device>) -> bool {
    forall|i: int| 0 <= i < devices.len() ==> total_of((#[trigger] devices[i]).1) <= u64::MAX
}

/// Whether a device ranks before another.
fn goes_before(a: &Device, b: &Device) -> (r: bool)
    requires
        total_of(a.1) <= u64::MAX,
        total_of(b.1) <= u64::MAX,
    ensures
        r == ranks_before(*a, *b),
{
    let total_a: u64 = a.1.src_count + a.1.dst_count;
    let total_b: u64 = b.1.src_count + b.1.dst_count;
    total_a > total_b || (total_a == total_b && mac48(&a.0) < mac48(&b.0))
}

/// Merges two ranked lists.
fn merge(a: &Vec<Device>, b: &Vec<Device>) -> (r: Vec<Device>)
    requires
        ranked(a@),
        ranked(b@),
        totals_fit(a@),
        totals_fit(b@),
    ensures
        ranked(r@),
        r@.to_multiset() == a@.to_multiset().add(b@.to_multiset()),
{
    broadcast use vstd::seq_lib::group_to_multiset_ensures;

    let mut out: Vec<Device> = Vec::new();
    let mut i: usize = 0;
    let mut j: usize = 0;
    proof {
        assert(out@.to_multiset() =~= a@.take(0).to_multiset().add(b@.take(0).to_multiset()));
    }
    while i < a.len() || j < b.len()
        invariant
            i <= a@.len(),
            j <= b@.len(),
            ranked(a@),
            ranked(b@),
            totals_fit(a@),
            totals_fit(b@),
            ranked(out@),
            forall|k: int, l: int|
                0 <= k < out@.len() && i <= l < a@.len() ==> !ranks_before(
                    #[trigger] a@[l],
                    #[trigger] out@[k],
                ),
            forall|k: int, l: int|
                0 <= k < out@.len() && j <= l < b@.len() ==> !ranks_before(
                    #[trigger] b@[l],
                    #[trigger] out@[k],
                ),
            out@.to_multiset() == a@.take(i as int).to_multiset().add(
                b@.take(j as int).to_multiset(),
            ),
        decreases (a@.len() - i) + (b@.len() - j),
    {
        let ghost before = out@;
        if j >= b.len() || (i < a.len() && !goes_before(&b[j], &a[i])) {
            out.push(a[i]);
            proof {
                vstd::seq_lib::to_multiset_build(before, a@[i as int]);
                vstd::seq_lib::to_multiset_build(a@.take(i as int), a@[i as int]);
            }
            assert(a@.take(i + 1) =~= a@.take(i as int).push(a@[i as int]));
            assert(out@.to_multiset() =~= a@.take(i + 1).to_multiset().add(
                b@.take(j as int).to_multiset(),
            ));
            i = i + 1;
        } else {
            out.push(b[j]);
            proof {
                vstd::seq_lib::to_multiset_build(before, b@[j as int]);
                vstd::seq_lib::to_multiset_build(b@.take(j as int), b@[j as int]);
            }
            assert(b@.take(j + 1) =~= b@.take(j as int).push(b@[j as int]));
            assert(out@.to_multiset() =~= a@.take(i as int).to_multiset().add(
                b@.take(j + 1).to_multiset(),
            ));
            j = j + 1;
        }
        assert(forall|k: int| 0 <= k < before.len() ==> #[trigger] out@[k] == before[k]);
    }
    assert(a@.take(i as int) =~= a@);
    assert(b@.take(j as int) =~= b@);
    out
}

/// Ranks a list of devices.
pub fn rank(devices: Vec<Device>) -> (r: Vec<Device>)
    requires
        totals_fit(devices@),
    ensures
        ranked(r@),
        r@.to_multiset() == devices@.to_multiset(),
    decreases devices@.len(),
{
    if devices.len() <= 1 {
        return devices;
    }
    let ghost whole = devices@;
    let mut front = devices;
    let half: usize = front.len() / 2;
    let back = front.split_off(half);
    let ghost (x, y) = (front@, back@);
    assert(whole =~= x + y);
    proof {
        vstd::seq_lib::lemma_multiset_commutative(x, y);
    }
    let front = rank(front);
    let back = rank(back);
    proof {
        lemma_same_devices_fit(x, front@);
        lemma_same_devices_fit(y, back@);
    }
    merge(&front, &back)
}

/// The totals of a list fit where those of the same devices in another order do.
proof fn lemma_same_devices_fit(a: Seq<Device>, b: Seq<Device>)
    requires
        totals_fit(a),
        a.to_multiset() == b.to_multiset(),
    ensures
        totals_fit(b),
{
    assert forall|i: int| 0 <= i < b.len() implies total_of((#[trigger] b[i]).1) <= u64::MAX by {
        lemma_same_devices(b, a, i);
    }
}

/// Each device of a list occurs in the same list in another order.
pub proof fn lemma_same_devices(a: Seq<Device>, b: Seq<Device>, i: int)
    requires
        a.to_multiset() == b.to_multiset(),
        0 <= i < a.len(),
    ensures
        b.contains(a[i]),
{
    broadcast use vstd::seq_lib::group_to_multiset_ensures;

    assert(a.contains(a[i]));
    assert(a.to_multiset().count(a[i]) > 0);
    assert(b.to_multiset().count(a[i]) > 0);
}

// ---------------------------------------------------------------------------
// Laws
// ---------------------------------------------------------------------------

/// Ranked devices are the given ones, each as often as before: larger totals first, and among
/// equal totals smaller MACs first. They can be ranked where the totals fit.
pub proof fn law_rank(devices: Vec<Device>, r: Vec<Device>)
    ensures
        (forall|i: int|
            0 <= i < devices@.len() ==> (#[trigger] devices@[i]).1.src_count + devices@[i].1.dst_count
                <= u64::MAX) ==> call_requires(rank, (devices,)),
        call_ensures(rank, (devices,), r) ==> {
            &&& r@.to_multiset() == devices@.to_multiset()
            &&& forall|i: int, j: int|
                0 <= i < j < r@.len() ==> {
                    let (a, b) = (#[trigger] r@[i], #[trigger] r@[j]);
                    let (more, less) = (a.1.src_count + a.1.dst_count, b.1.src_count + b.1.dst_count);
                    more > less || (more == less && mac_value(a.0) <= mac_value(b.0))
                }
        },
{
    if call_ensures(rank, (devices,), r) {
        assert forall|i: int, j: int| 0 <= i < j < r@.len() implies {
            let (a, b) = (#[trigger] r@[i], #[trigger] r@[j]);
            let (more, less) = (a.1.src_count + a.1.dst_count, b.1.src_count + b.1.dst_count);
            more > less || (more == less && mac_value(a.0) <= mac_value(b.0))
        } by {
            assert(!ranks_before(r@[j], r@[i]));
        }
    }
}

} // verus!
