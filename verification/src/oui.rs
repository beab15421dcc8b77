//! The vendor database: MAC prefixes and the vendors that they were assigned to.

use crate::fxmap::{map_get, map_insert, map_remove};
use crate::mac::{
    law_fewer_bits_agree, law_mac48_bytes, law_mac48_upper_half, mac48, mac_value, top_bits,
};
use crate::prefix::{law_prefix_shape, parse_prefix, prefix_of};
use rustc_hash::FxHashMap;
use vstd::arithmetic::power2::pow2;
use vstd::prelude::*;

verus! {

/// One record of the vendor database, as it stands in the file.
#[derive(Debug, PartialEq, Eq)]
pub struct RawManufacturer {
    /// The prefix, such as `AA:BB:CC` or `AA:BB:CC:DD/28`.
    pub mac_prefix: String,
    /// The name of the vendor.
    pub vendor_name: String,
}

/// A prefix of the database.
#[derive(Clone, Copy, Debug, PartialEq, Eq)]
pub struct OuiEntry {
    /// The value of the prefix, in the upper `bits` of a number of 48 bits.
    pub prefix: u64,
    /// How many bits are significant.
    pub bits: u32,
    /// The position of the vendor's name.
    pub vendor_idx: u32,
}

/// The database, grouped by the first three bytes of the prefixes. Within a group the prefixes
/// are ordered from the longest to the shortest.
pub struct OuiDb {
    pub map: FxHashMap<[u8; 3], Vec<OuiEntry>>,
    pub vendors: Vec<String>,
}

/// A MAC begins with the significant bits of a prefix.
pub open spec fn covers(entry: OuiEntry, mac: [u8; 6]) -> bool {
    top_bits(mac_value(mac), entry.bits as nat) == top_bits(entry.prefix as nat, entry.bits as nat)
}

/// The first three bytes of a MAC.
pub open spec fn group_of(mac: [u8; 6]) -> [u8; 3] {
    [mac[0], mac[1], mac[2]]
}

/// The first prefix of a group that covers a MAC.
pub open spec fn first_match(entries: Seq<OuiEntry>, mac: [u8; 6]) -> Option<OuiEntry>
    decreases entries.len(),
{
    if entries.len() == 0 {
        None
    } else if covers(entries[0], mac) {
        Some(entries[0])
    } else {
        first_match(entries.drop_first(), mac)
    }
}

/// The order of the prefixes of a group: longer ones first, and among prefixes of one length
/// those first that came first in the file.
pub open spec fn precedes(a: OuiEntry, b: OuiEntry) -> bool {
    a.bits > b.bits || (a.bits == b.bits && a.vendor_idx < b.vendor_idx)
}

/// The records whose prefix can be read.
pub open spec fn accepted(raw: Seq<RawManufacturer>) -> Seq<RawManufacturer> {
    raw.filter(|m: RawManufacturer| prefix_of(m.mac_prefix@) is Some)
}

/// The first three bytes of a record's prefix.
pub open spec fn record_group(record: RawManufacturer) -> [u8; 3] {
    (prefix_of(record.mac_prefix@)->0).0
}

/// The entry for the record at a position.
pub open spec fn record_entry(records: Seq<RawManufacturer>, k: int) -> OuiEntry {
    let (group, prefix, bits) = prefix_of(records[k].mac_prefix@)->0;
    OuiEntry { prefix, bits, vendor_idx: k as u32 }
}

/// A group holds an entry for each record of that group and nothing else, in order.
pub open spec fn group_holds(
    entries: Seq<OuiEntry>,
    records: Seq<RawManufacturer>,
    group: [u8; 3],
) -> bool {
    &&& forall|i: int|
        0 <= i < entries.len() ==> (#[trigger] entries[i]).vendor_idx < records.len() && entries[i]
            == record_entry(records, entries[i].vendor_idx as int) && record_group(
            records[entries[i].vendor_idx as int],
        ) == group
    &&& forall|k: int|
        0 <= k < records.len() && record_group(#[trigger] records[k]) == group ==> entries.contains(
            record_entry(records, k),
        )
    &&& forall|i: int, j: int|
        0 <= i < j < entries.len() ==> precedes(#[trigger] entries[i], #[trigger] entries[j])
}

impl OuiDb {
    /// The prefixes of a group.
    pub open spec fn group(self, group: [u8; 3]) -> Seq<OuiEntry> {
        if self.map@.contains_key(group) {
            self.map@[group]@
        } else {
            Seq::empty()
        }
    }

    /// Each prefix is at most as long as a MAC and has a vendor.
    pub open spec fn wf(self) -> bool {
        forall|group: [u8; 3], i: int|
            0 <= i < self.group(group).len() ==> (#[trigger] self.group(group)[i]).bits <= 48
                && self.group(group)[i].vendor_idx < self.vendors@.len()
    }

    /// In each group longer prefixes come before shorter ones.
    pub open spec fn ordered(self) -> bool {
        forall|group: [u8; 3], i: int, j: int|
            0 <= i < j < self.group(group).len() ==> (#[trigger] self.group(group)[i]).bits >= (
            #[trigger] self.group(group)[j]).bits
    }

    /// Each prefix has 24 to 48 significant bits and occupies only these of a 48-bit number.
    pub open spec fn aligned(self) -> bool {
        forall|group: [u8; 3], i: int|
            0 <= i < self.group(group).len() ==> {
                let entry = #[trigger] self.group(group)[i];
                &&& 24 <= entry.bits <= 48
                &&& entry.prefix < 0x1_0000_0000_0000
                &&& entry.prefix as nat % pow2((48 - entry.bits) as nat) == 0
            }
    }

    /// The vendor of a MAC, if the database knows one: that of the first prefix in its group
    /// that covers it.
    pub open spec fn vendor_of(self, mac: [u8; 6]) -> Option<Seq<char>> {
        match first_match(self.group(group_of(mac)), mac) {
            Some(entry) => Some(self.vendors@[entry.vendor_idx as int]@),
            None => None,
        }
    }

    /// The database holds the readable records of a file.
    pub open spec fn loaded_from(self, raw: Seq<RawManufacturer>) -> bool {
        let records = accepted(raw);
        &&& self.vendors@.len() == records.len()
        &&& forall|k: int|
            0 <= k < records.len() ==> (#[trigger] self.vendors@[k])@ == records[k].vendor_name@
        &&& forall|group: [u8; 3]| #[trigger] group_holds(self.group(group), records, group)
        &&& forall|group: [u8; 3]| #[trigger]
            self.map@.contains_key(group) ==> self.map@[group]@.len() > 0
    }

    /// Files an entry in its group, after the entries that are at least as long. Returns the
    /// position that it got.
    fn file_entry(&mut self, group: [u8; 3], entry: OuiEntry) -> (pos: usize)
        requires
            forall|i: int, j: int|
                0 <= i < j < old(self).group(group).len() ==> (#[trigger] old(self).group(
                    group,
                )[i]).bits >= (#[trigger] old(self).group(group)[j]).bits,
        ensures
            final(self).vendors == old(self).vendors,
            pos <= old(self).group(group).len(),
            forall|i: int|
                0 <= i < pos ==> (#[trigger] old(self).group(group)[i]).bits >= entry.bits,
            forall|i: int|
                pos <= i < old(self).group(group).len() ==> (#[trigger] old(self).group(
                    group,
                )[i]).bits < entry.bits,
            final(self).group(group) == old(self).group(group).insert(pos as int, entry),
            forall|g: [u8; 3]| g != group ==> #[trigger] final(self).group(g) == old(self).group(g),
            forall|g: [u8; 3]|
                g != group ==> (#[trigger] final(self).map@.contains_key(g) <==> old(
                    self,
                ).map@.contains_key(g)),
    {
        let mut entries: Vec<OuiEntry> = match map_remove(&mut self.map, &group) {
            Some(entries) => entries,
            None => Vec::new(),
        };
        let ghost before = entries@;
        let mut pos: usize = entries.len();
        while pos > 0 && entries[pos - 1].bits < entry.bits
            invariant
                pos <= entries@.len(),
                entries@ == before,
                forall|i: int|
                    pos <= i < before.len() ==> (#[trigger] before[i]).bits < entry.bits,
            decreases pos,
        {
            pos = pos - 1;
        }
        assert forall|i: int| 0 <= i < pos implies (#[trigger] before[i]).bits >= entry.bits by {
            assert(before == old(self).group(group));
            assert(old(self).group(group)[i].bits >= old(self).group(group)[pos - 1].bits);
        }
        entries.insert(pos, entry);
        map_insert(&mut self.map, group, entries);
        pos
    }

    /// Builds the database from the records of a file. Records whose prefix cannot be read are
    /// left out; the second result says how many.
    pub fn load(raw: Vec<RawManufacturer>) -> (r: (OuiDb, u64))
        requires
            accepted(raw@).len() <= 0x1_0000_0000,
        ensures
            r.0.loaded_from(raw@),
            r.0.wf(),
            r.0.ordered(),
            r.0.aligned(),
            r.1 == raw@.len() - accepted(raw@).len(),
    {
        let ghost all = raw@;
        let count: usize = raw.len();
        let mut db = OuiDb { map: FxHashMap::default(), vendors: Vec::new() };
        let mut skipped: u64 = 0;
        proof {
            assert(all.take(0) =~= Seq::empty());
            reveal(Seq::filter);
        }
        for m in it: raw
            invariant
                it.seq() == all,
                all.len() == count,
                accepted(all).len() <= 0x1_0000_0000,
                db.loaded_from(all.take(it.index() as int)),
                skipped == it.index() - accepted(all.take(it.index() as int)).len(),
        {
            let ghost done = all.take(it.index() as int);
            let ghost next = all.take(it.index() as int + 1);
            let ghost records = accepted(done);
            let ghost before = db;
            proof {
                assert(next.drop_last() =~= done);
                assert(next.last() == m);
                reveal(Seq::filter);
                done.lemma_filter_len(|m: RawManufacturer| prefix_of(m.mac_prefix@) is Some);
            }
            match parse_prefix(m.mac_prefix.as_str()) {
                Some((group, prefix, bits)) => {
                    assert(accepted(next) == records.push(m));
                    proof {
                        lemma_accepted_grows(all, it.index() as int + 1);
                    }
                    assert(group_holds(db.group(group), records, group));
                    let vendor_idx: u32 = db.vendors.len() as u32;
                    let entry = OuiEntry { prefix, bits, vendor_idx };
                    db.vendors.push(m.vendor_name);
                    let pos = db.file_entry(group, entry);
                    assert forall|g: [u8; 3]| #[trigger]
                        group_holds(db.group(g), records.push(m), g) by {
                        assert(group_holds(before.group(g), records, g));
                        if g == group {
                            lemma_group_gains(before.group(g), records, m, pos as int);
                        } else {
                            lemma_group_stays(before.group(g), records, m, g);
                        }
                    }
                    assert forall|g: [u8; 3]| #[trigger] db.map@.contains_key(g) implies db.map@[g]@.len()
                        > 0 by {
                        if g != group {
                            assert(db.group(g) == before.group(g));
                        } else {
                            assert(db.group(g).len() > 0);
                        }
                    }
                },
                None => {
                    assert(accepted(next) == records);
                    skipped = skipped + 1;
                },
            }
        }
        assert(all.take(all.len() as int) =~= all);
        proof {
            lemma_loaded_is_wf(db, all);
        }
        (db, skipped)
    }

    /// The vendor of a MAC: that of the first prefix in its group that covers it. In a loaded
    /// database this is the most specific prefix of all that cover it.
    pub fn lookup(&self, mac: &[u8; 6]) -> (r: Option<&str>)
        requires
            self.wf(),
        ensures
            match r {
                Some(name) => self.vendor_of(*mac) == Some(name@),
                None => self.vendor_of(*mac) is None,
            },
    {
        let key: [u8; 3] = [mac[0], mac[1], mac[2]];
        assert(key =~= group_of(*mac));
        let entries = match map_get(&self.map, &key) {
            Some(entries) => entries,
            None => {
                return None;
            },
        };
        let mac_u48: u64 = mac48(mac);
        let mut i: usize = 0;
        assert(entries@.skip(0) =~= entries@);
        while i < entries.len()
            invariant
                i <= entries@.len(),
                self.wf(),
                entries@ == self.group(key),
                key == group_of(*mac),
                mac_u48 == mac_value(*mac),
                first_match(entries@.skip(i as int), *mac) == first_match(entries@, *mac),
            decreases entries@.len() - i,
        {
            let e = entries[i];
            assert(self.group(key)[i as int] == e);
            let shift: u32 = 48 - e.bits;
            proof {
                vstd::bits::lemma_u64_shr_is_div(mac_u48, shift as u64);
                vstd::bits::lemma_u64_shr_is_div(e.prefix, shift as u64);
            }
            assert(entries@.skip(i as int)[0] == e);
            assert(entries@.skip(i as int).drop_first() =~= entries@.skip(i + 1));
            if (mac_u48 >> shift) == (e.prefix >> shift) {
                return Some(self.vendors[e.vendor_idx as usize].as_str());
            }
            i = i + 1;
        }
        None
    }
}

// ---------------------------------------------------------------------------
// Proofs
// ---------------------------------------------------------------------------

/// A group that gets the entry of a new record at its place holds that record too.
proof fn lemma_group_gains(
    entries: Seq<OuiEntry>,
    records: Seq<RawManufacturer>,
    m: RawManufacturer,
    pos: int,
)
    requires
        records.len() < 0x1_0000_0000,
        prefix_of(m.mac_prefix@) is Some,
        group_holds(entries, records, record_group(m)),
        0 <= pos <= entries.len(),
        forall|i: int|
            0 <= i < pos ==> (#[trigger] entries[i]).bits >= (prefix_of(m.mac_prefix@)->0).2,
        forall|i: int|
            pos <= i < entries.len() ==> (#[trigger] entries[i]).bits < (prefix_of(
                m.mac_prefix@,
            )->0).2,
    ensures
        group_holds(
            entries.insert(pos, record_entry(records.push(m), records.len() as int)),
            records.push(m),
            record_group(m),
        ),
{
    let more = records.push(m);
    let entry = record_entry(more, records.len() as int);
    let grown = entries.insert(pos, entry);
    assert forall|i: int| 0 <= i < grown.len() implies (#[trigger] grown[i]).vendor_idx
        < more.len() && grown[i] == record_entry(more, grown[i].vendor_idx as int) && record_group(
        more[grown[i].vendor_idx as int],
    ) == record_group(m) by {
        if i < pos {
            assert(grown[i] == entries[i]);
        } else if i > pos {
            assert(grown[i] == entries[i - 1]);
        }
    }
    assert forall|k: int|
        0 <= k < more.len() && record_group(#[trigger] more[k]) == record_group(
            m,
        ) implies grown.contains(record_entry(more, k)) by {
        if k < records.len() {
            assert(more[k] == records[k]);
            let i = choose|i: int|
                0 <= i < entries.len() && entries[i] == record_entry(records, k);
            assert(grown[if i < pos { i } else { i + 1 }] == record_entry(more, k));
        } else {
            assert(grown[pos] == record_entry(more, k));
        }
    }
    assert forall|i: int, j: int| 0 <= i < j < grown.len() implies precedes(
        #[trigger] grown[i],
        #[trigger] grown[j],
    ) by {
        let (a, b) = (if i < pos { i } else { i - 1 }, if j < pos { j } else { j - 1 });
        if i == pos {
            assert(grown[j] == entries[b]);
        } else if j == pos {
            assert(grown[i] == entries[a]);
        } else {
            assert(grown[i] == entries[a] && grown[j] == entries[b]);
        }
    }
}

/// A group that a new record does not belong to stays as it is.
proof fn lemma_group_stays(
    entries: Seq<OuiEntry>,
    records: Seq<RawManufacturer>,
    m: RawManufacturer,
    group: [u8; 3],
)
    requires
        group_holds(entries, records, group),
        record_group(m) != group,
    ensures
        group_holds(entries, records.push(m), group),
{
    let more = records.push(m);
    assert forall|k: int| 0 <= k < more.len() && record_group(#[trigger] more[k]) == group implies
        entries.contains(record_entry(more, k)) by {
        assert(more[k] == records[k]);
        assert(record_entry(more, k) == record_entry(records, k));
    }
}

/// The first records of a file hold no more readable ones than the file.
proof fn lemma_accepted_grows(raw: Seq<RawManufacturer>, n: int)
    requires
        0 <= n <= raw.len(),
    ensures
        accepted(raw.take(n)).len() <= accepted(raw).len(),
    decreases raw.len() - n,
{
    if n == raw.len() {
        assert(raw.take(n) =~= raw);
    } else {
        reveal(Seq::filter);
        assert(raw.take(n + 1).drop_last() =~= raw.take(n));
        lemma_accepted_grows(raw, n + 1);
    }
}

/// A loaded database is well formed, ordered and aligned.
proof fn lemma_loaded_is_wf(db: OuiDb, raw: Seq<RawManufacturer>)
    requires
        db.loaded_from(raw),
    ensures
        db.wf(),
        db.ordered(),
        db.aligned(),
{
    let records = accepted(raw);
    assert forall|group: [u8; 3], i: int| 0 <= i < db.group(group).len() implies {
        let entry = #[trigger] db.group(group)[i];
        &&& 24 <= entry.bits <= 48
        &&& entry.prefix < 0x1_0000_0000_0000
        &&& entry.prefix as nat % pow2((48 - entry.bits) as nat) == 0
        &&& entry.vendor_idx < db.vendors@.len()
    } by {
        assert(group_holds(db.group(group), records, group));
        let k = db.group(group)[i].vendor_idx as int;
        raw.lemma_filter_pred(|m: RawManufacturer| prefix_of(m.mac_prefix@) is Some, k);
        law_prefix_shape(records[k].mac_prefix@);
    }
    assert forall|group: [u8; 3], i: int, j: int| 0 <= i < j < db.group(group).len() implies (
    #[trigger] db.group(group)[i]).bits >= (#[trigger] db.group(group)[j]).bits by {
        assert(group_holds(db.group(group), records, group));
        assert(precedes(db.group(group)[i], db.group(group)[j]));
    }
}

// ---------------------------------------------------------------------------
// Laws
// ---------------------------------------------------------------------------

/// The prefix of the record at a position covers a MAC.
pub open spec fn record_covers(records: Seq<RawManufacturer>, k: int, mac: [u8; 6]) -> bool {
    covers(record_entry(records, k), mac)
}

/// The record at a position names the vendor of a MAC: it belongs to the group of the MAC and
/// covers it, and so does no record with a longer prefix, nor an earlier one with a prefix of the
/// same length.
pub open spec fn names_vendor(records: Seq<RawManufacturer>, k: int, mac: [u8; 6]) -> bool {
    &&& 0 <= k < records.len()
    &&& record_group(records[k]) == group_of(mac)
    &&& record_covers(records, k, mac)
    &&& forall|l: int|
        0 <= l < records.len() && record_group(records[l]) == group_of(mac)
            && #[trigger] record_covers(records, l, mac) ==> l == k || precedes(
            record_entry(records, k),
            record_entry(records, l),
        )
}

/// The record at a position has the longest prefix that covers a MAC, the first of these.
pub open spec fn longest_match(records: Seq<RawManufacturer>, k: int, mac: [u8; 6]) -> bool {
    &&& 0 <= k < records.len()
    &&& record_covers(records, k, mac)
    &&& forall|l: int|
        0 <= l < records.len() && #[trigger] record_covers(records, l, mac) ==> l == k || precedes(
            record_entry(records, k),
            record_entry(records, l),
        )
}

/// In an ordered database, the prefix that decides on a vendor is the longest of its group that
/// covers the MAC. There is none exactly when no prefix of the group covers it.
pub proof fn law_longest_prefix_wins(db: OuiDb, mac: [u8; 6])
    requires
        db.ordered(),
    ensures
        match first_match(db.group(group_of(mac)), mac) {
            Some(entry) => {
                &&& db.group(group_of(mac)).contains(entry)
                &&& covers(entry, mac)
                &&& forall|i: int|
                    0 <= i < db.group(group_of(mac)).len() && covers(
                        #[trigger] db.group(group_of(mac))[i],
                        mac,
                    ) ==> db.group(group_of(mac))[i].bits <= entry.bits
            },
            None => forall|i: int|
                0 <= i < db.group(group_of(mac)).len() ==> !covers(
                    #[trigger] db.group(group_of(mac))[i],
                    mac,
                ),
        },
{
    let k = lemma_first_match(db.group(group_of(mac)), mac);
}

/// The vendor that a loaded database gives is that of the deciding record of the file; there is
/// none exactly when no readable record of the MAC's group covers it.
pub proof fn law_lookup_of_loaded(db: OuiDb, raw: Seq<RawManufacturer>, mac: [u8; 6])
    requires
        db.loaded_from(raw),
        accepted(raw).len() <= 0x1_0000_0000,
    ensures
        match db.vendor_of(mac) {
            Some(name) => exists|k: int| #[trigger]
                names_vendor(accepted(raw), k, mac) && name == accepted(raw)[k].vendor_name@,
            None => forall|k: int|
                0 <= k < accepted(raw).len() && record_group(#[trigger] accepted(raw)[k])
                    == group_of(mac) ==> !record_covers(accepted(raw), k, mac),
        },
{
    let records = accepted(raw);
    let group = group_of(mac);
    let entries = db.group(group);
    assert(group_holds(entries, records, group));
    let i = lemma_first_match(entries, mac);
    match first_match(entries, mac) {
        Some(entry) => {
            let k = entry.vendor_idx as int;
            assert(entries[i] == entry);
            assert forall|l: int|
                0 <= l < records.len() && record_group(records[l]) == group
                    && #[trigger] record_covers(records, l, mac) implies l == k || precedes(
                record_entry(records, k),
                record_entry(records, l),
            ) by {
                assert(record_group(records[l]) == group);
                let j = choose|j: int|
                    0 <= j < entries.len() && entries[j] == record_entry(records, l);
                assert(covers(entries[j], mac));
                assert(i <= j);
            }
            assert(names_vendor(records, k, mac));
        },
        None => {
            assert forall|k: int|
                0 <= k < records.len() && record_group(#[trigger] records[k])
                    == group implies !record_covers(records, k, mac) by {
                let j = choose|j: int|
                    0 <= j < entries.len() && entries[j] == record_entry(records, k);
                assert(!covers(entries[j], mac));
            }
        },
    }
}

/// Longest prefix match. The vendor of a MAC is that of the longest prefix of the file that covers
/// it, whatever its group, and the first of these in the file; there is none exactly when no
/// prefix covers the MAC.
pub proof fn law_longest_prefix_match(db: OuiDb, raw: Seq<RawManufacturer>, mac: [u8; 6])
    requires
        db.loaded_from(raw),
        accepted(raw).len() <= 0x1_0000_0000,
    ensures
        match db.vendor_of(mac) {
            Some(name) => exists|k: int| #[trigger]
                longest_match(accepted(raw), k, mac) && name == accepted(raw)[k].vendor_name@,
            None => forall|k: int|
                0 <= k < accepted(raw).len() ==> !#[trigger] record_covers(accepted(raw), k, mac),
        },
{
    let records = accepted(raw);
    law_lookup_of_loaded(db, raw, mac);
    assert forall|k: int|
        0 <= k < records.len() && #[trigger] record_covers(records, k, mac) implies record_group(
        records[k],
    ) == group_of(mac) by {
        raw.lemma_filter_pred(|m: RawManufacturer| prefix_of(m.mac_prefix@) is Some, k);
        lemma_cover_decides_group(records[k], mac);
    }
    if db.vendor_of(mac) is Some {
        let k = choose|k: int| #[trigger]
            names_vendor(records, k, mac) && db.vendor_of(mac) == Some(
                accepted(raw)[k].vendor_name@,
            );
        assert(longest_match(records, k, mac));
    }
}

/// A record covers a MAC with more bits than each readable record of a file that covers it.
pub open spec fn beats_all(
    record: RawManufacturer,
    records: Seq<RawManufacturer>,
    mac: [u8; 6],
) -> bool {
    &&& prefix_of(record.mac_prefix@) is Some
    &&& record_covers(seq![record], 0, mac)
    &&& forall|k: int|
        0 <= k < records.len() && #[trigger] record_covers(records, k, mac) ==> record_entry(
            records,
            k,
        ).bits < record_entry(seq![record], 0).bits
}

/// One more record at the end of a file names the vendor of the MACs that it covers with more
/// bits than all records before it. For all other MACs the answer stays as it was. So a record
/// more never makes a known vendor unknown.
pub proof fn law_appended_record(
    db: OuiDb,
    grown: OuiDb,
    raw: Seq<RawManufacturer>,
    record: RawManufacturer,
    mac: [u8; 6],
)
    requires
        db.loaded_from(raw),
        grown.loaded_from(raw.push(record)),
        accepted(raw.push(record)).len() <= 0x1_0000_0000,
    ensures
        grown.vendor_of(mac) == if beats_all(record, accepted(raw), mac) {
            Some(record.vendor_name@)
        } else {
            db.vendor_of(mac)
        },
        db.vendor_of(mac) is Some ==> grown.vendor_of(mac) is Some,
{
    let records = accepted(raw);
    let more = accepted(raw.push(record));
    let last = records.len() as int;
    reveal(Seq::filter);
    assert(raw.push(record).drop_last() =~= raw);
    law_longest_prefix_match(db, raw, mac);
    law_longest_prefix_match(grown, raw.push(record), mac);
    if prefix_of(record.mac_prefix@) is Some {
        assert(more == records.push(record));
        assert forall|k: int| 0 <= k < last implies #[trigger] record_entry(more, k)
            == record_entry(records, k) by {}
        assert forall|k: int| 0 <= k < last implies #[trigger] record_covers(more, k, mac)
            == record_covers(records, k, mac) by {
            assert(record_entry(more, k) == record_entry(records, k));
        }
        assert(record_covers(more, last, mac) == record_covers(seq![record], 0, mac));
    } else {
        assert(more == records);
    }
    if grown.vendor_of(mac) is Some {
        let k = choose|k: int| #[trigger]
            longest_match(more, k, mac) && grown.vendor_of(mac) == Some(more[k].vendor_name@);
        assert(record_covers(more, k, mac));
        if k < last {
            assert(record_covers(records, k, mac));
        }
        if db.vendor_of(mac) is Some {
            let l = choose|l: int| #[trigger]
                longest_match(records, l, mac) && db.vendor_of(mac) == Some(records[l].vendor_name@);
            assert(record_covers(records, l, mac));
            assert(record_covers(more, l, mac));
        }
    } else if db.vendor_of(mac) is Some {
        let l = choose|l: int| #[trigger]
            longest_match(records, l, mac) && db.vendor_of(mac) == Some(records[l].vendor_name@);
        assert(record_covers(more, l, mac));
    }
}

/// A prefix covers a MAC exactly when they agree in their first `bits` bits, byte by byte: in whole
/// bytes at first, in the upper bits of the byte where the prefix ends, and not at all after that.
pub proof fn law_covers_by_bytes(entry: OuiEntry, mac: [u8; 6])
    requires
        entry.bits <= 48,
        entry.prefix < 0x1_0000_0000_0000,
    ensures
        ({
            let w = entry.prefix as nat;
            let free = 48 - entry.bits;
            let unit = |k: int|
                if free >= 8 * k + 8 {
                    256nat
                } else if free <= 8 * k {
                    1nat
                } else {
                    pow2((free - 8 * k) as nat)
                };
            covers(entry, mac) <==> {
                &&& mac[0] as nat / unit(5) == w / 0x100_0000_0000 % 256 / unit(5)
                &&& mac[1] as nat / unit(4) == w / 0x1_0000_0000 % 256 / unit(4)
                &&& mac[2] as nat / unit(3) == w / 0x100_0000 % 256 / unit(3)
                &&& mac[3] as nat / unit(2) == w / 0x1_0000 % 256 / unit(2)
                &&& mac[4] as nat / unit(1) == w / 0x100 % 256 / unit(1)
                &&& mac[5] as nat / unit(0) == w % 256 / unit(0)
            }
        }),
{
    let (v, w) = (mac_value(mac), entry.prefix as nat);
    let free = (48 - entry.bits) as nat;
    law_mac48_bytes(mac, v as u64);
    lemma_top_bits_by_bytes(v, w, free);
}

/// Numbers of 48 bits agree above their lowest `free` bits exactly when their bytes do.
proof fn lemma_top_bits_by_bytes(v: nat, w: nat, free: nat)
    requires
        v < 0x1_0000_0000_0000,
        w < 0x1_0000_0000_0000,
        free <= 48,
    ensures
        ({
            let unit = |k: int|
                if free >= 8 * k + 8 {
                    256nat
                } else if free <= 8 * k {
                    1nat
                } else {
                    pow2((free - 8 * k) as nat)
                };
            v / pow2(free) == w / pow2(free) <==> {
                &&& v / 0x100_0000_0000 % 256 / unit(5) == w / 0x100_0000_0000 % 256 / unit(5)
                &&& v / 0x1_0000_0000 % 256 / unit(4) == w / 0x1_0000_0000 % 256 / unit(4)
                &&& v / 0x100_0000 % 256 / unit(3) == w / 0x100_0000 % 256 / unit(3)
                &&& v / 0x1_0000 % 256 / unit(2) == w / 0x1_0000 % 256 / unit(2)
                &&& v / 0x100 % 256 / unit(1) == w / 0x100 % 256 / unit(1)
                &&& v % 256 / unit(0) == w % 256 / unit(0)
            }
        }),
{
    let m = free / 8;
    let t = free % 8;
    lemma_heads(v);
    lemma_heads(w);
    vstd::arithmetic::power2::lemma2_to64();
    vstd::arithmetic::power2::lemma_pow2_adds(8 * m, t);
    vstd::arithmetic::power2::lemma_pow2_pos(8 * m);
    vstd::arithmetic::power2::lemma_pow2_pos(t);
    vstd::arithmetic::div_mod::lemma_div_denominator(v as int, pow2(8 * m) as int, pow2(t) as int);
    vstd::arithmetic::div_mod::lemma_div_denominator(w as int, pow2(8 * m) as int, pow2(t) as int);
    assert(8 * m + t == free);
    let unit = |k: int|
        if free >= 8 * k + 8 {
            256nat
        } else if free <= 8 * k {
            1nat
        } else {
            pow2((free - 8 * k) as nat)
        };
    lemma_free_bytes(v);
    lemma_free_bytes(w);
    if m == 0 {
        assert(pow2(8 * m) == 0x1);
        assert(unit(0) == pow2(t) && unit(1) == 1 && unit(2) == 1 && unit(3) == 1 && unit(4) == 1 && unit(5) == 1);
        lemma_byte_splits(
            v / 0x100,
            v % 256,
            w / 0x100,
            w % 256,
            t,
        );
    } else if m == 1 {
        assert(pow2(8 * m) == 0x100);
        assert(unit(0) == 256 && unit(1) == pow2(t) && unit(2) == 1 && unit(3) == 1 && unit(4) == 1 && unit(5) == 1);
        lemma_byte_splits(
            v / 0x1_0000,
            v / 0x100 % 256,
            w / 0x1_0000,
            w / 0x100 % 256,
            t,
        );
    } else if m == 2 {
        assert(pow2(8 * m) == 0x1_0000);
        assert(unit(0) == 256 && unit(1) == 256 && unit(2) == pow2(t) && unit(3) == 1 && unit(4) == 1 && unit(5) == 1);
        lemma_byte_splits(
            v / 0x100_0000,
            v / 0x1_0000 % 256,
            w / 0x100_0000,
            w / 0x1_0000 % 256,
            t,
        );
    } else if m == 3 {
        assert(pow2(8 * m) == 0x100_0000);
        assert(unit(0) == 256 && unit(1) == 256 && unit(2) == 256 && unit(3) == pow2(t) && unit(4) == 1 && unit(5) == 1);
        lemma_byte_splits(
            v / 0x1_0000_0000,
            v / 0x100_0000 % 256,
            w / 0x1_0000_0000,
            w / 0x100_0000 % 256,
            t,
        );
    } else if m == 4 {
        assert(pow2(8 * m) == 0x1_0000_0000);
        assert(unit(0) == 256 && unit(1) == 256 && unit(2) == 256 && unit(3) == 256 && unit(4) == pow2(t) && unit(5) == 1);
        lemma_byte_splits(
            v / 0x100_0000_0000,
            v / 0x1_0000_0000 % 256,
            w / 0x100_0000_0000,
            w / 0x1_0000_0000 % 256,
            t,
        );
    } else if m == 5 {
        vstd::arithmetic::power2::lemma_pow2_adds(32, 8);
        assert(pow2(8 * m) == 0x100_0000_0000);
        assert(unit(0) == 256 && unit(1) == 256 && unit(2) == 256 && unit(3) == 256 && unit(4) == 256 && unit(5) == pow2(t));
        lemma_byte_splits(
            0,
            v / 0x100_0000_0000 % 256,
            0,
            w / 0x100_0000_0000 % 256,
            t,
        );
    } else {
        assert(free == 48);
        assert(unit(0) == 256 && unit(1) == 256 && unit(2) == 256 && unit(3) == 256 && unit(4) == 256
            && unit(5) == 256);
        vstd::arithmetic::power2::lemma_pow2_adds(32, 16);
        assert(pow2(48) == 0x1_0000_0000_0000);
    }
}

/// What lies below the upper bits of a byte that is cut off as a whole.
proof fn lemma_free_bytes(v: nat)
    ensures
        v / 0x100_0000_0000 % 256 / 256 == 0,
        v / 0x1_0000_0000 % 256 / 256 == 0,
        v / 0x100_0000 % 256 / 256 == 0,
        v / 0x1_0000 % 256 / 256 == 0,
        v / 0x100 % 256 / 256 == 0,
        v % 256 / 256 == 0,
{
}

/// A number of 48 bits, cut after each of its bytes.
proof fn lemma_heads(v: nat)
    requires
        v < 0x1_0000_0000_0000,
    ensures
        v == 256 * (v / 0x100) + v % 256,
        v / 0x100 == 256 * (v / 0x1_0000) + v / 0x100 % 256,
        v / 0x1_0000 == 256 * (v / 0x100_0000) + v / 0x1_0000 % 256,
        v / 0x100_0000 == 256 * (v / 0x1_0000_0000) + v / 0x100_0000 % 256,
        v / 0x1_0000_0000 == 256 * (v / 0x100_0000_0000) + v / 0x1_0000_0000 % 256,
        v / 0x100_0000_0000 == v / 0x100_0000_0000 % 256,
        v / 0x1_0000_0000_0000 == 0,
{
}

/// Numbers that are cut within their last byte agree exactly when they agree in what comes before
/// it and in the upper bits of that byte.
proof fn lemma_byte_splits(a: nat, x: nat, b: nat, y: nat, t: nat)
    requires
        x < 256,
        y < 256,
        t < 8,
    ensures
        (256 * a + x) / pow2(t) == (256 * b + y) / pow2(t) <==> a == b && x / pow2(t) == y / pow2(t),
{
    vstd::arithmetic::power2::lemma2_to64();
    if t == 0 {
        assert(pow2(t) == 1);
        assert((256 * a + x) / 1 == 256 * a + x / 1 && x / 1 < 256);
        assert((256 * b + y) / 1 == 256 * b + y / 1 && y / 1 < 256);
    } else if t == 1 {
        assert(pow2(t) == 2);
        assert((256 * a + x) / 2 == 128 * a + x / 2 && x / 2 < 128);
        assert((256 * b + y) / 2 == 128 * b + y / 2 && y / 2 < 128);
    } else if t == 2 {
        assert(pow2(t) == 4);
        assert((256 * a + x) / 4 == 64 * a + x / 4 && x / 4 < 64);
        assert((256 * b + y) / 4 == 64 * b + y / 4 && y / 4 < 64);
    } else if t == 3 {
        assert(pow2(t) == 8);
        assert((256 * a + x) / 8 == 32 * a + x / 8 && x / 8 < 32);
        assert((256 * b + y) / 8 == 32 * b + y / 8 && y / 8 < 32);
    } else if t == 4 {
        assert(pow2(t) == 16);
        assert((256 * a + x) / 16 == 16 * a + x / 16 && x / 16 < 16);
        assert((256 * b + y) / 16 == 16 * b + y / 16 && y / 16 < 16);
    } else if t == 5 {
        assert(pow2(t) == 32);
        assert((256 * a + x) / 32 == 8 * a + x / 32 && x / 32 < 8);
        assert((256 * b + y) / 32 == 8 * b + y / 32 && y / 32 < 8);
    } else if t == 6 {
        assert(pow2(t) == 64);
        assert((256 * a + x) / 64 == 4 * a + x / 64 && x / 64 < 4);
        assert((256 * b + y) / 64 == 4 * b + y / 64 && y / 64 < 4);
    } else {
        assert(pow2(t) == 128);
        assert((256 * a + x) / 128 == 2 * a + x / 128 && x / 128 < 2);
        assert((256 * b + y) / 128 == 2 * b + y / 128 && y / 128 < 2);
    }
}

/// Blocks of one length do not overlap: two prefixes of the same number of bits that cover the
/// same MAC are the same prefix.
pub proof fn law_blocks_do_not_overlap(a: OuiEntry, b: OuiEntry, mac: [u8; 6])
    requires
        a.bits == b.bits,
        a.bits <= 48,
        a.prefix as nat % pow2((48 - a.bits) as nat) == 0,
        b.prefix as nat % pow2((48 - b.bits) as nat) == 0,
        covers(a, mac),
        covers(b, mac),
    ensures
        a.prefix == b.prefix,
{
    let p = pow2((48 - a.bits) as nat) as int;
    vstd::arithmetic::power2::lemma_pow2_pos((48 - a.bits) as nat);
    vstd::arithmetic::div_mod::lemma_fundamental_div_mod(a.prefix as int, p);
    vstd::arithmetic::div_mod::lemma_fundamental_div_mod(b.prefix as int, p);
}

/// A MAC lies in the block of a prefix of 24 to 48 bits: the first three bytes are the same, and
/// of the other three the bits that the prefix reaches.
pub open spec fn same_block(mac: [u8; 6], prefix: u64, bits: u32) -> bool {
    let w = prefix as nat;
    &&& mac[0] == w / 0x100_0000_0000
    &&& mac[1] == w / 0x1_0000_0000 % 256
    &&& mac[2] == w / 0x100_0000 % 256
    &&& if bits <= 32 {
        mac[3] as nat / pow2((32 - bits) as nat) == w / 0x1_0000 % 256 / pow2((32 - bits) as nat)
    } else if bits <= 40 {
        &&& mac[3] == w / 0x1_0000 % 256
        &&& mac[4] as nat / pow2((40 - bits) as nat) == w / 0x100 % 256 / pow2((40 - bits) as nat)
    } else {
        &&& mac[3] == w / 0x1_0000 % 256
        &&& mac[4] == w / 0x100 % 256
        &&& mac[5] as nat / pow2((48 - bits) as nat) == w % 256 / pow2((48 - bits) as nat)
    }
}

/// The record has a readable prefix, and a MAC lies in its block.
pub open spec fn in_block_of(record: RawManufacturer, mac: [u8; 6]) -> bool {
    prefix_of(record.mac_prefix@) matches Some((key, prefix, bits)) && same_block(mac, prefix, bits)
}

/// The significant bits of a record's prefix.
pub open spec fn record_bits(record: RawManufacturer) -> u32 {
    (prefix_of(record.mac_prefix@)->0).2
}

/// A name is the vendor of a MAC by a file: that of the record with the longest prefix in whose
/// block the MAC lies, the first of these.
pub open spec fn vendor_by_file(
    name: Seq<char>,
    raw: Seq<RawManufacturer>,
    mac: [u8; 6],
) -> bool {
    exists|k: int|
        0 <= k < raw.len() && in_block_of(#[trigger] raw[k], mac) && name == raw[k].vendor_name@ && (
        forall|l: int|
            0 <= l < raw.len() && l != k && in_block_of(#[trigger] raw[l], mac) ==> record_bits(
                raw[l],
            ) < record_bits(raw[k]) || (record_bits(raw[l]) == record_bits(raw[k]) && k < l))
}

/// In the block of a prefix of 24 bits lie the MACs with its first three bytes; in that of a prefix
/// of 28 bits those that have also the upper half of its fourth byte; in that of a prefix of 36 bits
/// those that have also all of its fourth byte and the upper half of its fifth; in that of a prefix
/// of 48 bits the one MAC with its six bytes.
pub proof fn law_assigned_blocks(prefix: u64, mac: [u8; 6])
    requires
        prefix < 0x1_0000_0000_0000,
    ensures
        ({
            let w = prefix as nat;
            let three = mac[0] == w / 0x100_0000_0000 && mac[1] == w / 0x1_0000_0000 % 256 && mac[2]
                == w / 0x100_0000 % 256;
            &&& same_block(mac, prefix, 24) <==> three
            &&& same_block(mac, prefix, 28) <==> three && mac[3] as nat / 16 == w / 0x1_0000 % 256
                / 16
            &&& same_block(mac, prefix, 36) <==> three && mac[3] == w / 0x1_0000 % 256
                && mac[4] as nat / 16 == w / 0x100 % 256 / 16
            &&& same_block(mac, prefix, 48) <==> three && mac[3] == w / 0x1_0000 % 256 && mac[4] == w
                / 0x100 % 256 && mac[5] == w % 256
        }),
{
    let w = prefix as nat;
    lemma_free_bytes(w);
    vstd::arithmetic::power2::lemma2_to64();
    assert(pow2(8) == 256 && pow2(0) == 1 && pow2(4) == 16);
    assert(mac[3] as nat / 256 == 0);
    assert(w % 256 / 1 == w % 256 && mac[5] as nat / 1 == mac[5]);
}

/// A prefix covers the MACs in its block.
proof fn lemma_covers_block(entry: OuiEntry, mac: [u8; 6])
    requires
        24 <= entry.bits <= 48,
        entry.prefix < 0x1_0000_0000_0000,
    ensures
        covers(entry, mac) <==> same_block(mac, entry.prefix, entry.bits),
{
    let w = entry.prefix as nat;
    let free = 48 - entry.bits;
    let unit = |k: int|
        if free >= 8 * k + 8 {
            256nat
        } else if free <= 8 * k {
            1nat
        } else {
            pow2((free - 8 * k) as nat)
        };
    law_covers_by_bytes(entry, mac);
    lemma_free_bytes(w);
    assert(w / 0x100_0000_0000 == w / 0x100_0000_0000 % 256);
    vstd::arithmetic::power2::lemma2_to64();
    assert(pow2(8) == 256 && pow2(0) == 1);
    assert(unit(5) == 1 && unit(4) == 1 && unit(3) == 1);
    assert(mac[3] as nat / 256 == 0 && mac[4] as nat / 256 == 0 && mac[5] as nat / 256 == 0);
    if entry.bits <= 32 {
        assert(unit(2) == pow2((32 - entry.bits) as nat) && unit(1) == 256 && unit(0) == 256);
    } else if entry.bits <= 40 {
        assert(unit(2) == 1 && unit(1) == pow2((40 - entry.bits) as nat) && unit(0) == 256);
    } else {
        assert(unit(2) == 1 && unit(1) == 1 && unit(0) == pow2((48 - entry.bits) as nat));
    }
}

/// An element at a position has a property.
spec fn holds_at<A>(s: Seq<A>, pred: spec_fn(A) -> bool, i: int) -> bool {
    0 <= i < s.len() && pred(s[i])
}

/// Where the elements of a sequence that a filter keeps stand in it.
proof fn lemma_filter_positions<A>(s: Seq<A>, pred: spec_fn(A) -> bool) -> (at: Seq<int>)
    ensures
        at.len() == s.filter(pred).len(),
        forall|k: int|
            0 <= k < at.len() ==> 0 <= #[trigger] at[k] < s.len() && s[at[k]] == s.filter(pred)[k],
        forall|k: int, l: int| 0 <= k < l < at.len() ==> at[k] < at[l],
        forall|i: int| #[trigger] holds_at(s, pred, i) ==> at.contains(i),
    decreases s.len(),
{
    reveal(Seq::filter);
    if s.len() == 0 {
        Seq::empty()
    } else {
        let rest = s.drop_last();
        let before = lemma_filter_positions(rest, pred);
        let at = if pred(s.last()) {
            before.push(s.len() - 1)
        } else {
            before
        };
        assert forall|k: int| 0 <= k < at.len() implies 0 <= #[trigger] at[k] < s.len() && s[at[k]]
            == s.filter(pred)[k] by {
            if k < before.len() {
                assert(at[k] == before[k]);
                assert(s[at[k]] == rest[before[k]]);
            }
        }
        assert forall|i: int| #[trigger] holds_at(s, pred, i) implies at.contains(i) by {
            if i < s.len() - 1 {
                assert(holds_at(rest, pred, i));
                let k = choose|k: int| 0 <= k < before.len() && before[k] == i;
                assert(at[k] == i);
            } else {
                assert(at[at.len() - 1] == i);
            }
        }
        at
    }
}

/// The vendor that a loaded database gives for a MAC is the vendor by its file, character for
/// character; there is none exactly when the MAC lies in the block of no readable record.
pub proof fn law_vendor_of_file(db: OuiDb, raw: Seq<RawManufacturer>, mac: [u8; 6])
    requires
        db.loaded_from(raw),
        accepted(raw).len() <= 0x1_0000_0000,
    ensures
        match db.vendor_of(mac) {
            Some(name) => vendor_by_file(name, raw, mac),
            None => forall|k: int| 0 <= k < raw.len() ==> !in_block_of(#[trigger] raw[k], mac),
        },
{
    let records = accepted(raw);
    let readable = |m: RawManufacturer| prefix_of(m.mac_prefix@) is Some;
    let at = lemma_filter_positions(raw, readable);
    law_longest_prefix_match(db, raw, mac);
    assert forall|k: int| 0 <= k < records.len() implies (#[trigger] record_covers(records, k, mac)
        <==> in_block_of(raw[at[k]], mac)) && record_entry(records, k).bits == record_bits(
        raw[at[k]],
    ) && record_entry(records, k).vendor_idx == k by {
        assert(raw[at[k]] == records[k]);
        raw.lemma_filter_pred(|m: RawManufacturer| prefix_of(m.mac_prefix@) is Some, k);
        law_prefix_shape(records[k].mac_prefix@);
        lemma_covers_block(record_entry(records, k), mac);
    }
    match db.vendor_of(mac) {
        Some(name) => {
            let k = choose|k: int| #[trigger]
                longest_match(records, k, mac) && name == records[k].vendor_name@;
            assert(record_covers(records, k, mac));
            assert forall|i: int|
                0 <= i < raw.len() && i != at[k] && in_block_of(#[trigger] raw[i], mac) implies record_bits(
                raw[i],
            ) < record_bits(raw[at[k]]) || (record_bits(raw[i]) == record_bits(raw[at[k]]) && at[k]
                < i) by {
                assert(holds_at(raw, readable, i));
                let l = choose|l: int| 0 <= l < at.len() && at[l] == i;
                assert(record_covers(records, l, mac));
            }
            assert(raw[at[k]] == records[k]);
        },
        None => {
            assert forall|i: int| 0 <= i < raw.len() implies !in_block_of(#[trigger] raw[i], mac) by {
                if in_block_of(raw[i], mac) {
                    assert(holds_at(raw, readable, i));
                    let l = choose|l: int| 0 <= l < at.len() && at[l] == i;
                    assert(record_covers(records, l, mac));
                }
            }
        },
    }
}

/// What `load` and `lookup` do together. A file whose readable prefixes can be numbered can be
/// loaded, and any MAC can be looked up in what was loaded. The answer is the vendor by the file.
/// The second result of `load` is the number of records without a readable prefix, and all others
/// are in the database.
pub proof fn law_load_and_lookup(
    raw: Vec<RawManufacturer>,
    loaded: (OuiDb, u64),
    mac: [u8; 6],
    answer: Option<&str>,
)
    requires
        raw@.filter(|m: RawManufacturer| prefix_of(m.mac_prefix@) is Some).len() <= 0x1_0000_0000,
    ensures
        call_requires(OuiDb::load, (raw,)),
        call_ensures(OuiDb::load, (raw,), loaded) ==> {
            &&& loaded.1 == raw@.filter(|m: RawManufacturer| prefix_of(m.mac_prefix@) is None).len()
            &&& loaded.0.vendors@.len() + loaded.1 == raw@.len()
            &&& call_requires(OuiDb::lookup, (&loaded.0, &mac))
            &&& call_ensures(OuiDb::lookup, (&loaded.0, &mac), answer) ==> match answer {
                Some(name) => vendor_by_file(name@, raw@, mac),
                None => forall|k: int| 0 <= k < raw@.len() ==> !in_block_of(#[trigger] raw@[k], mac),
            }
        },
{
    lemma_two_filters(raw@);
    assert(accepted(raw@) == raw@.filter(
        |m: RawManufacturer| prefix_of(m.mac_prefix@) is Some,
    ));
    if call_ensures(OuiDb::load, (raw,), loaded) {
        law_vendor_of_file(loaded.0, raw@, mac);
    }
}

/// Each record has a readable prefix or has none.
proof fn lemma_two_filters(raw: Seq<RawManufacturer>)
    ensures
        accepted(raw).len() + raw.filter(
            |m: RawManufacturer| prefix_of(m.mac_prefix@) is None,
        ).len() == raw.len(),
    decreases raw.len(),
{
    reveal(Seq::filter);
    if raw.len() > 0 {
        lemma_two_filters(raw.drop_last());
    }
}

/// What `lookup` gives in any database whose prefixes have at most 48 bits and a vendor: the vendor
/// of the first prefix that covers the MAC among those filed under the first three bytes of it.
pub proof fn law_lookup(db: OuiDb, mac: [u8; 6], answer: Option<&str>)
    requires
        forall|group: [u8; 3], i: int| #![trigger db.map@[group]@[i]]
            db.map@.contains_key(group) && 0 <= i < db.map@[group]@.len() ==> db.map@[group]@[i].bits
                <= 48 && db.map@[group]@[i].vendor_idx < db.vendors@.len(),
    ensures
        call_requires(OuiDb::lookup, (&db, &mac)),
        call_ensures(OuiDb::lookup, (&db, &mac), answer) ==> {
            let group = [mac[0], mac[1], mac[2]];
            let entries = db.map@[group]@;
            match answer {
                Some(name) => db.vendor_of(mac) == Some(name@) && db.map@.contains_key(group) && exists|i: int|
                    0 <= i < entries.len() && covers(#[trigger] entries[i], mac) && name@
                        == db.vendors@[entries[i].vendor_idx as int]@ && forall|j: int|
                        0 <= j < i ==> !covers(#[trigger] entries[j], mac),
                None => db.vendor_of(mac) is None && (db.map@.contains_key(group) ==> forall|i: int|
                    0 <= i < entries.len() ==> !covers(#[trigger] entries[i], mac)),
            }
        },
{
    let k = lemma_first_match(db.group(group_of(mac)), mac);
    assert forall|group: [u8; 3], i: int| 0 <= i < db.group(group).len() implies (
    #[trigger] db.group(group)[i]).bits <= 48 && db.group(group)[i].vendor_idx
        < db.vendors@.len() by {
        assert(db.map@[group]@[i].bits <= 48);
    }
    assert(db.wf());
}

/// Where `first_match` finds its prefix.
proof fn lemma_first_match(entries: Seq<OuiEntry>, mac: [u8; 6]) -> (k: int)
    ensures
        match first_match(entries, mac) {
            Some(entry) => {
                &&& 0 <= k < entries.len()
                &&& entries[k] == entry
                &&& covers(entry, mac)
                &&& forall|i: int| 0 <= i < k ==> !covers(#[trigger] entries[i], mac)
            },
            None => forall|i: int| 0 <= i < entries.len() ==> !covers(#[trigger] entries[i], mac),
        },
    decreases entries.len(),
{
    if entries.len() == 0 || covers(entries[0], mac) {
        0
    } else {
        let rest = entries.drop_first();
        let k = lemma_first_match(rest, mac);
        assert forall|i: int|
            0 <= i < entries.len() && (first_match(entries, mac) is Some ==> i < k
                + 1) implies !covers(#[trigger] entries[i], mac) by {
            if i > 0 {
                assert(entries[i] == rest[i - 1]);
            }
        }
        k + 1
    }
}

/// A prefix covers only MACs of its own group.
proof fn lemma_cover_decides_group(m: RawManufacturer, mac: [u8; 6])
    requires
        prefix_of(m.mac_prefix@) is Some,
        ({
            let (group, prefix, bits) = prefix_of(m.mac_prefix@)->0;
            top_bits(mac_value(mac), bits as nat) == top_bits(prefix as nat, bits as nat)
        }),
    ensures
        record_group(m) == group_of(mac),
{
    let (group, prefix, bits) = prefix_of(m.mac_prefix@)->0;
    law_prefix_shape(m.mac_prefix@);
    lemma_key_of_block(group, prefix, bits, mac);
}

/// A prefix of at least 24 bits covers only MACs with the first three bytes of it.
proof fn lemma_key_of_block(key: [u8; 3], prefix: u64, bits: u32, mac: [u8; 6])
    requires
        24 <= bits <= 48,
        prefix / 0x100_0000 == key[0] * 0x1_0000 + key[1] * 0x100 + key[2],
        top_bits(mac_value(mac), bits as nat) == top_bits(prefix as nat, bits as nat),
    ensures
        key == group_of(mac),
{
    law_mac48_upper_half(mac);
    law_fewer_bits_agree(mac_value(mac), prefix as nat, bits as nat, 24);
    vstd::arithmetic::power2::lemma2_to64();
    assert(pow2(24) == 0x100_0000);
    assert(mac_value(mac) / 0x100_0000 == prefix / 0x100_0000);
    assert(key[0] == mac[0] && key[1] == mac[1] && key[2] == mac[2]);
    assert(key =~= group_of(mac));
}

} // verus!
