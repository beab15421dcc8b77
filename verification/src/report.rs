//! The report: one row for each device, busiest first, and its table.

use crate::fxmap::map_entries;
use crate::inventory::{
    counts_fit, inventory_of, law_capture_counts, law_inventory_counts, lemma_how_many_at_most_all, sent_by, sent_to,
    stats_of, DeviceStats, Inventory,
};
use crate::mac::{
    format_mac, is_locally_administered, is_multicast, law_flags, law_format_mac_injective,
    law_format_mac_order, law_mac48_injective, locally_administered, mac_text, mac_value, multicast,
};
use crate::oui::{accepted, in_block_of, law_vendor_of_file, vendor_by_file, OuiDb, RawManufacturer};
use crate::ranking::{lemma_same_devices, rank, ranked, ranks_before, total_of, Device};
use crate::text::{
    decimal, decimal_text, law_decimal, left_aligned, push_left, push_right, right_aligned, smaller_at,
    text_before,
};
use vstd::prelude::*;

verus! {

/// A row of the report.
#[derive(Debug, PartialEq, Eq)]
pub struct DeviceRow {
    pub mac: String,
    pub vendor: String,
    pub src_count: u64,
    pub dst_count: u64,
    pub total: u64,
    pub multicast: bool,
    pub locally_administered: bool,
}

/// The vendor that a row names: `Unknown` where the database knows none.
pub open spec fn vendor_name(oui: OuiDb, mac: [u8; 6]) -> Seq<char> {
    match oui.vendor_of(mac) {
        Some(name) => name,
        None => "Unknown"@,
    }
}

/// A row describes a device.
pub open spec fn describes(row: DeviceRow, mac: [u8; 6], stats: DeviceStats, oui: OuiDb) -> bool {
    &&& row.mac@ == mac_text(mac)
    &&& row.vendor@ == vendor_name(oui, mac)
    &&& row.src_count == stats.src_count
    &&& row.dst_count == stats.dst_count
    &&& row.total == total_of(stats)
    &&& row.multicast == multicast(mac)
    &&& row.locally_administered == locally_administered(mac)
}

/// A row comes before another: a larger total, or the same total and a smaller MAC.
pub open spec fn row_before(a: DeviceRow, b: DeviceRow) -> bool {
    a.total > b.total || (a.total == b.total && text_before(a.mac@, b.mac@))
}

/// A row describes a device of an inventory.
pub open spec fn describes_device_of(
    row: DeviceRow,
    inventory: Map<[u8; 6], DeviceStats>,
    oui: OuiDb,
) -> bool {
    exists|mac: [u8; 6]| #[trigger]
        inventory.contains_key(mac) && describes(row, mac, inventory[mac], oui)
}

/// A device has a row.
pub open spec fn has_row(
    rows: Seq<DeviceRow>,
    mac: [u8; 6],
    stats: DeviceStats,
    oui: OuiDb,
) -> bool {
    exists|i: int| 0 <= i < rows.len() && describes(#[trigger] rows[i], mac, stats, oui)
}

/// The rows describe the devices of an inventory, each in one row, in order.
pub open spec fn is_report(
    rows: Seq<DeviceRow>,
    inventory: Map<[u8; 6], DeviceStats>,
    oui: OuiDb,
) -> bool {
    &&& rows.len() == inventory.dom().len()
    &&& forall|i: int|
        0 <= i < rows.len() ==> describes_device_of(#[trigger] rows[i], inventory, oui)
    &&& forall|mac: [u8; 6]|
        inventory.contains_key(mac) ==> #[trigger] has_row(rows, mac, inventory[mac], oui)
    &&& forall|i: int, j: int|
        0 <= i < j < rows.len() ==> row_before(#[trigger] rows[i], #[trigger] rows[j])
}

/// The total of each device fits its counter.
pub open spec fn all_totals_fit(inventory: Map<[u8; 6], DeviceStats>) -> bool {
    forall|mac: [u8; 6]| #[trigger]
        inventory.contains_key(mac) ==> total_of(inventory[mac]) <= u64::MAX
}

/// The row of a device. The vendor is looked up here, once for each device.
fn build_row(mac: &[u8; 6], stats: &DeviceStats, oui: &OuiDb) -> (row: DeviceRow)
    requires
        oui.wf(),
        total_of(*stats) <= u64::MAX,
    ensures
        describes(row, *mac, *stats, *oui),
{
    let vendor = match oui.lookup(mac) {
        Some(name) => name.to_owned(),
        None => "Unknown".to_owned(),
    };
    DeviceRow {
        mac: format_mac(mac),
        vendor,
        src_count: stats.src_count,
        dst_count: stats.dst_count,
        total: stats.src_count + stats.dst_count,
        multicast: is_multicast(mac),
        locally_administered: is_locally_administered(mac),
    }
}

/// The rows of an inventory, by total in descending order and by MAC in ascending order among
/// equals.
pub fn build_rows(inventory: &Inventory, oui: &OuiDb) -> (rows: Vec<DeviceRow>)
    requires
        oui.wf(),
        all_totals_fit(inventory@),
    ensures
        is_report(rows@, inventory@, *oui),
{
    let entries = map_entries(inventory);
    let ghost listed = entries@;
    assert forall|i: int| 0 <= i < listed.len() implies total_of((#[trigger] listed[i]).1)
        <= u64::MAX by {
        assert(inventory@.contains_key(listed[i].0));
    }
    let devices = rank(entries);
    proof {
        lemma_ranked_devices(inventory@, listed, devices@);
    }
    let mut rows: Vec<DeviceRow> = Vec::new();
    let mut i: usize = 0;
    while i < devices.len()
        invariant
            i <= devices@.len(),
            rows@.len() == i,
            oui.wf(),
            all_totals_fit(inventory@),
            forall|k: int|
                0 <= k < devices@.len() ==> inventory@.contains_key((#[trigger] devices@[k]).0)
                    && inventory@[devices@[k].0] == devices@[k].1,
            forall|k: int|
                0 <= k < i ==> describes(
                    #[trigger] rows@[k],
                    devices@[k].0,
                    devices@[k].1,
                    *oui,
                ),
        decreases devices@.len() - i,
    {
        let (mac, stats) = devices[i];
        assert(inventory@.contains_key(devices@[i as int].0));
        rows.push(build_row(&mac, &stats, oui));
        i = i + 1;
    }
    proof {
        lemma_rows_are_report(rows@, devices@, inventory@, *oui);
    }
    rows
}

// ---------------------------------------------------------------------------
// The table
// ---------------------------------------------------------------------------

/// A line of the table: five columns with a blank between them.
pub open spec fn table_line(
    mac: Seq<char>,
    vendor: Seq<char>,
    src: Seq<char>,
    dst: Seq<char>,
    total: Seq<char>,
) -> Seq<char> {
    left_aligned(mac, 18) + " "@ + left_aligned(vendor, 32) + " "@ + right_aligned(src, 6) + " "@
        + right_aligned(dst, 6) + " "@ + right_aligned(total, 6) + "\n"@
}

/// The first 32 characters of a vendor's name.
pub open spec fn shortened(vendor: Seq<char>) -> Seq<char> {
    if vendor.len() > 32 {
        vendor.take(32)
    } else {
        vendor
    }
}

/// The line of a device.
pub open spec fn row_line(row: DeviceRow) -> Seq<char> {
    table_line(
        row.mac@,
        shortened(row.vendor@),
        decimal(row.src_count as nat),
        decimal(row.dst_count as nat),
        decimal(row.total as nat),
    )
}

/// The lines of the devices, one after the other.
pub open spec fn row_lines(rows: Seq<DeviceRow>) -> Seq<char>
    decreases rows.len(),
{
    if rows.len() == 0 {
        Seq::empty()
    } else {
        row_lines(rows.drop_last()) + row_line(rows.last())
    }
}

/// The table: a heading with the number of devices, the names of the columns, and the lines.
pub open spec fn table_text(rows: Seq<DeviceRow>) -> Seq<char> {
    "\n----- Inventario de Dispositivos ("@ + decimal(rows.len()) + " únicos) -----\n"@
        + table_line("MAC"@, "Vendor"@, "Src"@, "Dst"@, "Total"@) + row_lines(rows)
}

/// Writes a line of the table.
fn push_line(out: &mut String, mac: &str, vendor: &str, src: &str, dst: &str, total: &str)
    ensures
        final(out)@ == old(out)@ + table_line(mac@, vendor@, src@, dst@, total@),
{
    push_left(out, mac, 18);
    out.append(" ");
    push_left(out, vendor, 32);
    out.append(" ");
    push_right(out, src, 6);
    out.append(" ");
    push_right(out, dst, 6);
    out.append(" ");
    push_right(out, total, 6);
    out.append("\n");
    assert(out@ =~= old(out)@ + table_line(mac@, vendor@, src@, dst@, total@));
}

/// The table of a report.
pub fn render_table(rows: &[DeviceRow]) -> (out: String)
    ensures
        out@ == table_text(rows@),
{
    let mut out = String::new();
    out.append("\n----- Inventario de Dispositivos (");
    out.append(decimal_text(rows.len() as u64).as_str());
    out.append(" únicos) -----\n");
    push_line(&mut out, "MAC", "Vendor", "Src", "Dst", "Total");
    let ghost head = out@;
    let mut i: usize = 0;
    assert(rows@.take(0) =~= Seq::empty());
    assert(out@ =~= head + row_lines(rows@.take(0)));
    while i < rows.len()
        invariant
            i <= rows@.len(),
            out@ == head + row_lines(rows@.take(i as int)),
        decreases rows@.len() - i,
    {
        let row = &rows[i];
        let len: usize = row.vendor.as_str().unicode_len();
        let vendor = row.vendor.as_str().substring_char(
            0,
            if len > 32 {
                32
            } else {
                len
            },
        );
        assert(vendor@ =~= shortened(row.vendor@));
        let src = decimal_text(row.src_count);
        let dst = decimal_text(row.dst_count);
        let total = decimal_text(row.total);
        push_line(
            &mut out,
            row.mac.as_str(),
            vendor,
            src.as_str(),
            dst.as_str(),
            total.as_str(),
        );
        assert(rows@.take(i + 1).drop_last() =~= rows@.take(i as int));
        assert(out@ =~= head + row_lines(rows@.take(i + 1)));
        i = i + 1;
    }
    assert(rows@.take(i as int) =~= rows@);
    assert(out@ =~= table_text(rows@));
    out
}

// ---------------------------------------------------------------------------
// Proofs
// ---------------------------------------------------------------------------

/// Ranking the entries of an inventory keeps them: each MAC is there once, with its counters.
proof fn lemma_ranked_devices(
    inventory: Map<[u8; 6], DeviceStats>,
    listed: Seq<Device>,
    devices: Seq<Device>,
)
    requires
        forall|i: int|
            0 <= i < listed.len() ==> inventory.contains_key((#[trigger] listed[i]).0)
                && inventory[listed[i].0] == listed[i].1,
        forall|mac: [u8; 6]| #[trigger]
            inventory.contains_key(mac) ==> exists|i: int|
                0 <= i < listed.len() && (#[trigger] listed[i]).0 == mac,
        forall|i: int, j: int|
            0 <= i < j < listed.len() ==> (#[trigger] listed[i]).0 != (#[trigger] listed[j]).0,
        devices.to_multiset() == listed.to_multiset(),
    ensures
        forall|i: int|
            0 <= i < devices.len() ==> inventory.contains_key((#[trigger] devices[i]).0)
                && inventory[devices[i].0] == devices[i].1,
        forall|mac: [u8; 6]| #[trigger]
            inventory.contains_key(mac) ==> exists|i: int|
                0 <= i < devices.len() && (#[trigger] devices[i]).0 == mac,
        forall|i: int, j: int|
            0 <= i < j < devices.len() ==> (#[trigger] devices[i]).0 != (#[trigger] devices[j]).0,
        devices.len() == inventory.dom().len(),
{
    assert forall|i: int| 0 <= i < devices.len() implies inventory.contains_key(
        (#[trigger] devices[i]).0,
    ) && inventory[devices[i].0] == devices[i].1 by {
        lemma_same_devices(devices, listed, i);
    }
    assert forall|mac: [u8; 6]| #[trigger] inventory.contains_key(mac) implies exists|i: int|
        0 <= i < devices.len() && (#[trigger] devices[i]).0 == mac by {
        let i = choose|i: int| 0 <= i < listed.len() && (#[trigger] listed[i]).0 == mac;
        lemma_same_devices(listed, devices, i);
        let j = choose|j: int| 0 <= j < devices.len() && devices[j] == listed[i];
        assert(devices[j].0 == mac);
    }
    assert(listed.no_duplicates());
    listed.lemma_multiset_has_no_duplicates();
    devices.lemma_multiset_has_no_duplicates_conv();
    assert forall|i: int, j: int| 0 <= i < j < devices.len() implies (#[trigger] devices[i]).0 != (
    #[trigger] devices[j]).0 by {
        assert(devices[i] != devices[j]);
        assert(inventory[devices[i].0] == devices[i].1);
        assert(inventory[devices[j].0] == devices[j].1);
    }
    let macs = Seq::new(devices.len(), |i: int| devices[i].0);
    assert(macs.no_duplicates());
    macs.unique_seq_to_set();
    assert forall|mac: [u8; 6]| macs.to_set().contains(mac) <==> inventory.dom().contains(mac) by {
        if inventory.contains_key(mac) {
            let i = choose|i: int| 0 <= i < devices.len() && (#[trigger] devices[i]).0 == mac;
            assert(macs[i] == mac);
        }
    }
    assert(macs.to_set() =~= inventory.dom());
}

/// Rows that describe the ranked devices of an inventory are its report.
proof fn lemma_rows_are_report(
    rows: Seq<DeviceRow>,
    devices: Seq<Device>,
    inventory: Map<[u8; 6], DeviceStats>,
    oui: OuiDb,
)
    requires
        ranked(devices),
        rows.len() == devices.len(),
        devices.len() == inventory.dom().len(),
        forall|i: int|
            0 <= i < devices.len() ==> inventory.contains_key((#[trigger] devices[i]).0)
                && inventory[devices[i].0] == devices[i].1,
        forall|mac: [u8; 6]| #[trigger]
            inventory.contains_key(mac) ==> exists|i: int|
                0 <= i < devices.len() && (#[trigger] devices[i]).0 == mac,
        forall|i: int, j: int|
            0 <= i < j < devices.len() ==> (#[trigger] devices[i]).0 != (#[trigger] devices[j]).0,
        forall|i: int|
            0 <= i < rows.len() ==> describes(
                #[trigger] rows[i],
                devices[i].0,
                devices[i].1,
                oui,
            ),
    ensures
        is_report(rows, inventory, oui),
{
    assert forall|i: int| 0 <= i < rows.len() implies describes_device_of(
        #[trigger] rows[i],
        inventory,
        oui,
    ) by {
        assert(inventory.contains_key(devices[i].0));
    }
    assert forall|mac: [u8; 6]| inventory.contains_key(mac) implies #[trigger] has_row(
        rows,
        mac,
        inventory[mac],
        oui,
    ) by {
        let i = choose|i: int| 0 <= i < devices.len() && (#[trigger] devices[i]).0 == mac;
        assert(describes(rows[i], mac, inventory[mac], oui));
    }
    assert forall|i: int, j: int| 0 <= i < j < rows.len() implies row_before(
        #[trigger] rows[i],
        #[trigger] rows[j],
    ) by {
        assert(!ranks_before(devices[j], devices[i]));
        lemma_rows_in_order(rows[i], rows[j], devices[i], devices[j], oui);
    }
}

/// Rows are in the order of the devices that they describe.
proof fn lemma_rows_in_order(
    row_a: DeviceRow,
    row_b: DeviceRow,
    a: Device,
    b: Device,
    oui: OuiDb,
)
    requires
        describes(row_a, a.0, a.1, oui),
        describes(row_b, b.0, b.1, oui),
        a.0 != b.0,
        !ranks_before(b, a),
    ensures
        row_before(row_a, row_b),
{
    if mac_value(a.0) == mac_value(b.0) {
        law_mac48_injective(a.0, b.0);
    }
    law_format_mac_order(a.0, b.0);
}

// ---------------------------------------------------------------------------
// Laws
// ---------------------------------------------------------------------------

/// Two rows say the same.
pub open spec fn same_row(a: DeviceRow, b: DeviceRow) -> bool {
    &&& a.mac@ == b.mac@
    &&& a.vendor@ == b.vendor@
    &&& a.src_count == b.src_count
    &&& a.dst_count == b.dst_count
    &&& a.total == b.total
    &&& a.multicast == b.multicast
    &&& a.locally_administered == b.locally_administered
}

/// An inventory has one report only, whatever the order in which its hash map is walked.
pub proof fn law_report_is_unique(
    a: Seq<DeviceRow>,
    b: Seq<DeviceRow>,
    inventory: Map<[u8; 6], DeviceStats>,
    oui: OuiDb,
)
    requires
        is_report(a, inventory, oui),
        is_report(b, inventory, oui),
    ensures
        a.len() == b.len(),
        forall|i: int| 0 <= i < a.len() ==> same_row(#[trigger] a[i], b[i]),
{
    assert forall|i: int| 0 <= i < a.len() implies same_row(#[trigger] a[i], b[i]) by {
        lemma_reports_agree(a, b, inventory, oui, i);
    }
}

/// No two rows of a report are for the same MAC.
pub proof fn law_one_row_per_device(
    rows: Seq<DeviceRow>,
    inventory: Map<[u8; 6], DeviceStats>,
    oui: OuiDb,
    i: int,
    j: int,
)
    requires
        is_report(rows, inventory, oui),
        0 <= i < j < rows.len(),
    ensures
        rows[i].mac@ != rows[j].mac@,
{
    assert(row_before(rows[i], rows[j]));
    if rows[i].mac@ == rows[j].mac@ {
        assert(describes_device_of(rows[i], inventory, oui));
        assert(describes_device_of(rows[j], inventory, oui));
        let m = choose|mac: [u8; 6]| #[trigger]
            inventory.contains_key(mac) && describes(rows[i], mac, inventory[mac], oui);
        let n = choose|mac: [u8; 6]| #[trigger]
            inventory.contains_key(mac) && describes(rows[j], mac, inventory[mac], oui);
        law_format_mac_injective(m, n);
        lemma_rows_are_apart(rows[i], rows[j]);
    }
}

/// A report on an inventory without group addresses has no row that is marked as one.
pub proof fn law_no_group_rows(
    rows: Seq<DeviceRow>,
    inventory: Map<[u8; 6], DeviceStats>,
    oui: OuiDb,
    i: int,
)
    requires
        is_report(rows, inventory, oui),
        forall|mac: [u8; 6]| #[trigger] inventory.contains_key(mac) ==> !multicast(mac),
        0 <= i < rows.len(),
    ensures
        !rows[i].multicast,
{
    assert(describes_device_of(rows[i], inventory, oui));
}

/// The totals of a capture of less than 2^63 frames fit their counters, so it has a report.
pub proof fn law_totals_of_capture_fit(frames: Seq<Seq<u8>>, include_multicast: bool)
    requires
        frames.len() < 0x8000_0000_0000_0000,
    ensures
        all_totals_fit(inventory_of(frames, include_multicast)),
{
    let inventory = inventory_of(frames, include_multicast);
    assert forall|mac: [u8; 6]| #[trigger] inventory.contains_key(mac) implies total_of(
        inventory[mac],
    ) <= u64::MAX by {
        lemma_how_many_at_most_all(frames, sent_by(mac, include_multicast));
        lemma_how_many_at_most_all(frames, sent_to(mac, include_multicast));
        assert(counts_fit(frames, include_multicast, mac));
        law_inventory_counts(frames, include_multicast, mac);
        assert(stats_of(inventory, mac) == inventory[mac]);
    }
}

/// What any row of a report says: there is a device in the inventory whose MAC the row writes, with
/// the counters of that device, their sum, and the two lowest bits of the first byte of its MAC.
pub proof fn law_row_of_report(
    rows: Seq<DeviceRow>,
    inventory: Map<[u8; 6], DeviceStats>,
    oui: OuiDb,
    i: int,
) -> (mac: [u8; 6])
    requires
        is_report(rows, inventory, oui),
        0 <= i < rows.len(),
    ensures
        inventory.contains_key(mac),
        rows[i].mac@ == mac_text(mac),
        rows[i].src_count == inventory[mac].src_count,
        rows[i].dst_count == inventory[mac].dst_count,
        rows[i].total == inventory[mac].src_count + inventory[mac].dst_count,
        rows[i].multicast <==> mac[0] as int % 2 == 1,
        rows[i].locally_administered <==> mac[0] as int % 4 >= 2,
        rows[i].vendor@ == (match oui.vendor_of(mac) {
            Some(known) => known,
            None => seq!['U', 'n', 'k', 'n', 'o', 'w', 'n'],
        }),
{
    reveal_strlit("Unknown");
    assert("Unknown"@ =~= seq!['U', 'n', 'k', 'n', 'o', 'w', 'n']);
    assert(describes_device_of(rows[i], inventory, oui));
    let mac = choose|mac: [u8; 6]| #[trigger]
        inventory.contains_key(mac) && describes(rows[i], mac, inventory[mac], oui);
    law_flags(mac, true);
    mac
}

/// Each device of the inventory has a row, and there are as many rows as devices.
pub proof fn law_row_of_device(
    rows: Seq<DeviceRow>,
    inventory: Map<[u8; 6], DeviceStats>,
    oui: OuiDb,
    mac: [u8; 6],
) -> (i: int)
    requires
        is_report(rows, inventory, oui),
        inventory.contains_key(mac),
    ensures
        rows.len() == inventory.dom().len(),
        0 <= i < rows.len(),
        rows[i].mac@ == mac_text(mac),
        rows[i].src_count == inventory[mac].src_count,
        rows[i].dst_count == inventory[mac].dst_count,
{
    assert(has_row(rows, mac, inventory[mac], oui));
    choose|i: int| 0 <= i < rows.len() && describes(#[trigger] rows[i], mac, inventory[mac], oui)
}

/// The order of the rows: a row has a larger total than any later one, or the same total and the
/// smaller MAC in the first character in which they differ.
pub proof fn law_order_of_rows(
    rows: Seq<DeviceRow>,
    inventory: Map<[u8; 6], DeviceStats>,
    oui: OuiDb,
    i: int,
    j: int,
)
    requires
        is_report(rows, inventory, oui),
        0 <= i < j < rows.len(),
    ensures
        rows[i].total >= rows[j].total,
        rows[i].total == rows[j].total ==> exists|p: int|
            0 <= p < 17 && #[trigger] rows[i].mac@[p] < rows[j].mac@[p] && rows[i].mac@.take(p)
                == rows[j].mac@.take(p),
{
    assert(row_before(rows[i], rows[j]));
    let m = law_row_of_report(rows, inventory, oui, i);
    let n = law_row_of_report(rows, inventory, oui, j);
    if rows[i].total == rows[j].total {
        let p = choose|p: int| smaller_at(rows[i].mac@, rows[j].mac@, p);
        assert(smaller_at(rows[i].mac@, rows[j].mac@, p));
        assert(rows[i].mac@.take(p) =~= rows[j].mac@.take(p));
        assert(rows[i].mac@[p] < rows[j].mac@[p]);
    }
}

/// The vendor of a row is, whole, the name in the record of the file with the longest prefix in
/// whose block the MAC lies, the first of these. It is `Unknown` exactly when there is no such
/// record.
pub proof fn law_row_vendor(
    rows: Seq<DeviceRow>,
    inventory: Map<[u8; 6], DeviceStats>,
    oui: OuiDb,
    raw: Seq<RawManufacturer>,
    i: int,
) -> (mac: [u8; 6])
    requires
        is_report(rows, inventory, oui),
        oui.loaded_from(raw),
        accepted(raw).len() <= 0x1_0000_0000,
        0 <= i < rows.len(),
    ensures
        inventory.contains_key(mac),
        rows[i].mac@ == mac_text(mac),
        (exists|k: int| 0 <= k < raw.len() && in_block_of(#[trigger] raw[k], mac))
            ==> vendor_by_file(rows[i].vendor@, raw, mac),
        (forall|k: int| 0 <= k < raw.len() ==> !in_block_of(#[trigger] raw[k], mac))
            ==> rows[i].vendor@ == seq!['U', 'n', 'k', 'n', 'o', 'w', 'n'],
{
    let mac = law_row_of_report(rows, inventory, oui, i);
    law_vendor_of_file(oui, raw, mac);
    mac
}

/// The rows of a capture count frames: those of 14 bytes or more with the MAC of the row in their
/// bytes 6 to 11, and in their bytes 0 to 5. Rows for MACs with an odd first byte are there only
/// on request, and are marked.
pub proof fn law_row_counts_frames(
    rows: Seq<DeviceRow>,
    frames: Seq<Seq<u8>>,
    include_multicast: bool,
    oui: OuiDb,
    i: int,
) -> (mac: [u8; 6])
    requires
        frames.len() <= u64::MAX,
        is_report(rows, inventory_of(frames, include_multicast), oui),
        0 <= i < rows.len(),
    ensures
        rows[i].mac@ == mac_text(mac),
        rows[i].src_count == frames.filter(
            |f: Seq<u8>| f.len() >= 14 && f.subrange(6, 12) == mac@,
        ).len(),
        rows[i].dst_count == frames.filter(
            |f: Seq<u8>| f.len() >= 14 && f.subrange(0, 6) == mac@,
        ).len(),
        rows[i].multicast <==> mac[0] as int % 2 == 1,
        mac[0] as int % 2 == 1 ==> include_multicast,
{
    let mac = law_row_of_report(rows, inventory_of(frames, include_multicast), oui, i);
    law_capture_counts(frames, include_multicast, mac);
    mac
}

/// What `build_rows` returns is a report. It can be called with any loaded database where no total
/// of the inventory is out of range.
pub proof fn law_build_rows(inventory: Inventory, oui: OuiDb, rows: Vec<DeviceRow>)
    ensures
        oui.wf() && (forall|mac: [u8; 6]| #[trigger]
            inventory@.contains_key(mac) ==> inventory@[mac].src_count + inventory@[mac].dst_count
                <= u64::MAX) ==> call_requires(build_rows, (&inventory, &oui)),
        call_ensures(build_rows, (&inventory, &oui), rows) ==> is_report(rows@, inventory@, oui),
{
    if forall|mac: [u8; 6]| #[trigger]
        inventory@.contains_key(mac) ==> inventory@[mac].src_count + inventory@[mac].dst_count
            <= u64::MAX {
        assert forall|mac: [u8; 6]| #[trigger] inventory@.contains_key(mac) implies total_of(
            inventory@[mac],
        ) <= u64::MAX by {}
        assert(all_totals_fit(inventory@));
    }
}

/// The lines of a table. It begins with an empty line. Two lines follow that tell the number of
/// rows and the names of the columns, and then one line for each row, in the order of the rows: the
/// MAC, the first 32 characters of the vendor, and the three numbers, in columns. Nothing comes
/// after that. Where no MAC and no vendor holds a line end, there are no other line ends.
/// The result tells where the lines end.
#[verifier::spinoff_prover]
#[verifier::rlimit(40)]
pub proof fn law_table_lines(rows: &[DeviceRow], out: String) -> (ends: Seq<int>)
    requires
        call_ensures(render_table, (rows,), out),
    ensures
        call_requires(render_table, (rows,)),
        ends.len() == rows@.len() + 3,
        ends[0] == 0,
        ends[ends.len() - 1] == out@.len() - 1,
        forall|i: int, j: int| 0 <= i < j < ends.len() ==> ends[i] < ends[j],
        forall|i: int| 0 <= i < ends.len() ==> out@[#[trigger] ends[i]] == '\n',
        out@.subrange(1, ends[1]) == "----- Inventario de Dispositivos ("@ + decimal(rows@.len())
            + " únicos) -----"@,
        out@.subrange(ends[1] + 1, ends[2])
            == "MAC                Vendor                              Src    Dst  Total"@,
        forall|i: int|
            0 <= i < rows@.len() ==> {
                let row = #[trigger] rows@[i];
                let vendor = row.vendor@.subrange(
                    0,
                    if row.vendor@.len() > 32 {
                        32
                    } else {
                        row.vendor@.len() as int
                    },
                );
                let src = decimal(row.src_count as nat);
                let dst = decimal(row.dst_count as nat);
                let total = decimal(row.total as nat);
                out@.subrange(ends[i + 2] + 1, ends[i + 3]) == row.mac@ + Seq::new(
                    (if row.mac@.len() < 18 {
                        19 - row.mac@.len()
                    } else {
                        1
                    }) as nat,
                    |p: int| ' ',
                ) + vendor + Seq::new((33 - vendor.len()) as nat, |p: int| ' ') + Seq::new(
                    (if src.len() < 6 {
                        6 - src.len()
                    } else {
                        0
                    }) as nat,
                    |p: int| ' ',
                ) + src + Seq::new(
                    (if dst.len() < 6 {
                        7 - dst.len()
                    } else {
                        1
                    }) as nat,
                    |p: int| ' ',
                ) + dst + Seq::new(
                    (if total.len() < 6 {
                        7 - total.len()
                    } else {
                        1
                    }) as nat,
                    |p: int| ' ',
                ) + total
            },
        (forall|i: int|
            0 <= i < rows@.len() ==> !(#[trigger] rows@[i]).mac@.contains('\n')
                && !rows@[i].vendor@.contains('\n')) ==> forall|p: int|
            0 <= p < out@.len() && #[trigger] out@[p] == '\n' ==> ends.contains(p),
{
    let all = rows@;
    let n = all.len();
    let first = "----- Inventario de Dispositivos ("@ + decimal(n) + " únicos) -----"@;
    let second = "MAC                Vendor                              Src    Dst  Total"@;
    let head = seq!['\n'] + first + seq!['\n'] + second + seq!['\n'];
    lemma_table_head(all);
    assert(out@ == head + row_lines(all));
    let ends = Seq::new(
        n + 3,
        |k: int|
            if k == 0 {
                0
            } else if k == 1 {
                first.len() as int + 1
            } else {
                line_end(all, head, k - 2)
            },
    );
    assert(all.take(0) =~= Seq::empty());
    assert(all.take(n as int) =~= all);
    assert forall|i: int, j: int| 0 <= i < j < ends.len() implies ends[i] < ends[j] by {
        if i >= 2 {
            lemma_lines_grow(all, i - 2, j - 2);
        } else if j >= 2 {
            lemma_lines_grow(all, 0, j - 2);
        }
    }
    assert forall|i: int| 0 <= i < n implies out@.subrange(ends[i + 2] + 1, ends[i + 3])
        == row_columns(#[trigger] all[i]) by {
        lemma_table_row(out@, head, all, i);
    }
    lemma_head_lines(out@, first, second, row_lines(all));
    assert forall|i: int| 0 <= i < ends.len() implies out@[#[trigger] ends[i]] == '\n' by {
        if i >= 3 {
            lemma_table_row(out@, head, all, i - 3);
        }
    }
    if forall|i: int|
        0 <= i < n ==> !(#[trigger] all[i]).mac@.contains('\n') && !all[i].vendor@.contains('\n') {
        assert forall|p: int| 0 <= p < out@.len() && #[trigger] out@[p] == '\n' implies ends.contains(
            p,
        ) by {
            let k = lemma_table_line_ends(all, out@, p);
            assert(ends[k] == p);
        }
    }
    ends
}

/// The first lines of a text.
proof fn lemma_head_lines(text: Seq<char>, first: Seq<char>, second: Seq<char>, tail: Seq<char>)
    requires
        text == seq!['\n'] + first + seq!['\n'] + second + seq!['\n'] + tail,
    ensures
        text[0] == '\n',
        text[first.len() as int + 1] == '\n',
        text[(first.len() + second.len()) as int + 2] == '\n',
        text.subrange(1, first.len() as int + 1) == first,
        text.subrange(first.len() as int + 2, (first.len() + second.len()) as int + 2) == second,
{
    assert(text.subrange(1, first.len() as int + 1) =~= first);
    assert(text.subrange(first.len() as int + 2, (first.len() + second.len()) as int + 2)
        =~= second);
}

/// A table has no line ends but those of its lines.
proof fn lemma_table_line_ends(rows: Seq<DeviceRow>, text: Seq<char>, p: int) -> (k: int)
    requires
        text == table_text(rows),
        forall|i: int|
            0 <= i < rows.len() ==> !(#[trigger] rows[i]).mac@.contains('\n')
                && !rows[i].vendor@.contains('\n'),
        0 <= p < text.len(),
        text[p] == '\n',
    ensures
        ({
            let first = "----- Inventario de Dispositivos ("@ + decimal(rows.len())
                + " únicos) -----"@;
            let second = "MAC                Vendor                              Src    Dst  Total"@;
            let head = seq!['\n'] + first + seq!['\n'] + second + seq!['\n'];
            &&& 0 <= k < rows.len() + 3
            &&& k == 0 ==> p == 0
            &&& k == 1 ==> p == first.len() + 1
            &&& k >= 2 ==> p == line_end(rows, head, k - 2)
        }),
{
    let first = "----- Inventario de Dispositivos ("@ + decimal(rows.len()) + " únicos) -----"@;
    let second = "MAC                Vendor                              Src    Dst  Total"@;
    let head = seq!['\n'] + first + seq!['\n'] + second + seq!['\n'];
    lemma_table_head(rows);
    lemma_no_line_end_in_head(rows.len());
    assert(rows.take(0) =~= Seq::empty());
    if p < head.len() {
        assert(head[p] == '\n');
        if p == 0 {
            0
        } else if p < first.len() + 1 {
            assert(head[p] == first[p - 1]);
            0
        } else if p == first.len() + 1 {
            1
        } else if p < head.len() - 1 {
            assert(head[p] == second[p - first.len() - 2]);
            0
        } else {
            2
        }
    } else {
        assert(row_lines(rows)[p - head.len()] == '\n');
        lemma_line_ends(rows, p - head.len()) + 3
    }
}

/// The table begins with its three heading lines.
#[verifier::spinoff_prover]
proof fn lemma_table_head(rows: Seq<DeviceRow>)
    ensures
        table_text(rows) == seq!['\n'] + ("----- Inventario de Dispositivos ("@ + decimal(rows.len())
            + " únicos) -----"@) + seq!['\n']
            + "MAC                Vendor                              Src    Dst  Total"@ + seq!['\n']
            + row_lines(rows),
{
    reveal_strlit("\n----- Inventario de Dispositivos (");
    reveal_strlit("----- Inventario de Dispositivos (");
    reveal_strlit(" únicos) -----\n");
    reveal_strlit(" únicos) -----");
    reveal_strlit("MAC                Vendor                              Src    Dst  Total");
    reveal_strlit("MAC");
    reveal_strlit("Vendor");
    reveal_strlit("Src");
    reveal_strlit("Dst");
    reveal_strlit("Total");
    reveal_strlit(" ");
    reveal_strlit("\n");
    assert("\n----- Inventario de Dispositivos ("@ =~= seq!['\n']
        + "----- Inventario de Dispositivos ("@);
    assert(" únicos) -----\n"@ =~= " únicos) -----"@ + seq!['\n']);
    assert(table_line("MAC"@, "Vendor"@, "Src"@, "Dst"@, "Total"@)
        =~= "MAC                Vendor                              Src    Dst  Total"@ + seq!['\n']);
    assert(table_text(rows) =~= seq!['\n'] + ("----- Inventario de Dispositivos ("@ + decimal(
        rows.len(),
    ) + " únicos) -----"@) + seq!['\n']
        + "MAC                Vendor                              Src    Dst  Total"@ + seq!['\n']
        + row_lines(rows));
}

/// The heading lines hold no line ends.
proof fn lemma_no_line_end_in_head(n: nat)
    ensures
        ({
            let first = "----- Inventario de Dispositivos ("@ + decimal(n) + " únicos) -----"@;
            let second = "MAC                Vendor                              Src    Dst  Total"@;
            &&& forall|p: int| 0 <= p < first.len() ==> #[trigger] first[p] != '\n'
            &&& forall|p: int| 0 <= p < second.len() ==> #[trigger] second[p] != '\n'
        }),
{
    reveal_strlit("----- Inventario de Dispositivos (");
    reveal_strlit(" únicos) -----");
    reveal_strlit("MAC                Vendor                              Src    Dst  Total");
    law_decimal(n);
    let (a, b, c) = ("----- Inventario de Dispositivos ("@, decimal(n), " únicos) -----"@);
    let first = a + b + c;
    assert forall|p: int| 0 <= p < first.len() implies #[trigger] first[p] != '\n' by {
        if p < a.len() {
            assert(first[p] == a[p]);
        } else if p < a.len() + b.len() {
            assert(first[p] == b[p - a.len()]);
        } else {
            assert(first[p] == c[p - a.len() - b.len()]);
        }
    }
}

/// The columns of a row, without the line end.
spec fn row_columns(row: DeviceRow) -> Seq<char> {
    let vendor = row.vendor@.subrange(
        0,
        if row.vendor@.len() > 32 {
            32
        } else {
            row.vendor@.len() as int
        },
    );
    let src = decimal(row.src_count as nat);
    let dst = decimal(row.dst_count as nat);
    let total = decimal(row.total as nat);
    row.mac@ + Seq::new(
        (if row.mac@.len() < 18 {
            19 - row.mac@.len()
        } else {
            1
        }) as nat,
        |p: int| ' ',
    ) + vendor + Seq::new((33 - vendor.len()) as nat, |p: int| ' ') + Seq::new(
        (if src.len() < 6 {
            6 - src.len()
        } else {
            0
        }) as nat,
        |p: int| ' ',
    ) + src + Seq::new(
        (if dst.len() < 6 {
            7 - dst.len()
        } else {
            1
        }) as nat,
        |p: int| ' ',
    ) + dst + Seq::new(
        (if total.len() < 6 {
            7 - total.len()
        } else {
            1
        }) as nat,
        |p: int| ' ',
    ) + total
}

/// The line of a row, column by column.
proof fn lemma_row_line(row: DeviceRow)
    ensures
        row_line(row) == row_columns(row) + seq!['\n'],
{
    reveal_strlit("\n");
    assert("\n"@ =~= seq!['\n']);
    let mac = row.mac@;
    let vendor = row.vendor@.subrange(
        0,
        if row.vendor@.len() > 32 {
            32
        } else {
            row.vendor@.len() as int
        },
    );
    assert(shortened(row.vendor@) =~= vendor);
    let src = decimal(row.src_count as nat);
    let dst = decimal(row.dst_count as nat);
    let total = decimal(row.total as nat);
    let none = Seq::<char>::empty();
    lemma_append_left(none, mac, 18);
    assert(none + left_aligned(mac, 18) =~= left_aligned(mac, 18));
    assert(none + mac =~= mac);
    let a = left_aligned(mac, 18) + " "@;
    lemma_append_left(a, vendor, 32);
    let b = a + left_aligned(vendor, 32) + " "@;
    lemma_append_right(b, src, 6);
    let c = b + right_aligned(src, 6);
    lemma_append_right_apart(c, dst, 6);
    let d = c + " "@ + right_aligned(dst, 6);
    lemma_append_right_apart(d, total, 6);
}

/// A column at the left and the blank after it.
proof fn lemma_append_left(x: Seq<char>, s: Seq<char>, width: nat)
    ensures
        x + left_aligned(s, width) + " "@ == x + s + Seq::new(
            (if s.len() < width {
                width + 1 - s.len()
            } else {
                1
            }) as nat,
            |p: int| ' ',
        ),
{
    reveal_strlit(" ");
    assert(x + left_aligned(s, width) + " "@ =~= x + s + Seq::new(
        (if s.len() < width {
            width + 1 - s.len()
        } else {
            1
        }) as nat,
        |p: int| ' ',
    ));
}

/// A column at the right.
proof fn lemma_append_right(x: Seq<char>, s: Seq<char>, width: nat)
    ensures
        x + right_aligned(s, width) == x + Seq::new(
            (if s.len() < width {
                width - s.len()
            } else {
                0
            }) as nat,
            |p: int| ' ',
        ) + s,
{
    assert(x + right_aligned(s, width) =~= x + Seq::new(
        (if s.len() < width {
            width - s.len()
        } else {
            0
        }) as nat,
        |p: int| ' ',
    ) + s);
}

/// A column at the right and the blank before it.
proof fn lemma_append_right_apart(x: Seq<char>, s: Seq<char>, width: nat)
    ensures
        x + " "@ + right_aligned(s, width) == x + Seq::new(
            (if s.len() < width {
                width + 1 - s.len()
            } else {
                1
            }) as nat,
            |p: int| ' ',
        ) + s,
{
    reveal_strlit(" ");
    assert(x + " "@ + right_aligned(s, width) =~= x + Seq::new(
        (if s.len() < width {
            width + 1 - s.len()
        } else {
            1
        }) as nat,
        |p: int| ' ',
    ) + s);
}

/// Where the line before that of a row ends, in a text that begins with a heading.
spec fn line_end(rows: Seq<DeviceRow>, head: Seq<char>, i: int) -> int {
    head.len() + row_lines(rows.take(i)).len() - 1
}

/// The line of a row in the text of a table.
proof fn lemma_table_row(text: Seq<char>, head: Seq<char>, rows: Seq<DeviceRow>, i: int)
    requires
        text == head + row_lines(rows),
        0 <= i < rows.len(),
    ensures
        line_end(rows, head, i) < line_end(rows, head, i + 1) < text.len(),
        text.subrange(line_end(rows, head, i) + 1, line_end(rows, head, i + 1)) == row_columns(rows[i]),
        text[line_end(rows, head, i + 1)] == '\n',
{
    lemma_row_line(rows[i]);
    lemma_line_at(rows, i);
    let (a, b) = (row_lines(rows.take(i)).len() as int, row_lines(rows.take(i + 1)).len() as int);
    let line = row_line(rows[i]);
    assert(text.subrange(head.len() + a, head.len() + b) =~= row_lines(rows).subrange(a, b));
    assert(text.subrange(head.len() + a, head.len() + b - 1) =~= line.take(line.len() - 1));
    assert(line.take(line.len() - 1) =~= row_columns(rows[i]));
    assert(text.subrange(head.len() + a, head.len() + b)[line.len() - 1] == '\n');
}

/// More rows make more lines.
proof fn lemma_lines_grow(rows: Seq<DeviceRow>, i: int, j: int)
    requires
        0 <= i <= j <= rows.len(),
    ensures
        row_lines(rows.take(i)).len() + (j - i) <= row_lines(rows.take(j)).len(),
        row_lines(rows.take(j)).take(row_lines(rows.take(i)).len() as int) == row_lines(
            rows.take(i),
        ),
    decreases j - i,
{
    let (a, b) = (row_lines(rows.take(i)), row_lines(rows.take(j)));
    if i == j {
        assert(b.take(a.len() as int) =~= a);
    } else {
        lemma_lines_grow(rows, i, j - 1);
        lemma_row_line(rows[j - 1]);
        assert(rows.take(j).drop_last() =~= rows.take(j - 1));
        assert(b.take(a.len() as int) =~= row_lines(rows.take(j - 1)).take(a.len() as int));
    }
}

/// Where the line of a row stands.
proof fn lemma_line_at(rows: Seq<DeviceRow>, i: int)
    requires
        0 <= i < rows.len(),
    ensures
        row_lines(rows.take(i)).len() + row_line(rows[i]).len() == row_lines(rows.take(i + 1)).len()
            <= row_lines(rows).len(),
        row_lines(rows).subrange(
            row_lines(rows.take(i)).len() as int,
            row_lines(rows.take(i + 1)).len() as int,
        ) == row_line(rows[i]),
{
    let (a, b) = (row_lines(rows.take(i)), row_lines(rows.take(i + 1)));
    assert(rows.take(i + 1).drop_last() =~= rows.take(i));
    assert(rows.take(rows.len() as int) =~= rows);
    lemma_lines_grow(rows, i + 1, rows.len() as int);
    assert forall|p: int| 0 <= p < row_line(rows[i]).len() implies row_lines(rows)[a.len() + p]
        == row_line(rows[i])[p] by {
        assert(row_lines(rows).take(b.len() as int)[a.len() + p] == b[a.len() + p]);
    }
    assert(row_lines(rows).subrange(a.len() as int, b.len() as int) =~= row_line(rows[i]));
}

/// Lines end nowhere but at their ends.
proof fn lemma_line_ends(rows: Seq<DeviceRow>, p: int) -> (k: int)
    requires
        forall|i: int|
            0 <= i < rows.len() ==> !(#[trigger] rows[i]).mac@.contains('\n')
                && !rows[i].vendor@.contains('\n'),
        0 <= p < row_lines(rows).len(),
        row_lines(rows)[p] == '\n',
    ensures
        0 <= k < rows.len(),
        p == row_lines(rows.take(k + 1)).len() - 1,
    decreases rows.len(),
{
    let rest = rows.drop_last();
    let last = rows.len() - 1;
    if p < row_lines(rest).len() {
        assert(row_lines(rest)[p] == '\n');
        let k = lemma_line_ends(rest, p);
        assert(rest.take(k + 1) =~= rows.take(k + 1));
        k
    } else {
        let q = p - row_lines(rest).len();
        assert(row_line(rows[last])[q] == '\n');
        lemma_one_line_end(rows[last], q);
        assert(rows.take(last + 1) =~= rows);
        last
    }
}

/// A line ends only once.
proof fn lemma_one_line_end(row: DeviceRow, q: int)
    requires
        !row.mac@.contains('\n'),
        !row.vendor@.contains('\n'),
        0 <= q < row_line(row).len(),
        row_line(row)[q] == '\n',
    ensures
        q == row_line(row).len() - 1,
{
    reveal_strlit(" ");
    reveal_strlit("\n");
    let vendor = shortened(row.vendor@);
    let (src, dst, total) = (
        decimal(row.src_count as nat),
        decimal(row.dst_count as nat),
        decimal(row.total as nat),
    );
    law_decimal(row.src_count as nat);
    law_decimal(row.dst_count as nat);
    law_decimal(row.total as nat);
    assert forall|i: int| 0 <= i < row.mac@.len() implies row.mac@[i] != '\n' by {
        assert(row.mac@.contains(row.mac@[i]));
    }
    assert forall|i: int| 0 <= i < vendor.len() implies #[trigger] vendor[i] != '\n' by {
        assert(vendor[i] == row.vendor@[i]);
        assert(row.vendor@.contains(row.vendor@[i]));
    }
    lemma_no_line_end_in_column(row.mac@, 18);
    lemma_no_line_end_in_column(vendor, 32);
    lemma_no_line_end_in_column(src, 6);
    lemma_no_line_end_in_column(dst, 6);
    lemma_no_line_end_in_column(total, 6);
    let a = left_aligned(row.mac@, 18) + " "@;
    let b = a + left_aligned(vendor, 32) + " "@;
    let c = b + right_aligned(src, 6) + " "@;
    let d = c + right_aligned(dst, 6) + " "@;
    let e = d + right_aligned(total, 6);
    assert(row_line(row) =~= e + "\n"@);
    assert(forall|i: int| 0 <= i < a.len() ==> #[trigger] a[i] != '\n');
    assert(forall|i: int| 0 <= i < b.len() ==> #[trigger] b[i] != '\n');
    assert(forall|i: int| 0 <= i < c.len() ==> #[trigger] c[i] != '\n');
    assert(forall|i: int| 0 <= i < d.len() ==> #[trigger] d[i] != '\n');
    assert(forall|i: int| 0 <= i < e.len() ==> #[trigger] e[i] != '\n');
    if q < e.len() {
        assert(row_line(row)[q] == e[q]);
    }
}

/// A column adds blanks only.
proof fn lemma_no_line_end_in_column(s: Seq<char>, width: nat)
    requires
        forall|i: int| 0 <= i < s.len() ==> #[trigger] s[i] != '\n',
    ensures
        forall|i: int|
            0 <= i < left_aligned(s, width).len() ==> #[trigger] left_aligned(s, width)[i] != '\n',
        forall|i: int|
            0 <= i < right_aligned(s, width).len() ==> #[trigger] right_aligned(s, width)[i] != '\n',
{
}

/// Rows in order do not say the same, and are not in the opposite order.
proof fn lemma_rows_are_apart(a: DeviceRow, b: DeviceRow)
    requires
        row_before(a, b),
    ensures
        !same_row(a, b),
        !row_before(b, a),
{
    if a.total == b.total {
        let k = choose|k: int| smaller_at(a.mac@, b.mac@, k);
        assert(smaller_at(a.mac@, b.mac@, k));
        if text_before(b.mac@, a.mac@) {
            let l = choose|l: int| smaller_at(b.mac@, a.mac@, l);
            assert(k == l || k < l || l < k);
        }
    }
}

/// Two reports on one inventory agree at each position.
proof fn lemma_reports_agree(
    a: Seq<DeviceRow>,
    b: Seq<DeviceRow>,
    inventory: Map<[u8; 6], DeviceStats>,
    oui: OuiDb,
    i: int,
)
    requires
        is_report(a, inventory, oui),
        is_report(b, inventory, oui),
        0 <= i < a.len(),
    ensures
        same_row(a[i], b[i]),
    decreases i,
{
    let j = lemma_same_row_in(a, b, inventory, oui, i);
    let l = lemma_same_row_in(b, a, inventory, oui, i);
    if j < i {
        lemma_reports_agree(a, b, inventory, oui, j);
        assert(row_before(a[j], a[i]));
        lemma_rows_are_apart(a[j], a[i]);
    } else if j > i {
        if l < i {
            lemma_reports_agree(a, b, inventory, oui, l);
            assert(row_before(b[l], b[i]));
            lemma_rows_are_apart(b[l], b[i]);
        } else if l > i {
            assert(row_before(a[i], a[l]));
            assert(row_before(b[i], b[j]));
            lemma_rows_are_apart(a[i], a[l]);
            assert(row_before(a[l], a[i]));
        }
    }
}

/// What a row of one report says, a row of any other report on the same inventory says too.
proof fn lemma_same_row_in(
    a: Seq<DeviceRow>,
    b: Seq<DeviceRow>,
    inventory: Map<[u8; 6], DeviceStats>,
    oui: OuiDb,
    i: int,
) -> (j: int)
    requires
        is_report(a, inventory, oui),
        is_report(b, inventory, oui),
        0 <= i < a.len(),
    ensures
        0 <= j < b.len(),
        same_row(a[i], b[j]),
{
    assert(describes_device_of(a[i], inventory, oui));
    let mac = choose|mac: [u8; 6]| #[trigger]
        inventory.contains_key(mac) && describes(a[i], mac, inventory[mac], oui);
    assert(has_row(b, mac, inventory[mac], oui));
    choose|j: int| 0 <= j < b.len() && describes(#[trigger] b[j], mac, inventory[mac], oui)
}

} // verus!
