//! What the reader makes of what the writer wrote.

use crate::digest::sha256_digest;
use crate::encoding::{
    lemma_piece, lemma_u16_stored, lemma_u32_stored, lemma_widths, overwritten, u16_at, u32_at,
    zeros,
};
use crate::entry::TableEntry;
use crate::error::Error;
use crate::format::{
    copy_offset, BlockDevice, BlockDeviceView, Extent, Geometry, Group, GroupView, MetadataHeader,
    Partition, PartitionView, TableDescriptor, TablesView, GEOMETRY_BACKUP_OFFSET, GEOMETRY_MAGIC,
    GEOMETRY_PRIMARY_OFFSET, LP_METADATA_MAGIC,
};
use crate::reader::parser::{
    copy_at, descriptor_at, devices_at, digest_matches, displaced_geometry, entries_from,
    extents_at, geometry_at, geometry_of, groups_at, header_at, metadata_at, partitions_at,
    search_limit, slot_metadata, GEOMETRY_SEARCH_STEP,
};
use crate::reader::data::SuperView;
use crate::reader::load::slot_data;
use crate::writer::render::{
    descriptor_bytes, geometry_bytes, geometry_fault, geometry_with, header_bytes, header_for,
    header_with, law_slot_isolation, lemma_table_entry, lemma_table_len, lemma_tables_len,
    slot_bytes, table_bytes, tables_bytes, updated, MAX_DEVICES, MAX_ENTRIES,
};
use vstd::bytes::*;
use vstd::prelude::*;

verus! {

/// A geometry that was written reads back as itself.
pub proof fn law_geometry_read_back(c: Seq<u8>, offset: u64, g: Geometry)
    requires
        geometry_fault(g) is None,
        offset + 0x34 <= c.len(),
        c.subrange(offset as int, offset + 0x34) == geometry_bytes(g),
    ensures
        geometry_at(c, offset) == Ok::<Geometry, Error>(g),
{
    let at = offset as int;
    let record = geometry_bytes(g);
    let blank = geometry_with(g, zeros(32));
    lemma_widths();
    assert(c.subrange(at, at + 4) =~= record.subrange(0, 4));
    assert(record.subrange(0, 4) =~= spec_u32_to_le_bytes(GEOMETRY_MAGIC));
    lemma_u32_stored(c, at, GEOMETRY_MAGIC);
    assert(c.subrange(at + 0x28, at + 0x2C) =~= record.subrange(0x28, 0x2C));
    assert(record.subrange(0x28, 0x2C) =~= spec_u32_to_le_bytes(g.metadata_max_size));
    lemma_u32_stored(c, at + 0x28, g.metadata_max_size);
    assert(c.subrange(at + 0x2C, at + 0x30) =~= record.subrange(0x2C, 0x30));
    assert(record.subrange(0x2C, 0x30) =~= spec_u32_to_le_bytes(g.metadata_slot_count));
    lemma_u32_stored(c, at + 0x2C, g.metadata_slot_count);
    assert(c.subrange(at + 0x30, at + 0x34) =~= record.subrange(0x30, 0x34));
    assert(record.subrange(0x30, 0x34) =~= spec_u32_to_le_bytes(g.logical_block_size));
    lemma_u32_stored(c, at + 0x30, g.logical_block_size);
    assert(overwritten(record, 8, zeros(32)) =~= blank);
    assert(record.subrange(8, 40) =~= sha256_digest(blank)@);
}

/// A geometry record with one changed byte is refused. A byte outside the magic
/// and the checksum is presumed to change the digest of the record.
pub proof fn law_changed_geometry_refused(c: Seq<u8>, offset: u64, g: Geometry, i: int, byte: u8)
    requires
        offset + 0x34 <= c.len(),
        0 <= i < 0x34,
        byte != geometry_bytes(g)[i],
        c.subrange(offset as int, offset + 0x34) == geometry_bytes(g).update(i, byte),
        4 <= i < 8 || 40 <= i ==> sha256_digest(geometry_with(g, zeros(32)).update(i, byte))@
            != sha256_digest(geometry_with(g, zeros(32)))@,
    ensures
        geometry_at(c, offset) is Err,
{
    let at = offset as int;
    let record = geometry_bytes(g);
    let changed = c.subrange(at, at + 0x34);
    let blank = geometry_with(g, zeros(32));
    lemma_widths();
    assert(record.subrange(8, 40) =~= sha256_digest(blank)@);
    if i < 4 {
        lemma_auto_spec_u32_to_from_le_bytes();
        let magic = c.subrange(at, at + 4);
        assert(magic =~= changed.subrange(0, 4));
        assert(magic[i] == byte);
        assert(record[i] == spec_u32_to_le_bytes(GEOMETRY_MAGIC)[i]);
        if u32_at(c, at) == GEOMETRY_MAGIC {
            assert(spec_u32_to_le_bytes(spec_u32_from_le_bytes(magic)) == magic);
        }
    } else if 8 <= i < 40 {
        assert(overwritten(changed, 8, zeros(32)) =~= blank);
        assert(changed.subrange(8, 40)[i - 8] == byte);
        assert(record.subrange(8, 40)[i - 8] == record[i]);
    } else {
        assert(overwritten(changed, 8, zeros(32)) =~= blank.update(i, byte));
        assert(changed.subrange(8, 40) =~= record.subrange(8, 40));
    }
}

/// A descriptor inside a header reads back as itself.
proof fn lemma_descriptor(c: Seq<u8>, at: int, d: TableDescriptor)
    requires
        0 <= at,
        at + 12 <= c.len(),
        c.subrange(at, at + 12) == descriptor_bytes(d),
    ensures
        descriptor_at(c, at) == d,
{
    let record = descriptor_bytes(d);
    lemma_widths();
    assert(c.subrange(at, at + 4) =~= record.subrange(0, 4));
    assert(record.subrange(0, 4) =~= spec_u32_to_le_bytes(d.offset));
    lemma_u32_stored(c, at, d.offset);
    assert(c.subrange(at + 4, at + 8) =~= record.subrange(4, 8));
    assert(record.subrange(4, 8) =~= spec_u32_to_le_bytes(d.num_entries));
    lemma_u32_stored(c, at + 4, d.num_entries);
    assert(c.subrange(at + 8, at + 12) =~= record.subrange(8, 12));
    assert(record.subrange(8, 12) =~= spec_u32_to_le_bytes(d.entry_size));
    lemma_u32_stored(c, at + 8, d.entry_size);
}

/// The fields of a header record read back as themselves.
proof fn lemma_header_fields(c: Seq<u8>, at: int, h: MetadataHeader, tables: Seq<u8>, sum: Seq<u8>)
    requires
        h.header_size >= 0x80,
        tables.len() == 32,
        sum.len() == 32,
        0 <= at,
        at + h.header_size <= c.len(),
        c.subrange(at, at + h.header_size) == header_with(h, tables, sum),
    ensures
        u32_at(c, at) == LP_METADATA_MAGIC,
        u16_at(c, at + 4) == h.major_version,
        u16_at(c, at + 6) == h.minor_version,
        u32_at(c, at + 8) == h.header_size,
        u32_at(c, at + 0x2C) == h.tables_size,
        descriptor_at(c, at + 0x50) == h.partitions,
        descriptor_at(c, at + 0x5C) == h.extents,
        descriptor_at(c, at + 0x68) == h.groups,
        descriptor_at(c, at + 0x74) == h.block_devices,
        header_with(h, tables, sum).subrange(0x0C, 0x2C) == sum,
        header_with(h, tables, sum).subrange(0x30, 0x50) == tables,
{
    let r = header_with(h, tables, sum);
    lemma_widths();
    assert(c.subrange(at, at + 4) =~= r.subrange(0, 4));
    assert(r.subrange(0, 4) =~= spec_u32_to_le_bytes(LP_METADATA_MAGIC));
    lemma_u32_stored(c, at, LP_METADATA_MAGIC);
    assert(c.subrange(at + 4, at + 6) =~= r.subrange(4, 6));
    assert(r.subrange(4, 6) =~= spec_u16_to_le_bytes(h.major_version));
    lemma_u16_stored(c, at + 4, h.major_version);
    assert(c.subrange(at + 6, at + 8) =~= r.subrange(6, 8));
    assert(r.subrange(6, 8) =~= spec_u16_to_le_bytes(h.minor_version));
    lemma_u16_stored(c, at + 6, h.minor_version);
    assert(c.subrange(at + 8, at + 12) =~= r.subrange(8, 12));
    assert(r.subrange(8, 12) =~= spec_u32_to_le_bytes(h.header_size));
    lemma_u32_stored(c, at + 8, h.header_size);
    assert(c.subrange(at + 0x2C, at + 0x30) =~= r.subrange(0x2C, 0x30));
    assert(r.subrange(0x2C, 0x30) =~= spec_u32_to_le_bytes(h.tables_size));
    lemma_u32_stored(c, at + 0x2C, h.tables_size);
    assert(c.subrange(at + 0x50, at + 0x5C) =~= r.subrange(0x50, 0x5C));
    assert(r.subrange(0x50, 0x5C) =~= descriptor_bytes(h.partitions));
    lemma_descriptor(c, at + 0x50, h.partitions);
    assert(c.subrange(at + 0x5C, at + 0x68) =~= r.subrange(0x5C, 0x68));
    assert(r.subrange(0x5C, 0x68) =~= descriptor_bytes(h.extents));
    lemma_descriptor(c, at + 0x5C, h.extents);
    assert(c.subrange(at + 0x68, at + 0x74) =~= r.subrange(0x68, 0x74));
    assert(r.subrange(0x68, 0x74) =~= descriptor_bytes(h.groups));
    lemma_descriptor(c, at + 0x68, h.groups);
    assert(c.subrange(at + 0x74, at + 0x80) =~= r.subrange(0x74, 0x80));
    assert(r.subrange(0x74, 0x80) =~= descriptor_bytes(h.block_devices));
    lemma_descriptor(c, at + 0x74, h.block_devices);
    assert(r.subrange(0x0C, 0x2C) =~= sum);
    assert(r.subrange(0x30, 0x50) =~= tables);
}

/// A written slot takes the whole slot.
pub proof fn lemma_slot_len(header: MetadataHeader, t: TablesView, max: u32)
    requires
        slot_bytes(header, t, max) is Ok,
    ensures
        slot_bytes(header, t, max)->Ok_0.len() == max,
        tables_bytes(t) is Ok,
        header_for(header, t).tables_size == tables_bytes(t)->Ok_0.len(),
        header_bytes(header_for(header, t), sha256_digest(tables_bytes(t)->Ok_0)@).len()
            == header.header_size,
{
    lemma_widths();
    lemma_tables_len(t);
}

/// Metadata that was written as a slot is found again, checksums and all.
pub proof fn law_slot_read_back(
    c: Seq<u8>,
    offset: u64,
    header: MetadataHeader,
    t: TablesView,
    max: u32,
)
    requires
        slot_bytes(header, t, max) is Ok,
        offset + max <= c.len() <= u64::MAX,
        c.subrange(offset as int, offset + max) == slot_bytes(header, t, max)->Ok_0,
    ensures
        metadata_at(c, offset, max) == Ok::<MetadataHeader, Error>(header_for(header, t)),
{
    let at = offset as int;
    let slot = slot_bytes(header, t, max)->Ok_0;
    let blob = tables_bytes(t)->Ok_0;
    let h = header_for(header, t);
    let sum = sha256_digest(blob)@;
    let record = header_bytes(h, sum);
    let blank = header_with(h, sum, zeros(32));
    let n = h.header_size as int;
    lemma_slot_len(header, t, max);
    lemma_tables_len(t);
    lemma_widths();
    assert(c.subrange(at, at + n) =~= slot.subrange(0, n));
    assert(slot.subrange(0, n) =~= record);
    lemma_header_fields(c, at, h, sum, sha256_digest(blank)@);
    assert(header_at(c, offset) == Ok::<MetadataHeader, Error>(h));
    assert(overwritten(record, 0x0C, zeros(32)) =~= blank);
    assert(digest_matches(record, 0x0C));
    assert(c.subrange(at + n, at + n + h.tables_size) =~= slot.subrange(n, n + h.tables_size));
    assert(slot.subrange(n, n + h.tables_size) =~= blob);
}

/// The entries of a written table read back as themselves.
proof fn lemma_entries<T: TableEntry>(
    c: Seq<u8>,
    desc: TableDescriptor,
    base: int,
    vs: Seq<T::V>,
    i: int,
)
    requires
        table_bytes::<T>(vs) is Ok,
        desc.num_entries == vs.len(),
        desc.entry_size == T::width(),
        0 <= base,
        base + table_bytes::<T>(vs)->Ok_0.len() <= c.len() <= u64::MAX,
        c.subrange(base, base + table_bytes::<T>(vs)->Ok_0.len()) == table_bytes::<T>(vs)->Ok_0,
        forall|k: int| 0 <= k < vs.len() ==> T::storable(#[trigger] vs[k]),
        0 <= i <= vs.len(),
    ensures
        entries_from::<T>(c, desc, base, i) == Ok::<Seq<T::V>, Error>(vs.skip(i)),
    decreases vs.len() - i,
{
    let blob = table_bytes::<T>(vs)->Ok_0;
    let w = T::width() as int;
    if i == vs.len() {
        assert(vs.skip(i) =~= Seq::<T::V>::empty());
    } else {
        lemma_entries::<T>(c, desc, base, vs, i + 1);
        let v = vs[i];
        let start = i * w;
        lemma_table_entry::<T>(vs, i, start);
        assert(i * desc.entry_size == start);
        assert(c.subrange(base + start, base + start + w) =~= blob.subrange(start, start + w));
        T::lemma_stored(v);
        assert(seq![v] + vs.skip(i + 1) =~= vs.skip(i));
    }
}

/// Whether every value of the tables reads back as it was stored: every name
/// fits in its field, and none holds a zero byte.
pub open spec fn tables_storable(t: TablesView) -> bool {
    &&& forall|k: int|
        0 <= k < t.partitions.len() ==> Partition::storable(#[trigger] t.partitions[k])
    &&& forall|k: int| 0 <= k < t.groups.len() ==> Group::storable(#[trigger] t.groups[k])
    &&& forall|k: int|
        0 <= k < t.block_devices.len() ==> BlockDevice::storable(#[trigger] t.block_devices[k])
}

/// Where the tables of a written slot lie.
proof fn lemma_tables_in_place(
    c: Seq<u8>,
    offset: u64,
    header: MetadataHeader,
    t: TablesView,
    max: u32,
)
    requires
        slot_bytes(header, t, max) is Ok,
        offset + max <= c.len(),
        c.subrange(offset as int, offset + max) == slot_bytes(header, t, max)->Ok_0,
    ensures
        ({
            let blob = tables_bytes(t)->Ok_0;
            let base = offset + header.header_size;
            &&& tables_bytes(t) is Ok
            &&& base + blob.len() <= offset + max
            &&& c.subrange(base, base + blob.len()) == blob
        }),
{
    let slot = slot_bytes(header, t, max)->Ok_0;
    let blob = tables_bytes(t)->Ok_0;
    let n = header.header_size as int;
    lemma_slot_len(header, t, max);
    assert(c.subrange(offset + n, offset + n + blob.len()) =~= slot.subrange(n, n + blob.len()));
    assert(slot.subrange(n, n + blob.len()) =~= blob);
}

/// A part of what stands at `base`.
proof fn lemma_middle(c: Seq<u8>, base: int, a: Seq<u8>, b: Seq<u8>, z: Seq<u8>)
    requires
        0 <= base,
        base + (a + b + z).len() <= c.len(),
        c.subrange(base, base + (a + b + z).len()) == a + b + z,
    ensures
        c.subrange(base + a.len(), base + a.len() + b.len()) == b,
{
    let whole = c.subrange(base, base + (a + b + z).len());
    let from = a.len() as int;
    let to = (a.len() + b.len()) as int;
    assert(c.subrange(base + from, base + to) =~= whole.subrange(from, to));
    assert(whole.subrange(from, to) =~= b);
}

/// Tables that were written as part of a slot read back as themselves.
pub proof fn law_tables_read_back(
    c: Seq<u8>,
    offset: u64,
    header: MetadataHeader,
    t: TablesView,
    max: u32,
)
    requires
        slot_bytes(header, t, max) is Ok,
        offset + max <= c.len() <= u64::MAX,
        c.subrange(offset as int, offset + max) == slot_bytes(header, t, max)->Ok_0,
        tables_storable(t),
    ensures
        partitions_at(c, header_for(header, t), offset) == Ok::<Seq<PartitionView>, Error>(
            t.partitions,
        ),
        extents_at(c, header_for(header, t), offset) == Ok::<Seq<Extent>, Error>(t.extents),
        groups_at(c, header_for(header, t), offset) == Ok::<Seq<GroupView>, Error>(t.groups),
        devices_at(c, header_for(header, t), offset) == Ok::<Seq<BlockDeviceView>, Error>(
            t.block_devices,
        ),
{
    let blob = tables_bytes(t)->Ok_0;
    let h = header_for(header, t);
    let base = offset + h.header_size;
    lemma_tables_in_place(c, offset, header, t, max);
    lemma_tables_len(t);
    let p = table_bytes::<Partition>(t.partitions)->Ok_0;
    let e = table_bytes::<Extent>(t.extents)->Ok_0;
    let g = table_bytes::<Group>(t.groups)->Ok_0;
    let d = table_bytes::<BlockDevice>(t.block_devices)->Ok_0;
    lemma_table_len::<Partition>(t.partitions);
    lemma_table_len::<Extent>(t.extents);
    lemma_table_len::<Group>(t.groups);
    lemma_table_len::<BlockDevice>(t.block_devices);
    let none = Seq::<u8>::empty();
    assert(blob =~= none + p + (e + g + d));
    lemma_middle(c, base, none, p, e + g + d);
    lemma_entries::<Partition>(c, h.partitions, base, t.partitions, 0);
    assert(t.partitions.skip(0) =~= t.partitions);
    assert(blob =~= p + e + (g + d));
    lemma_middle(c, base, p, e, g + d);
    lemma_entries::<Extent>(c, h.extents, base + p.len(), t.extents, 0);
    assert(t.extents.skip(0) =~= t.extents);
    assert(blob =~= (p + e) + g + d);
    lemma_middle(c, base, p + e, g, d);
    lemma_entries::<Group>(c, h.groups, base + p.len() + e.len(), t.groups, 0);
    assert(t.groups.skip(0) =~= t.groups);
    assert(blob =~= (p + e + g) + d + none);
    lemma_middle(c, base, p + e + g, d, none);
    lemma_entries::<BlockDevice>(
        c,
        h.block_devices,
        base + p.len() + e.len() + g.len(),
        t.block_devices,
        0,
    );
    assert(t.block_devices.skip(0) =~= t.block_devices);
}

/// After an update of a slot, loading that slot gives the new metadata, from
/// the primary copy; and with the primary copy lost, from the backup.
pub proof fn law_update_read_back(
    c: Seq<u8>,
    g: Geometry,
    slot: u64,
    header: MetadataHeader,
    t: TablesView,
)
    requires
        g.metadata_max_size > 0,
        slot < g.metadata_slot_count,
        slot_bytes(header, t, g.metadata_max_size) is Ok,
        copy_offset(2 * g.metadata_slot_count, g.metadata_max_size as int) <= c.len() <= u64::MAX,
    ensures
        ({
            let max = g.metadata_max_size as int;
            let count = g.metadata_slot_count as int;
            let primary = copy_offset(slot as int, max);
            let backup = copy_offset(count + slot, max);
            let data = slot_bytes(header, t, max as u32)->Ok_0;
            let c2 = updated(c, primary, backup, data);
            &&& slot_metadata(c2, g, slot) == Ok::<(MetadataHeader, u64), Error>(
                (header_for(header, t), primary as u64),
            )
            &&& forall|c3: Seq<u8>|
                #![trigger slot_metadata(c3, g, slot)]
                c3.len() == c2.len() && c3.subrange(backup, backup + max) == data && copy_at(
                    c3,
                    g,
                    slot as int,
                ) is None ==> slot_metadata(c3, g, slot) == Ok::<(MetadataHeader, u64), Error>(
                    (header_for(header, t), backup as u64),
                )
        }),
{
    let max = g.metadata_max_size as int;
    let count = g.metadata_slot_count as int;
    let primary = copy_offset(slot as int, max);
    let backup = copy_offset(count + slot, max);
    let data = slot_bytes(header, t, max as u32)->Ok_0;
    let c2 = updated(c, primary, backup, data);
    lemma_slot_len(header, t, max as u32);
    law_slot_isolation(c, slot as int, count, max, data);
    assert(0 <= slot * max && slot * max + max <= (2 * count) * max && (count + slot) * max + max
        <= (2 * count) * max && 0 <= (count + slot) * max) by (nonlinear_arith)
        requires
            0 <= slot < count,
            max > 0,
    ;
    law_slot_read_back(c2, primary as u64, header, t, max as u32);
    assert forall|c3: Seq<u8>|
        #![trigger slot_metadata(c3, g, slot)]
        c3.len() == c2.len() && c3.subrange(backup, backup + max) == data && copy_at(
            c3,
            g,
            slot as int,
        ) is None implies slot_metadata(c3, g, slot) == Ok::<(MetadataHeader, u64), Error>(
        (header_for(header, t), backup as u64),
    ) by {
        law_slot_read_back(c3, backup as u64, header, t, max as u32);
    }
}

/// A geometry depends on its own record only.
proof fn lemma_geometry_local(a: Seq<u8>, b: Seq<u8>, offset: u64)
    requires
        a.len() == b.len(),
        offset + 0x34 <= a.len(),
        a.subrange(offset as int, offset + 0x34) == b.subrange(offset as int, offset + 0x34),
    ensures
        geometry_at(a, offset) == geometry_at(b, offset),
{
    let from = offset as int;
    let to = offset + 0x34;
    lemma_piece(a, from, to, 0);
    lemma_piece(b, from, to, 0);
    lemma_piece(a, from, to, 0x28);
    lemma_piece(b, from, to, 0x28);
    lemma_piece(a, from, to, 0x2C);
    lemma_piece(b, from, to, 0x2C);
    lemma_piece(a, from, to, 0x30);
    lemma_piece(b, from, to, 0x30);
}

/// Whether a geometry record at `offset` would share a byte with a copy.
pub open spec fn geometry_meets(offset: int, copy: int, max: int) -> bool {
    offset < copy + max && copy < offset + 0x34
}

/// Loading a slot after it was updated gives the tables that were written. A
/// geometry that was displaced has to lie outside the two copies, and what is
/// written there must not read as a geometry that would be found before it.
#[verifier::rlimit(30)]
pub proof fn law_update_loads(
    c: Seq<u8>,
    format: Seq<char>,
    g: Geometry,
    at: u64,
    slot: u64,
    header: MetadataHeader,
    t: TablesView,
)
    requires
        geometry_of(c) == Ok::<(Geometry, u64), Error>((g, at)),
        slot < g.metadata_slot_count,
        slot_bytes(header, t, g.metadata_max_size) is Ok,
        tables_storable(t),
        copy_offset(2 * g.metadata_slot_count, g.metadata_max_size as int) <= c.len() <= u64::MAX,
        ({
            let max = g.metadata_max_size as int;
            let primary = copy_offset(slot as int, max);
            let backup = copy_offset(g.metadata_slot_count + slot, max);
            let c2 = updated(c, primary, backup, slot_bytes(header, t, max as u32)->Ok_0);
            &&& !geometry_meets(at as int, primary, max)
            &&& !geometry_meets(at as int, backup, max)
            &&& forall|o: u64|
                0x3000 <= o < at && o % GEOMETRY_SEARCH_STEP == 0 && (geometry_meets(
                    o as int,
                    primary,
                    max,
                ) || geometry_meets(o as int, backup, max)) ==> (#[trigger] geometry_at(c2, o))
                    is Err
        }),
    ensures
        ({
            let max = g.metadata_max_size as int;
            let primary = copy_offset(slot as int, max);
            let backup = copy_offset(g.metadata_slot_count + slot, max);
            let data = slot_bytes(header, t, max as u32)->Ok_0;
            let c2 = updated(c, primary, backup, data);
            slot_data(c2, format, slot) == Ok::<SuperView, Error>(
                SuperView {
                    image_format: format,
                    image_size: c.len() as u64,
                    geometry: g,
                    geometry_offset: at,
                    header: header_for(header, t),
                    metadata_offset: primary as u64,
                    metadata_slot: slot,
                    tables: t,
                },
            )
        }),
{
    let max = g.metadata_max_size as int;
    let count = g.metadata_slot_count as int;
    let primary = copy_offset(slot as int, max);
    let backup = copy_offset(count + slot, max);
    let data = slot_bytes(header, t, max as u32)->Ok_0;
    let c2 = updated(c, primary, backup, data);
    lemma_found_valid(c, g, at);
    lemma_slot_len(header, t, max as u32);
    law_slot_isolation(c, slot as int, count, max, data);
    law_update_read_back(c, g, slot, header, t);
    assert(0 <= slot * max && slot * max + max <= (count + slot) * max && (count + slot) * max
        + max <= (2 * count) * max && 0 <= (2 * count) * max) by (nonlinear_arith)
        requires
            0 <= slot < count,
            max > 0,
    ;
    lemma_geometry_kept(c, c2, g, at, primary, backup, max);
    lemma_slot_loads(c2, format, g, at, slot, header, t);
}

/// A slot whose primary copy was written loads with the tables that were written.
proof fn lemma_slot_loads(
    c: Seq<u8>,
    format: Seq<char>,
    g: Geometry,
    at: u64,
    slot: u64,
    header: MetadataHeader,
    t: TablesView,
)
    requires
        geometry_of(c) == Ok::<(Geometry, u64), Error>((g, at)),
        slot_bytes(header, t, g.metadata_max_size) is Ok,
        tables_storable(t),
        ({
            let max = g.metadata_max_size as int;
            let primary = copy_offset(slot as int, max);
            &&& 0 <= primary
            &&& primary + max <= c.len() <= u64::MAX
            &&& c.subrange(primary, primary + max) == slot_bytes(header, t, max as u32)->Ok_0
            &&& slot_metadata(c, g, slot) == Ok::<(MetadataHeader, u64), Error>(
                (header_for(header, t), primary as u64),
            )
        }),
    ensures
        slot_data(c, format, slot) == Ok::<SuperView, Error>(
            SuperView {
                image_format: format,
                image_size: c.len() as u64,
                geometry: g,
                geometry_offset: at,
                header: header_for(header, t),
                metadata_offset: copy_offset(slot as int, g.metadata_max_size as int) as u64,
                metadata_slot: slot,
                tables: t,
            },
        ),
{
    let max = g.metadata_max_size;
    let primary = copy_offset(slot as int, max as int);
    law_tables_read_back(c, primary as u64, header, t, max);
}

/// A geometry that was found is valid, and its image has room for it.
proof fn lemma_found_valid(c: Seq<u8>, g: Geometry, at: u64)
    requires
        geometry_of(c) == Ok::<(Geometry, u64), Error>((g, at)),
    ensures
        geometry_at(c, at) == Ok::<Geometry, Error>(g),
        geometry_fault(g) is None,
        at + 0x34 <= c.len(),
{
    lemma_displaced_at(c, GEOMETRY_PRIMARY_OFFSET as int, search_limit(c));
}

/// The geometry of an image stays where two copies behind the regular places are
/// rewritten.
proof fn lemma_geometry_kept(
    c: Seq<u8>,
    c2: Seq<u8>,
    g: Geometry,
    at: u64,
    primary: int,
    backup: int,
    max: int,
)
    requires
        geometry_of(c) == Ok::<(Geometry, u64), Error>((g, at)),
        c2.len() == c.len(),
        0x3000 <= primary,
        0x3000 <= backup,
        primary + max <= c.len(),
        max > 0,
        forall|i: int|
            0 <= i < c.len() && !(primary <= i < primary + max) && !(backup <= i < backup + max)
                ==> c2[i] == c[i],
        !geometry_meets(at as int, primary, max),
        !geometry_meets(at as int, backup, max),
        forall|o: u64|
            0x3000 <= o < at && o % GEOMETRY_SEARCH_STEP == 0 && (geometry_meets(
                o as int,
                primary,
                max,
            ) || geometry_meets(o as int, backup, max)) ==> (#[trigger] geometry_at(c2, o)) is Err,
    ensures
        geometry_of(c2) == Ok::<(Geometry, u64), Error>((g, at)),
{
    let limit = search_limit(c);
    lemma_displaced_at(c, GEOMETRY_PRIMARY_OFFSET as int, limit);
    lemma_found_valid(c, g, at);
    assert forall|o: u64|
        o + 0x34 <= c.len() && !geometry_meets(o as int, primary, max) && !geometry_meets(
            o as int,
            backup,
            max,
        ) implies (#[trigger] geometry_at(c2, o)) == geometry_at(c, o) by {
        assert(c.subrange(o as int, o + 0x34) =~= c2.subrange(o as int, o + 0x34));
        lemma_geometry_local(c, c2, o);
    }
    assert(geometry_at(c2, at) == geometry_at(c, at));
    assert(geometry_at(c2, GEOMETRY_PRIMARY_OFFSET) == geometry_at(c, GEOMETRY_PRIMARY_OFFSET));
    assert(geometry_at(c2, GEOMETRY_BACKUP_OFFSET) == geometry_at(c, GEOMETRY_BACKUP_OFFSET));
    if at != GEOMETRY_PRIMARY_OFFSET && at != GEOMETRY_BACKUP_OFFSET {
        assert forall|o: u64|
            GEOMETRY_PRIMARY_OFFSET <= o < at && o % GEOMETRY_SEARCH_STEP == 0 && o
                != GEOMETRY_PRIMARY_OFFSET && o != GEOMETRY_BACKUP_OFFSET && geometry_at(c, o)
                is Err implies (#[trigger] geometry_at(c2, o)) is Err by {
            if !geometry_meets(o as int, primary, max) && !geometry_meets(o as int, backup, max) {
                assert(geometry_at(c2, o) == geometry_at(c, o) || o + 0x34 > c.len());
            }
        }
        lemma_displaced_same(c, c2, GEOMETRY_PRIMARY_OFFSET as int, limit, g, at);
    }
}

/// A displaced geometry is found again where nothing before it turned into one.
proof fn lemma_displaced_same(
    c: Seq<u8>,
    c2: Seq<u8>,
    offset: int,
    limit: int,
    g: Geometry,
    at: u64,
)
    requires
        0 <= offset,
        offset % GEOMETRY_SEARCH_STEP as int == 0,
        displaced_geometry(c, offset, limit) == Some((g, at)),
        geometry_at(c2, at) == Ok::<Geometry, Error>(g),
        forall|o: u64|
            offset <= o < at && o % GEOMETRY_SEARCH_STEP == 0 && o != GEOMETRY_PRIMARY_OFFSET && o
                != GEOMETRY_BACKUP_OFFSET && geometry_at(c, o) is Err ==> (#[trigger] geometry_at(
                c2,
                o,
            )) is Err,
    ensures
        displaced_geometry(c2, offset, limit) == Some((g, at)),
    decreases limit - offset + GEOMETRY_SEARCH_STEP,
{
    lemma_displaced_at(c, offset, limit);
    if offset != at {
        lemma_displaced_at(c, offset + GEOMETRY_SEARCH_STEP, limit);
        lemma_displaced_same(c, c2, offset + GEOMETRY_SEARCH_STEP, limit, g, at);
        assert(geometry_at(c2, offset as u64) is Err || offset == GEOMETRY_PRIMARY_OFFSET || offset
            == GEOMETRY_BACKUP_OFFSET);
    }
}

/// Where a displaced geometry stands: not at a regular place, and not before the
/// start of the search.
proof fn lemma_displaced_at(c: Seq<u8>, offset: int, limit: int)
    ensures
        displaced_geometry(c, offset, limit) matches Some((g, at)) ==> {
            &&& at != GEOMETRY_PRIMARY_OFFSET && at != GEOMETRY_BACKUP_OFFSET
            &&& offset <= at < limit
            &&& geometry_at(c, at) == Ok::<Geometry, Error>(g)
        },
    decreases limit - offset + GEOMETRY_SEARCH_STEP,
{
    if !(offset < 0 || offset >= limit || offset > u64::MAX) {
        lemma_displaced_at(c, offset + GEOMETRY_SEARCH_STEP, limit);
    }
}

/// A slot with one changed byte in its header or its tables is refused. A byte outside
/// the magic and the header's own checksum is presumed to change the digest that covers
/// it; the header's size, which tells what that is, is left out.
pub proof fn law_changed_slot_refused(
    c: Seq<u8>,
    offset: u64,
    header: MetadataHeader,
    t: TablesView,
    max: u32,
    i: int,
    byte: u8,
)
    requires
        slot_bytes(header, t, max) is Ok,
        offset + max <= c.len() <= u64::MAX,
        0 <= i < header.header_size + tables_bytes(t)->Ok_0.len(),
        !(8 <= i < 12),
        byte != slot_bytes(header, t, max)->Ok_0[i],
        c.subrange(offset as int, offset + max) == slot_bytes(header, t, max)->Ok_0.update(i, byte),
        ({
            let blob = tables_bytes(t)->Ok_0;
            let blank = header_with(header_for(header, t), sha256_digest(blob)@, zeros(32));
            let n = header.header_size;
            &&& i >= n ==> sha256_digest(blob.update(i - n, byte))@ != sha256_digest(blob)@
            &&& 4 <= i < n && !(0x0C <= i < 0x2C) ==> sha256_digest(blank.update(i, byte))@
                != sha256_digest(blank)@
        }),
    ensures
        metadata_at(c, offset, max) is Err,
{
    let at = offset as int;
    let slot = slot_bytes(header, t, max)->Ok_0;
    let blob = tables_bytes(t)->Ok_0;
    let h = header_for(header, t);
    let sum = sha256_digest(blob)@;
    let record = header_bytes(h, sum);
    let n = h.header_size as int;
    lemma_slot_len(header, t, max);
    let whole = c.subrange(at, at + max);
    assert(slot.subrange(0, n) =~= record);
    assert(slot.subrange(n, n + blob.len()) =~= blob);
    assert(c.subrange(at, at + n) =~= whole.subrange(0, n));
    if i < n {
        assert(whole.subrange(0, n) =~= record.update(i, byte));
        assert(record[i] == slot[i]);
        lemma_changed_header(c, offset, h, sum, max, i, byte);
    } else {
        assert(whole.subrange(0, n) =~= record);
        assert(c.subrange(at + n, at + n + blob.len()) =~= whole.subrange(n, n + blob.len()));
        assert(whole.subrange(n, n + blob.len()) =~= blob.update(i - n, byte));
        lemma_changed_tables(c, offset, h, blob, max, i - n, byte);
    }
}

/// A header with one changed byte is refused.
proof fn lemma_changed_header(
    c: Seq<u8>,
    offset: u64,
    h: MetadataHeader,
    sum: Seq<u8>,
    max: u32,
    i: int,
    byte: u8,
)
    requires
        sum.len() == 32,
        0x80 <= h.header_size,
        offset + h.header_size <= c.len(),
        0 <= i < h.header_size,
        !(8 <= i < 12),
        byte != header_bytes(h, sum)[i],
        c.subrange(offset as int, offset + h.header_size) == header_bytes(h, sum).update(i, byte),
        4 <= i && !(0x0C <= i < 0x2C) ==> sha256_digest(
            header_with(h, sum, zeros(32)).update(i, byte),
        )@ != sha256_digest(header_with(h, sum, zeros(32)))@,
    ensures
        metadata_at(c, offset, max) is Err,
{
    let at = offset as int;
    let n = h.header_size as int;
    let blank = header_with(h, sum, zeros(32));
    let record = header_bytes(h, sum);
    let changed = c.subrange(at, at + n);
    lemma_widths();
    if i < 4 {
        lemma_auto_spec_u32_to_from_le_bytes();
        let magic = c.subrange(at, at + 4);
        assert(magic =~= changed.subrange(0, 4));
        assert(magic[i] == byte);
        assert(record[i] == spec_u32_to_le_bytes(LP_METADATA_MAGIC)[i]);
        if u32_at(c, at) == LP_METADATA_MAGIC {
            assert(spec_u32_to_le_bytes(spec_u32_from_le_bytes(magic)) == magic);
        }
    } else {
        assert(c.subrange(at + 8, at + 12) =~= changed.subrange(8, 12));
        assert(changed.subrange(8, 12) =~= record.subrange(8, 12));
        assert(record.subrange(8, 12) =~= spec_u32_to_le_bytes(h.header_size));
        lemma_u32_stored(c, at + 8, h.header_size);
        lemma_changed_digest(h, sum, i, byte);
        assert(!digest_matches(changed, 0x0C));
    }
}

/// A header with one changed byte behind its magic does not match its checksum.
proof fn lemma_changed_digest(h: MetadataHeader, sum: Seq<u8>, i: int, byte: u8)
    requires
        sum.len() == 32,
        0x80 <= h.header_size,
        4 <= i < h.header_size,
        byte != header_bytes(h, sum)[i],
        !(0x0C <= i < 0x2C) ==> sha256_digest(header_with(h, sum, zeros(32)).update(i, byte))@
            != sha256_digest(header_with(h, sum, zeros(32)))@,
    ensures
        !digest_matches(header_bytes(h, sum).update(i, byte), 0x0C),
{
    let blank = header_with(h, sum, zeros(32));
    let record = header_bytes(h, sum);
    let changed = record.update(i, byte);
    let front = spec_u32_to_le_bytes(LP_METADATA_MAGIC) + spec_u16_to_le_bytes(h.major_version)
        + spec_u16_to_le_bytes(h.minor_version) + spec_u32_to_le_bytes(h.header_size);
    let back = spec_u32_to_le_bytes(h.tables_size) + sum + descriptor_bytes(h.partitions)
        + descriptor_bytes(h.extents) + descriptor_bytes(h.groups) + descriptor_bytes(
        h.block_devices,
    ) + zeros(h.header_size - 0x80);
    let digest = sha256_digest(blank)@;
    lemma_widths();
    assert(front.len() == 12);
    assert(blank =~= front + zeros(32) + back);
    assert(record =~= front + digest + back);
    assert(record.subrange(0x0C, 0x2C) =~= digest);
    if 0x0C <= i < 0x2C {
        assert(overwritten(changed, 0x0C, zeros(32)) =~= blank);
        assert(changed.subrange(0x0C, 0x2C)[i - 0x0C] == byte);
        assert(record.subrange(0x0C, 0x2C)[i - 0x0C] == record[i]);
    } else {
        assert(overwritten(changed, 0x0C, zeros(32)) =~= blank.update(i, byte));
        assert(changed.subrange(0x0C, 0x2C) =~= digest);
    }
}

/// Tables with one changed byte are refused.
proof fn lemma_changed_tables(
    c: Seq<u8>,
    offset: u64,
    h: MetadataHeader,
    blob: Seq<u8>,
    max: u32,
    i: int,
    byte: u8,
)
    requires
        0x80 <= h.header_size,
        h.tables_size == blob.len(),
        offset + h.header_size + blob.len() <= c.len(),
        0 <= i < blob.len(),
        c.subrange(offset as int, offset + h.header_size) == header_bytes(h, sha256_digest(blob)@),
        c.subrange(offset + h.header_size, offset + h.header_size + blob.len()) == blob.update(
            i,
            byte,
        ),
        sha256_digest(blob.update(i, byte))@ != sha256_digest(blob)@,
    ensures
        metadata_at(c, offset, max) is Err,
{
    let sum = sha256_digest(blob)@;
    let blank = header_with(h, sum, zeros(32));
    lemma_header_fields(c, offset as int, h, sum, sha256_digest(blank)@);
}

proof fn lemma_table_owed<T: TableEntry>(vs: Seq<T::V>)
    requires
        forall|k: int| 0 <= k < vs.len() ==> T::storable(#[trigger] vs[k]),
    ensures
        table_bytes::<T>(vs) is Ok,
    decreases vs.len(),
{
    if vs.len() > 0 {
        let front = vs.drop_last();
        assert forall|k: int| 0 <= k < front.len() implies T::storable(#[trigger] front[k]) by {
            assert(front[k] == vs[k]);
        }
        lemma_table_owed::<T>(front);
        assert(T::storable(vs[vs.len() - 1]));
        T::lemma_stored(vs.last());
    }
}

/// A slot is owed to tables within the limits, whose names can be stored, and that fit
/// into it behind their header.
pub proof fn law_slot_owed(header: MetadataHeader, t: TablesView, max: u32)
    requires
        tables_storable(t),
        t.partitions.len() <= MAX_ENTRIES,
        t.extents.len() <= MAX_ENTRIES,
        t.groups.len() <= MAX_ENTRIES,
        t.block_devices.len() <= MAX_DEVICES,
        0x80 <= header.header_size <= 0x10_0000,
        header.header_size + t.partitions.len() * 52 + t.extents.len() * 24 + t.groups.len() * 48
            + t.block_devices.len() * 64 <= max,
    ensures
        slot_bytes(header, t, max) is Ok,
{
    assert forall|k: int| 0 <= k < t.extents.len() implies Extent::storable(
        #[trigger] t.extents[k],
    ) by {}
    lemma_table_owed::<Partition>(t.partitions);
    lemma_table_owed::<Extent>(t.extents);
    lemma_table_owed::<Group>(t.groups);
    lemma_table_owed::<BlockDevice>(t.block_devices);
    lemma_table_len::<Partition>(t.partitions);
    lemma_table_len::<Extent>(t.extents);
    lemma_table_len::<Group>(t.groups);
    lemma_table_len::<BlockDevice>(t.block_devices);
}

/// A geometry is valid where its slots are neither empty nor too large, there is a slot
/// and not too many, and its blocks have one of the two sizes.
pub proof fn law_geometry_valid(g: Geometry)
    ensures
        geometry_fault(g) is None <==> 0 < g.metadata_max_size <= 0x100_0000 && 0
            < g.metadata_slot_count <= 8 && (g.logical_block_size == 512 || g.logical_block_size
            == 4096),
{
}

} // verus!
