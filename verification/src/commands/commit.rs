//! Writing changed tables back to the slot that they were loaded from, and the
//! size limits of groups.

use crate::error::Error;
use crate::format::{
    copy_offset, is_slot_copy, BlockDevice, Extent, Group, Partition, PartitionView,
    TableDescriptor, TablesView,
};
use crate::entry::TableEntry;
use crate::reader::data::{
    capped, extents_of_partition, lemma_sector_total, option_view, sector_total, SuperData,
    SuperView,
};
use crate::reader::load::faithful;
use crate::reader::parser::{entries_from, table_at};
use crate::text::str_eq;
use crate::writer::render::{geometry_fault, slot_bytes, SlotWrite, MAX_DEVICES, MAX_ENTRIES};
use crate::writer::LpWriter;
use vstd::prelude::*;

verus! {

/// Whether loaded data knows the slot that it came from.
pub open spec fn placeable(d: SuperView) -> bool {
    &&& geometry_fault(d.geometry) is None
    &&& is_slot_copy(
        d.metadata_offset as int,
        d.metadata_slot as int,
        d.geometry.metadata_slot_count as int,
        d.geometry.metadata_max_size as int,
    )
}

/// Whether the tables have no more entries than can be loaded.
pub open spec fn within_caps(t: TablesView) -> bool {
    &&& t.partitions.len() <= MAX_ENTRIES
    &&& t.extents.len() <= MAX_ENTRIES
    &&& t.groups.len() <= MAX_ENTRIES
    &&& t.block_devices.len() <= MAX_DEVICES
}

proof fn lemma_entries_len<T: TableEntry>(c: Seq<u8>, desc: TableDescriptor, base: int, i: int)
    requires
        0 <= i <= desc.num_entries,
    ensures
        entries_from::<T>(c, desc, base, i) matches Ok(s) ==> s.len() == desc.num_entries - i,
    decreases desc.num_entries - i,
{
    if i < desc.num_entries {
        lemma_entries_len::<T>(c, desc, base, i + 1);
    }
}

proof fn lemma_table_cap<T: TableEntry>(
    c: Seq<u8>,
    desc: TableDescriptor,
    offset: u64,
    header_size: u32,
    max_entries: u32,
)
    ensures
        table_at::<T>(c, desc, offset, header_size, max_entries) matches Ok(s) ==> s.len()
            <= max_entries,
{
    lemma_entries_len::<T>(c, desc, offset + header_size + desc.offset, 0);
}

/// What was loaded from an image can be written back, and its tables are within
/// the limits.
pub proof fn lemma_loaded(c: Seq<u8>, d: SuperView)
    requires
        faithful(c, d),
    ensures
        placeable(d),
        within_caps(d.tables),
{
    let h = d.header;
    let at = d.metadata_offset;
    lemma_table_cap::<Partition>(c, h.partitions, at, h.header_size, MAX_ENTRIES);
    lemma_table_cap::<Extent>(c, h.extents, at, h.header_size, MAX_ENTRIES);
    lemma_table_cap::<Group>(c, h.groups, at, h.header_size, MAX_ENTRIES);
    lemma_table_cap::<BlockDevice>(c, h.block_devices, at, h.header_size, MAX_DEVICES);
}

/// Whether these writes put the tables of `d` into its slot.
pub open spec fn commits(d: SuperView, w: SlotWrite) -> bool {
    let max = d.geometry.metadata_max_size as int;
    let count = d.geometry.metadata_slot_count as int;
    &&& w.slot == d.metadata_slot
    &&& w.primary == copy_offset(d.metadata_slot as int, max)
    &&& w.backup == copy_offset(count + d.metadata_slot, max)
    &&& slot_bytes(d.header, d.tables, max as u32) == Ok::<Seq<u8>, Error>(w.data@)
}

/// Whether this is what comes of writing the tables of `d` into its slot.
pub open spec fn committed(d: SuperView, r: Result<SlotWrite, Error>) -> bool {
    match r {
        Ok(w) => commits(d, w),
        Err(e) => slot_bytes(d.header, d.tables, d.geometry.metadata_max_size) == Err::<
            Seq<u8>,
            Error,
        >(e),
    }
}

/// The writes that put the tables of `data` into its slot.
pub fn commit(data: &SuperData) -> (r: Result<SlotWrite, Error>)
    requires
        placeable(data@),
    ensures
        committed(data@, r),
{
    let ghost max = data.geometry.metadata_max_size as int;
    let ghost count = data.geometry.metadata_slot_count as int;
    let ghost offset = data.metadata_offset as int;
    proof {
        let s = data.metadata_slot as int;
        assert(is_slot_copy(offset, s, count, max));
        let k = if copy_offset(s, max) == offset {
            s as nat
        } else {
            (count + s) as nat
        };
        assert(copy_offset(k as int, max) == offset);
        assert forall|x: int| #[trigger] is_slot_copy(offset, x, count, max) implies x == s
            && copy_offset(count + x, max) <= u64::MAX by {
            let i = if copy_offset(x, max) == offset {
                x
            } else {
                count + x
            };
            let j = if copy_offset(s, max) == offset {
                s
            } else {
                count + s
            };
            assert(i == j) by (nonlinear_arith)
                requires
                    i * max == j * max,
                    max > 0,
            ;
            assert((count + x) * max <= 16 * 16_777_216) by (nonlinear_arith)
                requires
                    0 <= count + x <= 16,
                    0 < max <= 16_777_216,
            ;
        }
    }
    LpWriter::new().write_metadata(
        &data.geometry,
        data.metadata_offset,
        &data.header,
        data.partitions.as_slice(),
        data.extents.as_slice(),
        data.groups.as_slice(),
        data.devices.as_slice(),
    )
}

/// The sectors that the first `n` partitions take of a group; a name may be left
/// out of the count.
pub open spec fn group_total(
    partitions: Seq<PartitionView>,
    extents: Seq<Extent>,
    group: u32,
    except: Option<Seq<char>>,
    n: int,
) -> int
    decreases n,
{
    if n <= 0 {
        0
    } else {
        let p = partitions[n - 1];
        let before = group_total(partitions, extents, group, except, n - 1);
        if p.group_index == group && except != Some(p.name) {
            before + sector_total(extents_of_partition(extents, p))
        } else {
            before
        }
    }
}

/// The sectors that a group takes.
pub open spec fn group_used(t: TablesView, group: u32, except: Option<Seq<char>>) -> int {
    group_total(t.partitions, t.extents, group, except, t.partitions.len() as int)
}

/// Whether a group of this size has no room for `used` and `needed` sectors; a
/// size of zero is no limit.
pub open spec fn over_limit(maximum_size: u64, used: int, needed: int) -> bool {
    maximum_size > 0 && used + needed > maximum_size as int / 512
}

proof fn lemma_group_total(
    partitions: Seq<PartitionView>,
    extents: Seq<Extent>,
    group: u32,
    except: Option<Seq<char>>,
    n: int,
)
    ensures
        group_total(partitions, extents, group, except, n) >= 0,
    decreases n,
{
    if n > 0 {
        lemma_group_total(partitions, extents, group, except, n - 1);
        lemma_sector_total(extents_of_partition(extents, partitions[n - 1]));
    }
}

/// Counts the sectors that a group takes.
pub fn count_group(data: &SuperData, group: u32, except: Option<&str>) -> (r: u64)
    ensures
        r == capped(group_used(data@.tables, group, option_view(except))),
{
    let ghost parts = data@.tables.partitions;
    let ghost skip = option_view(except);
    let mut used: u64 = 0;
    let mut i: usize = 0;
    while i < data.partitions.len()
        invariant
            i <= data.partitions.len(),
            parts == data@.tables.partitions,
            skip == option_view(except),
            used == capped(group_total(parts, data.extents@, group, skip, i as int)),
        decreases data.partitions.len() - i,
    {
        let p = &data.partitions[i];
        assert(parts[i as int] == p@);
        proof {
            lemma_group_total(parts, data.extents@, group, skip, i as int);
            lemma_sector_total(extents_of_partition(data.extents@, p@));
        }
        let counted = p.group_index == group && match except {
            Some(name) => !str_eq(p.name.as_str(), name),
            None => true,
        };
        if counted {
            used = used.saturating_add(data.partition_sectors(p));
        }
        i += 1;
    }
    used
}

/// Tells how many sectors a group takes, where it has no room for `needed` more.
pub fn without_room(
    data: &SuperData,
    group: u32,
    except: Option<&str>,
    maximum_size: u64,
    needed: u64,
) -> (r: Option<u64>)
    ensures
        ({
            let used = group_used(data@.tables, group, option_view(except));
            r == (if over_limit(maximum_size, used, needed as int) {
                Some(capped(used))
            } else {
                None
            })
        }),
{
    proof {
        lemma_group_used(data@.tables, group, option_view(except));
    }
    let used = count_group(data, group, except);
    if maximum_size > 0 && used.saturating_add(needed) > maximum_size / 512 {
        Some(used)
    } else {
        None
    }
}

/// A group takes no negative number of sectors.
proof fn lemma_group_used(t: TablesView, group: u32, except: Option<Seq<char>>)
    ensures
        group_used(t, group, except) >= 0,
{
    lemma_group_total(t.partitions, t.extents, group, except, t.partitions.len() as int);
}

/// `bytes` in sectors, rounded up.
pub open spec fn in_sectors(bytes: u64) -> u64 {
    ((bytes + 511) / 512) as u64
}

/// `bytes` in sectors, rounded up.
pub fn sectors_for(bytes: u64) -> (r: u64)
    ensures
        r == in_sectors(bytes),
        r * 512 >= bytes,
        r * 512 < bytes + 512,
{
    if bytes % 512 == 0 {
        bytes / 512
    } else {
        bytes / 512 + 1
    }
}

} // verus!
