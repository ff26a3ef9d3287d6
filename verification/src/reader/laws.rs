//! What the reader makes of files that others wrote: tables with wider entries, sparse
//! containers of any chunks, and images of which only some copies are valid.

use crate::encoding::{string_at, u16_at, u32_at, u64_at};
use crate::entry::TableEntry;
use crate::error::Error;
use crate::format::{
    is_slot_copy, BlockDevice, BlockDeviceView, Extent, Geometry, Group, GroupView, MetadataHeader,
    Partition, PartitionView, TableDescriptor,
};
use crate::reader::extent_stream::{
    before_fault, chain_fault, extent_fault, extent_len, ExtentSource,
};
use crate::reader::load::first_data;
use crate::reader::parser::{
    copy_at, displaced_geometry, entries_from, first_copy, geometry_at, geometry_of, search_limit,
    slot_metadata, slots_from, table_at,
};
use crate::reader::source::{
    chunk_at, chunk_byte, chunks_from, decoded, is_sparse, sparse_chunks, sparse_header,
    SparseChunk, SparseHeader, CHUNK_FILL, CHUNK_RAW,
};
use vstd::bytes::*;
use vstd::prelude::*;

verus! {

/// Whether a value is the one of the `n`-th record of a table.
pub open spec fn is_entry<T: TableEntry>(
    c: Seq<u8>,
    desc: TableDescriptor,
    base: int,
    n: int,
    v: T::V,
) -> bool {
    let at = base + n * desc.entry_size;
    at + desc.entry_size <= c.len() && T::parsed(c.subrange(at, at + desc.entry_size)) == Ok::<
        T::V,
        Error,
    >(v)
}

proof fn lemma_entries_at<T: TableEntry>(c: Seq<u8>, desc: TableDescriptor, base: int, i: int)
    requires
        0 <= i <= desc.num_entries,
    ensures
        entries_from::<T>(c, desc, base, i) matches Ok(v) ==> {
            &&& v.len() == desc.num_entries - i
            &&& forall|k: int|
                0 <= k < v.len() ==> is_entry::<T>(c, desc, base, i + k, #[trigger] v[k])
        },
    decreases desc.num_entries - i,
{
    if i < desc.num_entries {
        lemma_entries_at::<T>(c, desc, base, i + 1);
        if let Ok(v) = entries_from::<T>(c, desc, base, i) {
            let rest = entries_from::<T>(c, desc, base, i + 1)->Ok_0;
            let start = base + i * desc.entry_size;
            let first = T::parsed(c.subrange(start, start + desc.entry_size))->Ok_0;
            assert(v == seq![first] + rest);
            assert forall|k: int| 0 <= k < v.len() implies is_entry::<T>(
                c,
                desc,
                base,
                i + k,
                #[trigger] v[k],
            ) by {
                if k > 0 {
                    assert(v[k] == rest[k - 1]);
                    assert(is_entry::<T>(c, desc, base, i + 1 + (k - 1), rest[k - 1]));
                }
            }
        }
    }
}

/// A table that was read has as many entries as its descriptor says, each out of its own
/// record; the records follow one another at the descriptor's own distance.
pub proof fn law_table_entries<T: TableEntry>(
    c: Seq<u8>,
    desc: TableDescriptor,
    metadata_offset: u64,
    header_size: u32,
    max_entries: u32,
)
    ensures
        table_at::<T>(c, desc, metadata_offset, header_size, max_entries) matches Ok(v) ==> {
            &&& v.len() == desc.num_entries
            &&& desc.entry_size > 0 ==> v.len() <= max_entries
            &&& forall|k: int|
                0 <= k < v.len() ==> is_entry::<T>(
                    c,
                    desc,
                    metadata_offset + header_size + desc.offset,
                    k,
                    #[trigger] v[k],
                )
        },
{
    let base = metadata_offset + header_size + desc.offset;
    lemma_entries_at::<T>(c, desc, base, 0);
    if let Ok(v) = table_at::<T>(c, desc, metadata_offset, header_size, max_entries) {
        assert forall|k: int| 0 <= k < v.len() implies is_entry::<T>(
            c,
            desc,
            base,
            k,
            #[trigger] v[k],
        ) by {
            assert(is_entry::<T>(c, desc, base, 0 + k, v[k]));
        }
    }
}

/// The first valid copy is the one before which no copy is valid; primary copies come
/// before backup copies.
pub proof fn law_first_copy(c: Seq<u8>, g: Geometry, index: int)
    requires
        0 <= index,
    ensures
        match first_copy(c, g, index) {
            Some(found) => exists|k: int|
                index <= k < 2 * g.metadata_slot_count && #[trigger] copy_at(c, g, k) == Some(found)
                    && forall|j: int| index <= j < k ==> (#[trigger] copy_at(c, g, j)) is None,
            None => forall|j: int|
                index <= j < 2 * g.metadata_slot_count ==> (#[trigger] copy_at(c, g, j)) is None,
        },
    decreases 2 * g.metadata_slot_count - index,
{
    if index < 2 * g.metadata_slot_count {
        law_first_copy(c, g, index + 1);
        if copy_at(c, g, index) is Some {
            let found = copy_at(c, g, index)->Some_0;
            assert(copy_at(c, g, index) == Some(found));
        } else if let Some(found) = first_copy(c, g, index) {
            let k = choose|k: int|
                index + 1 <= k < 2 * g.metadata_slot_count && #[trigger] copy_at(c, g, k) == Some(
                    found,
                ) && forall|j: int| index + 1 <= j < k ==> (#[trigger] copy_at(c, g, j)) is None;
            assert forall|j: int| index <= j < k implies (#[trigger] copy_at(c, g, j)) is None by {
                if j == index {
                    assert(copy_at(c, g, index) is None);
                }
            }
            assert(copy_at(c, g, k) == Some(found));
        }
    }
}

/// The valid slots are listed in order, each with what is read of it, and no other.
pub proof fn law_slots_from(c: Seq<u8>, g: Geometry, slot: int)
    requires
        0 <= slot,
    ensures
        ({
            let all = slots_from(c, g, slot);
            &&& forall|k: int|
                0 <= k < all.len() ==> slot <= (#[trigger] all[k]).0 < g.metadata_slot_count
                    && slot_metadata(c, g, all[k].0) == Ok::<(MetadataHeader, u64), Error>(
                    (all[k].1, all[k].2),
                )
            &&& forall|j: int, k: int|
                0 <= j < k < all.len() ==> (#[trigger] all[j]).0 < (#[trigger] all[k]).0
            &&& forall|s: u64|
                slot <= s < g.metadata_slot_count && (#[trigger] slot_metadata(c, g, s)) is Ok
                    ==> exists|k: int| 0 <= k < all.len() && (#[trigger] all[k]).0 == s
        }),
    decreases g.metadata_slot_count - slot,
{
    if slot < g.metadata_slot_count {
        law_slots_from(c, g, slot + 1);
        let all = slots_from(c, g, slot);
        let rest = slots_from(c, g, slot + 1);
        if let Ok((h, offset)) = slot_metadata(c, g, slot as u64) {
            let head = (slot as u64, h, offset);
            assert(all == seq![head] + rest);
            assert forall|k: int| 0 <= k < all.len() implies slot <= (#[trigger] all[k]).0
                < g.metadata_slot_count && slot_metadata(c, g, all[k].0) == Ok::<
                (MetadataHeader, u64),
                Error,
            >((all[k].1, all[k].2)) by {
                if k > 0 {
                    assert(all[k] == rest[k - 1]);
                }
            }
            assert forall|j: int, k: int| 0 <= j < k < all.len() implies (#[trigger] all[j]).0 < (
            #[trigger] all[k]).0 by {
                assert(all[k] == rest[k - 1]);
                if j > 0 {
                    assert(all[j] == rest[j - 1]);
                }
            }
            assert forall|s: u64|
                slot <= s < g.metadata_slot_count && (#[trigger] slot_metadata(c, g, s))
                    is Ok implies exists|k: int| 0 <= k < all.len() && (#[trigger] all[k]).0 == s by {
                if s == slot {
                    assert(all[0].0 == s);
                } else {
                    let k = choose|k: int| 0 <= k < rest.len() && (#[trigger] rest[k]).0 == s;
                    assert(all[k + 1] == rest[k]);
                }
            }
        } else {
            assert(all == rest);
        }
    }
}

/// Where the header of the `k`-th chunk stands: each chunk tells its own length.
pub open spec fn chunk_place(f: Seq<u8>, h: SparseHeader, k: int) -> int
    decreases k,
{
    if k <= 0 {
        h.file_header_size as int
    } else {
        chunk_place(f, h, k - 1) + u32_at(f, chunk_place(f, h, k - 1) + 8)
    }
}

/// Where the data of the `k`-th chunk starts in the image: each chunk tells its blocks.
pub open spec fn chunk_first(f: Seq<u8>, h: SparseHeader, k: int) -> int
    decreases k,
{
    if k <= 0 {
        0
    } else {
        chunk_first(f, h, k - 1) + u32_at(f, chunk_place(f, h, k - 1) + 4) * h.block_size
    }
}

/// Whether a chunk is the `k`-th of a container.
pub open spec fn is_chunk(f: Seq<u8>, h: SparseHeader, k: int, c: SparseChunk) -> bool {
    let pos = chunk_place(f, h, k);
    &&& pos + h.chunk_header_size <= f.len()
    &&& c.kind == u16_at(f, pos)
    &&& c.logical_start == chunk_first(f, h, k)
    &&& c.logical_len == u32_at(f, pos + 4) * h.block_size
    &&& c.file_offset == pos + h.chunk_header_size
    &&& c.kind == CHUNK_RAW ==> u32_at(f, pos + 8) == h.chunk_header_size + c.logical_len
    &&& c.kind == CHUNK_FILL ==> u32_at(f, pos + 8) == h.chunk_header_size + 4 && c.file_offset + 4
        <= f.len() && c.fill_value == u32_at(f, c.file_offset as int)
}

proof fn lemma_chunk_place(f: Seq<u8>, h: SparseHeader, k: int)
    ensures
        chunk_place(f, h, k) >= 0,
    decreases k,
{
    if k > 0 {
        lemma_chunk_place(f, h, k - 1);
    }
}

proof fn lemma_chunks(f: Seq<u8>, h: SparseHeader, index: int)
    requires
        0 <= index <= h.total_chunks,
        f.len() <= u64::MAX,
        0 <= chunk_first(f, h, index) <= u64::MAX,
    ensures
        chunks_from(f, h, index, chunk_place(f, h, index), chunk_first(f, h, index)) matches Ok(
            cs,
        ) ==> {
            &&& cs.len() == h.total_chunks - index
            &&& forall|k: int| 0 <= k < cs.len() ==> is_chunk(f, h, index + k, #[trigger] cs[k])
            &&& forall|k: int|
                0 <= k < cs.len() ==> chunk_first(f, h, index) <= (#[trigger] cs[k]).logical_start
            &&& forall|j: int, k: int|
                0 <= j < k < cs.len() ==> (#[trigger] cs[j]).end() <= (
                #[trigger] cs[k]).logical_start
            &&& chunk_first(f, h, h.total_chunks as int) == h.image_size()
        },
    decreases h.total_chunks - index,
{
    let pos = chunk_place(f, h, index);
    let start = chunk_first(f, h, index);
    lemma_chunk_place(f, h, index);
    if index < h.total_chunks {
        if let Ok((c, next)) = chunk_at(f, h, index as u32, pos, start) {
            let blocks = u32_at(f, pos + 4);
            assert(0 <= blocks * h.block_size <= 0xffff_ffff * 0xffff_ffff) by (nonlinear_arith)
                requires
                    0 <= blocks <= 0xffff_ffff,
                    0 <= h.block_size <= 0xffff_ffff,
            ;
            if start + c.logical_len <= u64::MAX {
                assert(next == chunk_place(f, h, index + 1));
                assert(start + c.logical_len == chunk_first(f, h, index + 1));
                lemma_chunks(f, h, index + 1);
                if let Ok(cs) = chunks_from(f, h, index, pos, start) {
                    let rest = chunks_from(f, h, index + 1, next, start + c.logical_len)->Ok_0;
                    assert(cs == seq![c] + rest);
                    assert forall|k: int| 0 <= k < cs.len() implies is_chunk(
                        f,
                        h,
                        index + k,
                        #[trigger] cs[k],
                    ) && start <= cs[k].logical_start by {
                        if k > 0 {
                            assert(cs[k] == rest[k - 1]);
                            assert(is_chunk(f, h, index + 1 + (k - 1), rest[k - 1]));
                        }
                    }
                    assert forall|j: int, k: int| 0 <= j < k < cs.len() implies (
                    #[trigger] cs[j]).end() <= (#[trigger] cs[k]).logical_start by {
                        assert(cs[k] == rest[k - 1]);
                        if j > 0 {
                            assert(cs[j] == rest[j - 1]);
                        }
                    }
                }
            }
        }
    }
}

/// A sparse container is read chunk by chunk, each at the place that those before it
/// lead to: a raw chunk gives the bytes behind its header, a fill chunk its four bytes
/// over and over, and any other chunk zeros. The image is as long as the header says.
pub proof fn law_sparse_bytes(f: Seq<u8>, k: int, i: int)
    requires
        4 <= f.len() <= u64::MAX,
        is_sparse(f),
        decoded(f) is Ok,
        sparse_header(f) matches Ok(h) && {
            &&& 0 <= k < h.total_chunks
            &&& chunk_first(f, h, k) <= i < chunk_first(f, h, k + 1)
        },
    ensures
        ({
            let h = sparse_header(f)->Ok_0;
            let image = decoded(f)->Ok_0;
            let kind = u16_at(f, chunk_place(f, h, k));
            let data = chunk_place(f, h, k) + h.chunk_header_size;
            &&& image.len() == h.total_blocks * h.block_size
            &&& chunk_first(f, h, h.total_chunks as int) == image.len()
            &&& i < image.len() ==> image[i] == (if kind == CHUNK_RAW {
                f[data + (i - chunk_first(f, h, k))]
            } else if kind == CHUNK_FILL {
                f[data + i % 4]
            } else {
                0u8
            })
        }),
{
    let h = sparse_header(f)->Ok_0;
    let cs = sparse_chunks(f)->Ok_0;
    let image = decoded(f)->Ok_0;
    lemma_chunks(f, h, 0);
    let c = cs[k];
    assert(is_chunk(f, h, 0 + k, c));
    assert(0 <= h.total_blocks * h.block_size) by (nonlinear_arith)
        requires
            0 <= h.total_blocks,
            0 <= h.block_size,
    ;
    assert(c.covers(i));
    if i < image.len() {
        let m = choose|m: int| 0 <= m < cs.len() && #[trigger] cs[m].covers(i);
        assert(cs[k].covers(i));
        if m < k {
            assert(cs[m].end() <= cs[k].logical_start);
        }
        if k < m {
            assert(cs[k].end() <= cs[m].logical_start);
        }
        assert(chunk_byte(f, cs, i) == c.byte(f, i));
        if c.kind == CHUNK_FILL {
            let data = c.file_offset as int;
            lemma_auto_spec_u32_to_from_le_bytes();
            let four = f.subrange(data, data + 4);
            assert(spec_u32_to_le_bytes(spec_u32_from_le_bytes(four)) == four);
            assert(four[i % 4] == f[data + i % 4]);
        }
    }
}

/// The fields of a record do not depend on what follows it.
proof fn lemma_wide(r: Seq<u8>, extra: Seq<u8>)
    ensures
        (r + extra).subrange(0, r.len() as int) == r,
        forall|at: int|
            0 <= at && at + 4 <= r.len() ==> #[trigger] u32_at(r + extra, at) == u32_at(r, at),
        forall|at: int|
            0 <= at && at + 8 <= r.len() ==> #[trigger] u64_at(r + extra, at) == u64_at(r, at),
        forall|at: int, len: int|
            0 <= at && 0 <= len && at + len < r.len() ==> #[trigger] string_at(r + extra, at, len)
                == string_at(r, at, len),
{
    let s = r + extra;
    assert(s.subrange(0, r.len() as int) =~= r);
    assert forall|at: int| 0 <= at && at + 4 <= r.len() implies #[trigger] u32_at(s, at) == u32_at(
        r,
        at,
    ) by {
        assert(s.subrange(at, at + 4) =~= r.subrange(at, at + 4));
    }
    assert forall|at: int| 0 <= at && at + 8 <= r.len() implies #[trigger] u64_at(s, at) == u64_at(
        r,
        at,
    ) by {
        assert(s.subrange(at, at + 8) =~= r.subrange(at, at + 8));
    }
    assert forall|at: int, len: int|
        0 <= at && 0 <= len && at + len < r.len() implies #[trigger] string_at(s, at, len)
        == string_at(r, at, len) by {
        assert(s.subrange(at, at + len) =~= r.subrange(at, at + len));
    }
}

/// A record that is wider than its fields, as a later version may write it, reads as the
/// value of its fields.
pub proof fn law_wide_records(
    p: PartitionView,
    e: Extent,
    g: GroupView,
    b: BlockDeviceView,
    extra: Seq<u8>,
)
    requires
        Partition::storable(p),
        Group::storable(g),
        BlockDevice::storable(b),
    ensures
        Partition::rendered(p) matches Ok(r) && r.len() == 52 && Partition::parsed(r + extra)
            == Ok::<PartitionView, Error>(p),
        Extent::rendered(e) matches Ok(r) && r.len() == 24 && Extent::parsed(r + extra) == Ok::<
            Extent,
            Error,
        >(e),
        Group::rendered(g) matches Ok(r) && r.len() == 48 && Group::parsed(r + extra) == Ok::<
            GroupView,
            Error,
        >(g),
        BlockDevice::rendered(b) matches Ok(r) && r.len() == 64 && BlockDevice::parsed(r + extra)
            == Ok::<BlockDeviceView, Error>(b),
{
    Partition::lemma_stored(p);
    Partition::lemma_width(p);
    lemma_wide(Partition::rendered(p)->Ok_0, extra);
    Extent::lemma_stored(e);
    Extent::lemma_width(e);
    lemma_wide(Extent::rendered(e)->Ok_0, extra);
    Group::lemma_stored(g);
    Group::lemma_width(g);
    lemma_wide(Group::rendered(g)->Ok_0, extra);
    BlockDevice::lemma_stored(b);
    BlockDevice::lemma_width(b);
    lemma_wide(BlockDevice::rendered(b)->Ok_0, extra);
}

/// Where the fields of records stand.
pub proof fn law_record_layout(p: PartitionView, e: Extent, g: GroupView, b: BlockDeviceView)
    requires
        Partition::storable(p),
        Group::storable(g),
        BlockDevice::storable(b),
    ensures
        ({
            let r = Partition::rendered(p)->Ok_0;
            &&& string_at(r, 0, 36) == p.name
            &&& u32_at(r, 36) == p.attributes
            &&& u32_at(r, 40) == p.first_extent_index
            &&& u32_at(r, 44) == p.num_extents
            &&& u32_at(r, 48) == p.group_index
        }),
        ({
            let r = Extent::rendered(e)->Ok_0;
            &&& u64_at(r, 0) == e.num_sectors
            &&& u32_at(r, 8) == e.target_type
            &&& u64_at(r, 12) == e.target_data
            &&& u32_at(r, 20) == e.target_source
        }),
        ({
            let r = Group::rendered(g)->Ok_0;
            &&& string_at(r, 0, 36) == g.name
            &&& u32_at(r, 36) == g.flags
            &&& u64_at(r, 40) == g.maximum_size
        }),
        ({
            let r = BlockDevice::rendered(b)->Ok_0;
            &&& u64_at(r, 0) == b.first_logical_sector
            &&& u32_at(r, 8) == b.alignment
            &&& u32_at(r, 12) == b.alignment_offset
            &&& u64_at(r, 16) == b.size
            &&& string_at(r, 24, 36) == b.partition_name
        }),
{
    Partition::lemma_stored(p);
    Extent::lemma_stored(e);
    Group::lemma_stored(g);
    BlockDevice::lemma_stored(b);
}

/// A geometry that was found is at the first regular place, or at the second where the
/// first has none. Only where neither has one is it at another step of the search, and
/// then none stands at a step before it.
pub proof fn law_geometry_found(c: Seq<u8>)
    ensures
        geometry_of(c) matches Ok((g, at)) ==> {
            &&& geometry_at(c, at) == Ok::<Geometry, Error>(g)
            &&& {
                ||| at == 0x1000
                ||| at == 0x2000 && geometry_at(c, 0x1000) is Err
                ||| at > 0x2000 && at % 0x1000 == 0 && at < c.len() && forall|o: u64|
                    0x1000 <= o < at && o % 0x1000 == 0 ==> (#[trigger] geometry_at(c, o)) is Err
            }
        },
        geometry_of(c) is Err ==> geometry_at(c, 0x1000) is Err && geometry_at(c, 0x2000) is Err
            && forall|o: u64|
            0x1000 <= o < c.len() && o < 0x10000 && o % 0x1000 == 0 ==> (#[trigger] geometry_at(
                c,
                o,
            )) is Err,
{
    if geometry_at(c, 0x1000) is Err && geometry_at(c, 0x2000) is Err {
        lemma_displaced(c, 0x1000, search_limit(c));
    }
}

proof fn lemma_displaced(c: Seq<u8>, offset: int, limit: int)
    requires
        0x1000 <= offset,
        offset % 0x1000 == 0,
        limit <= 0x10000,
    ensures
        match displaced_geometry(c, offset, limit) {
            Some((g, at)) => {
                &&& offset <= at < limit
                &&& at % 0x1000 == 0
                &&& at != 0x1000 && at != 0x2000
                &&& geometry_at(c, at) == Ok::<Geometry, Error>(g)
                &&& forall|o: u64|
                    offset <= o < at && o % 0x1000 == 0 && o != 0x1000 && o != 0x2000
                        ==> (#[trigger] geometry_at(c, o)) is Err
            },
            None => forall|o: u64|
                offset <= o < limit && o % 0x1000 == 0 && o != 0x1000 && o != 0x2000
                    ==> (#[trigger] geometry_at(c, o)) is Err,
        },
    decreases limit - offset + 0x1000,
{
    if offset < limit {
        lemma_displaced(c, offset + 0x1000, limit);
    }
}

/// The header of a sparse container: each field in its place.
pub proof fn law_sparse_header(f: Seq<u8>)
    ensures
        sparse_header(f) matches Ok(h) ==> {
            &&& f.len() >= 28
            &&& h.file_header_size == u16_at(f, 8) && h.file_header_size >= 28
            &&& h.chunk_header_size == u16_at(f, 10) && h.chunk_header_size >= 12
            &&& h.block_size == u32_at(f, 12) && 512 <= h.block_size
            &&& h.total_blocks == u32_at(f, 16)
            &&& h.total_chunks == u32_at(f, 20)
        },
        is_sparse(f) <==> u32_at(f, 0) == 0xed26_ff3a,
{
}

/// The first valid slot of an image is loaded from the first valid copy, and knows the
/// slot that the copy belongs to.
pub proof fn law_first_data(c: Seq<u8>, format: Seq<char>)
    requires
        c.len() <= u64::MAX,
    ensures
        first_data(c, format) matches Ok(d) ==> {
            &&& d.image_format == format
            &&& d.image_size == c.len()
            &&& geometry_of(c) == Ok::<(Geometry, u64), Error>((d.geometry, d.geometry_offset))
            &&& is_slot_copy(
                d.metadata_offset as int,
                d.metadata_slot as int,
                d.geometry.metadata_slot_count as int,
                d.geometry.metadata_max_size as int,
            )
            &&& exists|k: int|
                0 <= k < 2 * d.geometry.metadata_slot_count && #[trigger] copy_at(c, d.geometry, k)
                    == Some((d.header, d.metadata_offset)) && forall|j: int|
                    0 <= j < k ==> (#[trigger] copy_at(c, d.geometry, j)) is None
        },
{
    if let Ok(d) = first_data(c, format) {
        let g = d.geometry;
        law_geometry_found(c);
        law_first_copy(c, g, 0);
        let found = first_copy(c, g, 0)->Some_0;
        let k = choose|k: int|
            0 <= k < 2 * g.metadata_slot_count && #[trigger] copy_at(c, g, k) == Some(found)
                && forall|j: int| 0 <= j < k ==> (#[trigger] copy_at(c, g, j)) is None;
        let max = g.metadata_max_size as int;
        let count = g.metadata_slot_count as int;
        let offset = d.metadata_offset as int;
        let s = if k < count {
            k
        } else {
            k - count
        };
        assert(copy_at(c, g, k) == Some((d.header, d.metadata_offset)));
        assert(is_slot_copy(offset, s, count, max));
        let t = choose|t: int| #[trigger] is_slot_copy(offset, t, count, max);
        assert(is_slot_copy(offset, t, count, max));
    }
}

/// A read that meets a fault got everything before it: that much could be read without
/// any fault, and it is less than was asked for.
pub proof fn law_before_fault<D: ExtentSource>(
    d: &D,
    extents: Seq<Extent>,
    k: int,
    from: int,
    n: int,
)
    requires
        0 <= k,
        0 <= from,
    ensures
        ({
            let got = before_fault(d, extents, k, from, n);
            &&& 0 <= got
            &&& n >= 0 ==> got <= n
            &&& chain_fault(d, extents, k, from, got) is None
            &&& chain_fault(d, extents, k, from, n) is Some ==> got < n
        }),
    decreases extents.len() - k,
{
    if k < extents.len() && n > 0 {
        let rest = extent_len(extents[k]) - from;
        let take = if rest < n {
            rest
        } else {
            n
        };
        if take <= 0 {
            law_before_fault(d, extents, k + 1, from - extent_len(extents[k]), n);
        } else if extent_fault(d, extents[k], from, take) is None {
            law_before_fault(d, extents, k + 1, 0, n - take);
        }
    }
}

} // verus!
