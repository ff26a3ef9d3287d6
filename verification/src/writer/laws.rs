//! What free space is, sector by sector and byte by byte.

use crate::format::{BlockDeviceView, Extent, LP_TARGET_TYPE_LINEAR};
use crate::writer::allocation::{
    align_to, aligned, extent_end, free_at, is_next_aligned, lemma_align_to, on_device,
    sector_granular,
};
use crate::writer::spanning::disjoint;
use vstd::prelude::*;

verus! {

/// Whether a sector of a device belongs to an extent.
pub open spec fn in_extent(e: Extent, device: u32, x: int) -> bool {
    &&& e.target_type == LP_TARGET_TYPE_LINEAR
    &&& e.target_source == device
    &&& e.target_data <= x < e.target_data + e.num_sectors
}

/// Whether a sector of a device belongs to any extent.
pub open spec fn is_taken(extents: Seq<Extent>, device: u32, x: int) -> bool {
    exists|k: int| 0 <= k < extents.len() && in_extent(#[trigger] extents[k], device, x)
}

/// Sectors that are free lie inside the device and behind its metadata, start on its
/// alignment, and none of them belongs to any extent.
pub proof fn law_free_sectors(
    extents: Seq<Extent>,
    d: BlockDeviceView,
    device: u32,
    s: int,
    n: int,
)
    requires
        free_at(extents, d, device, s, n),
        n > 0,
    ensures
        d.first_logical_sector <= s,
        d.size >= 512 ==> 512 * (s + n) <= d.size,
        forall|x: int| s <= x < s + n ==> !#[trigger] is_taken(extents, device, x),
        aligned(s, d.alignment, d.alignment_offset),
{
    assert forall|x: int| s <= x < s + n implies !#[trigger] is_taken(extents, device, x) by {
        if is_taken(extents, device, x) {
            let k = choose|k: int|
                0 <= k < extents.len() && in_extent(#[trigger] extents[k], device, x);
            assert(on_device(extents[k], device));
        }
    }
}

/// Sectors that belong to no extent, on the alignment, inside the device and behind its
/// metadata, are free. An extent without sectors takes none, but nothing is put across
/// its place.
pub proof fn law_untaken_is_free(
    extents: Seq<Extent>,
    d: BlockDeviceView,
    device: u32,
    s: int,
    n: int,
)
    requires
        n > 0,
        d.first_logical_sector <= s,
        d.size >= 512,
        512 * (s + n) <= d.size,
        aligned(s, d.alignment, d.alignment_offset),
        forall|x: int| s <= x < s + n ==> !#[trigger] is_taken(extents, device, x),
        forall|k: int|
            0 <= k < extents.len() && on_device(#[trigger] extents[k], device)
                ==> extents[k].num_sectors > 0,
    ensures
        free_at(extents, d, device, s, n),
{
    assert forall|k: int| 0 <= k < extents.len() && on_device(#[trigger] extents[k], device) implies
        extent_end(extents[k]) <= s || s + n <= extents[k].target_data by {
        let e = extents[k];
        if extent_end(e) > s && s + n > e.target_data {
            let x = if s < e.target_data {
                e.target_data as int
            } else {
                s
            };
            assert(in_extent(extents[k], device, x));
            assert(is_taken(extents, device, x));
        }
    }
}

/// A table without overlaps has no sector in two extents.
pub proof fn law_disjoint_sectors(extents: Seq<Extent>, device: u32, j: int, k: int, x: int)
    requires
        disjoint(extents),
        0 <= j < extents.len(),
        0 <= k < extents.len(),
        in_extent(extents[j], device, x),
        in_extent(extents[k], device, x),
    ensures
        j == k,
{
    if j < k {
        assert(on_device(extents[k], extents[j].target_source));
    } else if k < j {
        assert(on_device(extents[j], extents[k].target_source));
    }
}

/// A table in which no sector is in two extents has no overlaps.
pub proof fn law_apart_is_disjoint(extents: Seq<Extent>)
    requires
        forall|j: int, k: int, device: u32, x: int|
            0 <= j < k < extents.len() && #[trigger] in_extent(extents[j], device, x)
                ==> !#[trigger] in_extent(extents[k], device, x),
    ensures
        disjoint(extents),
{
    assert forall|j: int, k: int|
        0 <= j < k < extents.len() && (#[trigger] extents[j]).target_type == LP_TARGET_TYPE_LINEAR
            && on_device(#[trigger] extents[k], extents[j].target_source) && extents[j].num_sectors
            > 0 && extents[k].num_sectors > 0 implies extent_end(extents[j])
        <= extents[k].target_data || extent_end(extents[k]) <= extents[j].target_data by {
        let a = extents[j];
        let b = extents[k];
        let x = if a.target_data < b.target_data {
            b.target_data as int
        } else {
            a.target_data as int
        };
        let device = a.target_source;
        if in_extent(a, device, x) {
            assert(!in_extent(b, device, x));
        }
    }
}

/// A sector is aligned where its byte address, less the offset, is a whole number of
/// alignments. Where that would split sectors, it is every so many sectors as the
/// alignment takes. Without an alignment every sector is aligned.
pub proof fn law_aligned(s: int, alignment: u32, offset: u32)
    ensures
        alignment == 0 ==> aligned(s, alignment, offset),
        alignment > 0 && alignment % 512 == 0 && (offset % alignment) % 512 == 0 ==> (aligned(
            s,
            alignment,
            offset,
        ) <==> (512 * s - offset) % (alignment as int) == 0),
        alignment > 0 && !(alignment % 512 == 0 && (offset % alignment) % 512 == 0) ==> exists|
            n: int,
        |
            512 * (n - 1) < alignment <= 512 * n && (aligned(s, alignment, offset) <==> #[trigger] (s
                % n) == 0),
{
    let a = alignment as int;
    if alignment > 0 {
        if sector_granular(alignment, offset) {
            vstd::arithmetic::div_mod::lemma_mod_equivalence(512 * s, offset as int, a);
            assert((512 * s - offset) % a == 0 <==> (512 * s) % a == (offset as int) % a);
        } else {
            let n = (alignment + 511) / 512;
            assert(512 * (n - 1) < alignment <= 512 * n);
            assert(aligned(s, alignment, offset) <==> s % n == 0);
        }
    }
}

/// Aligning gives the first aligned sector from a given one on.
pub proof fn law_align_to(v: u64, alignment: u32, offset: u32)
    ensures
        align_to(v, alignment, offset) matches Some(t) ==> is_next_aligned(
            t as int,
            v as int,
            alignment,
            offset,
        ),
        alignment == 0 ==> align_to(v, alignment, offset) == Some(v),
{
    lemma_align_to(v, alignment, offset);
    if alignment == 0 {
        assert(aligned(v as int, alignment, offset));
        if let Some(t) = align_to(v, alignment, offset) {
            if t > v {
                assert(!aligned(v as int, alignment, offset));
            }
        } else {
            assert(is_next_aligned(v as int, v as int, alignment, offset));
        }
    }
}

} // verus!
