//! Free space on block devices: first fit under alignment and size limits.

use crate::error::{Error, Fault};
use crate::format::{
    device_views, fit_u64, BlockDevice, BlockDeviceView, Extent, LP_SECTOR_SIZE,
    LP_TARGET_TYPE_LINEAR,
};
use crate::writer::LpWriter;
use vstd::prelude::*;

verus! {

/// Whether an alignment and its phase fall on sector boundaries.
pub open spec fn sector_granular(alignment: u32, alignment_offset: u32) -> bool {
    alignment % 512 == 0 && (alignment_offset % alignment) % 512 == 0
}

/// Whether a sector lies on the device's alignment phase: its byte address is
/// congruent to the alignment offset. Where alignment or phase split a
/// sector, it is the sector number that has to be a multiple of the alignment,
/// rounded up to whole sectors.
pub open spec fn aligned(sector: int, alignment: u32, alignment_offset: u32) -> bool {
    if alignment == 0 {
        true
    } else if sector_granular(alignment, alignment_offset) {
        (sector * 512) % (alignment as int) == alignment_offset % alignment
    } else {
        sector % ((alignment + 511) / 512) == 0
    }
}

/// Whether `t` is the first aligned sector from `v` on.
pub open spec fn is_next_aligned(t: int, v: int, alignment: u32, alignment_offset: u32) -> bool {
    &&& v <= t
    &&& aligned(t, alignment, alignment_offset)
    &&& forall|u: int| v <= u < t ==> !#[trigger] aligned(u, alignment, alignment_offset)
}

/// The first aligned sector from `v` on, where it can be addressed.
pub open spec fn align_to(v: u64, alignment: u32, alignment_offset: u32) -> Option<u64> {
    let t = choose|t: int| is_next_aligned(t, v as int, alignment, alignment_offset);
    if alignment != 0 && sector_granular(alignment, alignment_offset) && v * 512 > u64::MAX {
        None
    } else {
        fit_u64(t)
    }
}

proof fn lemma_next_aligned_unique(t: int, v: int, alignment: u32, alignment_offset: u32)
    requires
        is_next_aligned(t, v, alignment, alignment_offset),
    ensures
        t == (choose|t: int| is_next_aligned(t, v, alignment, alignment_offset)),
{
    let w = choose|t: int| is_next_aligned(t, v, alignment, alignment_offset);
    assert(is_next_aligned(w, v, alignment, alignment_offset));
    if w < t {
        assert(!aligned(w, alignment, alignment_offset));
    } else if t < w {
        assert(!aligned(t, alignment, alignment_offset));
    }
}

/// The remainder of a sum whose second part is below the modulus.
proof fn lemma_mod_plus(x: int, d: int, m: int)
    requires
        0 <= d < m,
    ensures
        (x + d) % m == if x % m + d < m {
            x % m + d
        } else {
            x % m + d - m
        },
{
    let q = x / m;
    let r = x % m;
    vstd::arithmetic::div_mod::lemma_fundamental_div_mod(x, m);
    if r + d < m {
        vstd::arithmetic::div_mod::lemma_fundamental_div_mod_converse(x + d, m, q, r + d);
    } else {
        assert(m * (q + 1) == m * q + m) by (nonlinear_arith);
        vstd::arithmetic::div_mod::lemma_fundamental_div_mod_converse(x + d, m, q + 1, r + d - m);
    }
}

/// How far the next aligned sector is.
spec fn gap_to_aligned(v: int, alignment: u32, alignment_offset: u32) -> int {
    let a = alignment as int;
    let offset = alignment_offset as int % a;
    let sectors = (a + 511) / 512;
    if alignment == 0 {
        0
    } else if sector_granular(alignment, alignment_offset) {
        let rem = (v * 512) % a;
        if rem <= offset {
            (offset - rem) / 512
        } else {
            (a + offset - rem) / 512
        }
    } else if v % sectors == 0 {
        0
    } else {
        sectors - v % sectors
    }
}

proof fn lemma_gap(v: int, alignment: u32, alignment_offset: u32)
    requires
        v >= 0,
    ensures
        ({
            let gap = gap_to_aligned(v, alignment, alignment_offset);
            &&& 0 <= gap <= 0x80_0000
            &&& is_next_aligned(v + gap, v, alignment, alignment_offset)
            &&& v + gap == (choose|t: int|
                is_next_aligned(t, v, alignment, alignment_offset))
        }),
{
    let a = alignment as int;
    let gap = gap_to_aligned(v, alignment, alignment_offset);
    let t = v + gap;
    if alignment == 0 {
    } else if sector_granular(alignment, alignment_offset) {
        let phys = v * 512;
        let offset = alignment_offset as int % a;
        let rem = phys % a;
        let shift = if rem <= offset {
            offset - rem
        } else {
            a + offset - rem
        };
        assert(rem % 512 == 0) by {
            let k = a / 512;
            let q = phys / a;
            vstd::arithmetic::div_mod::lemma_fundamental_div_mod(phys, a);
            assert(rem == 512 * (v - k * q)) by (nonlinear_arith)
                requires
                    rem == phys - a * q,
                    phys == v * 512,
                    a == 512 * k,
            ;
        }
        assert(0 <= rem < a);
        assert(0 <= offset < a);
        assert(t * 512 == phys + shift);
        lemma_mod_plus(phys, shift, a);
        assert forall|u: int| v <= u < t implies !#[trigger] aligned(
            u,
            alignment,
            alignment_offset,
        ) by {
            let d = u * 512 - phys;
            assert(0 <= d < shift);
            lemma_mod_plus(phys, d, a);
        }
    } else {
        let sectors = (a + 511) / 512;
        lemma_mod_plus(v, gap, sectors);
        assert forall|u: int| v <= u < t implies !#[trigger] aligned(
            u,
            alignment,
            alignment_offset,
        ) by {
            lemma_mod_plus(v, u - v, sectors);
        }
    }
    assert(is_next_aligned(t, v, alignment, alignment_offset));
    lemma_next_aligned_unique(t, v, alignment, alignment_offset);
}

/// An aligned sector that was found is the next one; one that was not found
/// lies beyond any device.
pub proof fn lemma_align_to(v: u64, alignment: u32, alignment_offset: u32)
    ensures
        match align_to(v, alignment, alignment_offset) {
            Some(t) => is_next_aligned(t as int, v as int, alignment, alignment_offset),
            None => v > u64::MAX / 512,
        },
{
    lemma_gap(v as int, alignment, alignment_offset);
}

impl LpWriter {
    /// Aligns a sector up to the device's alignment and phase.
    pub fn align_up(v: u64, alignment: u32, alignment_offset: u32) -> (r: Option<u64>)
        ensures
            r == align_to(v, alignment, alignment_offset),
            r matches Some(t) ==> is_next_aligned(t as int, v as int, alignment, alignment_offset),
    {
        proof {
            lemma_gap(v as int, alignment, alignment_offset);
        }
        if alignment == 0 {
            return Some(v);
        }
        let a = alignment as u64;
        let offset = (alignment_offset as u64) % a;
        if a % LP_SECTOR_SIZE == 0 && offset % LP_SECTOR_SIZE == 0 {
            assert(sector_granular(alignment, alignment_offset));
            let phys = match v.checked_mul(LP_SECTOR_SIZE) {
                Some(p) => p,
                None => {
                    return None;
                },
            };
            let rem = phys % a;
            let shift = if rem <= offset {
                offset - rem
            } else {
                a + offset - rem
            };
            v.checked_add(shift / LP_SECTOR_SIZE)
        } else {
            assert(!sector_granular(alignment, alignment_offset));
            let sectors = (a + (LP_SECTOR_SIZE - 1)) / LP_SECTOR_SIZE;
            let rem = v % sectors;
            if rem == 0 {
                Some(v)
            } else {
                v.checked_add(sectors - rem)
            }
        }
    }
}

/// Whether an extent occupies sectors of a device.
pub open spec fn on_device(e: Extent, device_index: u32) -> bool {
    e.target_type == LP_TARGET_TYPE_LINEAR && e.target_source == device_index
}

/// The sector after an extent.
pub open spec fn extent_end(e: Extent) -> int {
    e.target_data + e.num_sectors
}

/// Whether every extent on the device ends inside the 64-bit range.
pub open spec fn ranges_fit(extents: Seq<Extent>, device_index: u32) -> bool {
    forall|i: int|
        0 <= i < extents.len() && on_device(#[trigger] extents[i], device_index) ==> extent_end(
            extents[i],
        ) <= u64::MAX
}

/// The sector ranges that extents occupy on a device, in table order.
pub open spec fn used_list(extents: Seq<Extent>, device_index: u32) -> Seq<(u64, u64)>
    decreases extents.len(),
{
    if extents.len() == 0 {
        Seq::empty()
    } else {
        let rest = used_list(extents.drop_last(), device_index);
        let e = extents.last();
        if on_device(e, device_index) {
            rest.push((e.target_data, extent_end(e) as u64))
        } else {
            rest
        }
    }
}

/// `p` put into ranges sorted by start, behind those that start no later.
pub open spec fn insert_by_start(s: Seq<(u64, u64)>, p: (u64, u64)) -> Seq<(u64, u64)>
    decreases s.len(),
{
    if s.len() == 0 || s.last().0 <= p.0 {
        s.push(p)
    } else {
        insert_by_start(s.drop_last(), p).push(s.last())
    }
}

/// Ranges sorted by start; those that start together keep their order.
pub open spec fn by_start(s: Seq<(u64, u64)>) -> Seq<(u64, u64)>
    decreases s.len(),
{
    if s.len() == 0 {
        Seq::empty()
    } else {
        insert_by_start(by_start(s.drop_last()), s.last())
    }
}

/// Calls `slice::sort_by_key` with the start of each range as its key: a
/// stable sort, so the ranges come out by start, and those that start
/// together in the order in which they stood.
#[verifier::external_body]
fn sort_by_start(v: &mut Vec<(u64, u64)>)
    ensures
        final(v)@ == by_start(old(v)@),
{
    v.sort_by_key(|p| p.0)
}

/// Whether ranges are sorted by start.
spec fn sorted(s: Seq<(u64, u64)>) -> bool {
    forall|i: int, j: int| 0 <= i < j < s.len() ==> (#[trigger] s[i]).0 <= (#[trigger] s[j]).0
}

proof fn lemma_insert(s: Seq<(u64, u64)>, p: (u64, u64))
    requires
        sorted(s),
    ensures
        sorted(insert_by_start(s, p)),
        forall|q: (u64, u64)| #[trigger]
            insert_by_start(s, p).contains(q) <==> s.contains(q) || q == p,
    decreases s.len(),
{
    let r = insert_by_start(s, p);
    if s.len() == 0 || s.last().0 <= p.0 {
        assert(r[s.len() as int] == p);
        assert forall|q: (u64, u64)| #[trigger] r.contains(q) <==> s.contains(q) || q == p by {
            if s.contains(q) {
                let i = s.index_of(q);
                assert(r[i] == q);
            }
        }
    } else {
        let t = insert_by_start(s.drop_last(), p);
        lemma_insert(s.drop_last(), p);
        assert(r.drop_last() =~= t);
        assert forall|i: int, j: int| 0 <= i < j < r.len() implies (#[trigger] r[i]).0 <= (
        #[trigger] r[j]).0 by {
            if j == r.len() - 1 {
                assert(t.contains(t[i]));
                assert(t[i] == r[i]);
                if t[i] != p {
                    let m = s.drop_last().index_of(t[i]);
                    assert(s[m] == t[i]);
                }
            } else {
                assert(r[i] == t[i] && r[j] == t[j]);
            }
        }
        assert forall|q: (u64, u64)| #[trigger] r.contains(q) <==> s.contains(q) || q == p by {
            if r.contains(q) {
                let i = r.index_of(q);
                if i < t.len() {
                    assert(t[i] == q);
                    assert(t.contains(q));
                    if q != p {
                        let m = s.drop_last().index_of(q);
                        assert(s[m] == q);
                    }
                } else {
                    assert(s[s.len() - 1] == q);
                }
            }
            if s.contains(q) {
                let i = s.index_of(q);
                if i < s.len() - 1 {
                    assert(s.drop_last()[i] == q);
                    assert(t.contains(q));
                    let m = t.index_of(q);
                    assert(r[m] == q);
                } else {
                    assert(r[r.len() - 1] == q);
                }
            }
            if q == p {
                assert(t.contains(p));
                let m = t.index_of(p);
                assert(r[m] == p);
            }
        }
    }
}

proof fn lemma_by_start(s: Seq<(u64, u64)>)
    ensures
        sorted(by_start(s)),
        forall|q: (u64, u64)| #[trigger] by_start(s).contains(q) <==> s.contains(q),
    decreases s.len(),
{
    if s.len() > 0 {
        let t = s.drop_last();
        lemma_by_start(t);
        lemma_insert(by_start(t), s.last());
        assert forall|q: (u64, u64)| #[trigger] by_start(s).contains(q) <==> s.contains(q) by {
            if s.contains(q) {
                let i = s.index_of(q);
                if i < t.len() {
                    assert(t[i] == q);
                }
            }
            if t.contains(q) {
                let i = t.index_of(q);
                assert(s[i] == q);
            }
            assert(s[s.len() - 1] == s.last());
        }
    }
}

/// Whether a range is that of an extent on the device.
spec fn used_by(extents: Seq<Extent>, device_index: u32, q: (u64, u64)) -> bool {
    exists|i: int|
        0 <= i < extents.len() && on_device(#[trigger] extents[i], device_index) && q == (
            extents[i].target_data,
            extent_end(extents[i]) as u64,
        )
}

/// What stands in the list of used ranges.
proof fn lemma_used_list(extents: Seq<Extent>, device_index: u32)
    requires
        ranges_fit(extents, device_index),
    ensures
        forall|i: int|
            0 <= i < extents.len() && on_device(#[trigger] extents[i], device_index)
                ==> used_list(extents, device_index).contains(
                (extents[i].target_data, extent_end(extents[i]) as u64),
            ),
        forall|k: int|
            0 <= k < used_list(extents, device_index).len() ==> used_by(
                extents,
                device_index,
                #[trigger] used_list(extents, device_index)[k],
            ),
    decreases extents.len(),
{
    if extents.len() > 0 {
        let t = extents.drop_last();
        assert forall|i: int| 0 <= i < t.len() && on_device(#[trigger] t[i], device_index) implies
            extent_end(t[i]) <= u64::MAX by {
            assert(t[i] == extents[i]);
        }
        lemma_used_list(t, device_index);
        let rest = used_list(t, device_index);
        let all = used_list(extents, device_index);
        assert forall|i: int|
            0 <= i < extents.len() && on_device(#[trigger] extents[i], device_index) implies
            all.contains((extents[i].target_data, extent_end(extents[i]) as u64)) by {
            let q = (extents[i].target_data, extent_end(extents[i]) as u64);
            if i < t.len() {
                assert(t[i] == extents[i]);
                assert(rest.contains(q));
                let m = rest.index_of(q);
                assert(all[m] == q);
            } else {
                assert(all[all.len() - 1] == q);
            }
        }
        assert forall|k: int| 0 <= k < all.len() implies used_by(
            extents,
            device_index,
            #[trigger] all[k],
        ) by {
            let i = if k < rest.len() {
                assert(all[k] == rest[k]);
                assert(used_by(t, device_index, rest[k]));
                let m = choose|i: int|
                    0 <= i < t.len() && on_device(#[trigger] t[i], device_index) && rest[k] == (
                        t[i].target_data,
                        extent_end(t[i]) as u64,
                    );
                assert(extents[m] == t[m]);
                m
            } else {
                extents.len() - 1
            };
            assert(on_device(extents[i], device_index));
            assert(all[k] == (extents[i].target_data, extent_end(extents[i]) as u64));
        }
    }
}

/// The used ranges of a device, by start.
pub open spec fn used_of(extents: Seq<Extent>, device_index: u32) -> Seq<(u64, u64)> {
    by_start(used_list(extents, device_index))
}

/// The place of an extent among the used ranges.
proof fn lemma_used_at(extents: Seq<Extent>, device_index: u32, i: int) -> (k: int)
    requires
        ranges_fit(extents, device_index),
        0 <= i < extents.len(),
        on_device(extents[i], device_index),
    ensures
        0 <= k < used_of(extents, device_index).len(),
        used_of(extents, device_index)[k] == (
            extents[i].target_data,
            extent_end(extents[i]) as u64,
        ),
{
    let q = (extents[i].target_data, extent_end(extents[i]) as u64);
    lemma_used_list(extents, device_index);
    lemma_by_start(used_list(extents, device_index));
    assert(used_of(extents, device_index).contains(q));
    used_of(extents, device_index).index_of(q)
}

/// The extent that a used range belongs to.
proof fn lemma_extent_at(extents: Seq<Extent>, device_index: u32, k: int) -> (i: int)
    requires
        ranges_fit(extents, device_index),
        0 <= k < used_of(extents, device_index).len(),
    ensures
        0 <= i < extents.len(),
        on_device(extents[i], device_index),
        used_of(extents, device_index)[k] == (
            extents[i].target_data,
            extent_end(extents[i]) as u64,
        ),
{
    let list = used_list(extents, device_index);
    let q = used_of(extents, device_index)[k];
    lemma_used_list(extents, device_index);
    lemma_by_start(list);
    assert(used_of(extents, device_index).contains(q));
    assert(list.contains(q));
    let m = list.index_of(q);
    assert(list[m] == q);
    assert(used_by(extents, device_index, list[m]));
    choose|i: int|
        0 <= i < extents.len() && on_device(#[trigger] extents[i], device_index) && list[m] == (
            extents[i].target_data,
            extent_end(extents[i]) as u64,
        )
}

impl LpWriter {
    /// Sorted sector ranges of the linear extents on one device.
    fn collect_used(extents: &[Extent], device_index: u32) -> (r: Result<Vec<(u64, u64)>, Error>)
        ensures
            match r {
                Ok(used) => {
                    &&& ranges_fit(extents@, device_index)
                    &&& used@ == used_of(extents@, device_index)
                },
                Err(e) => {
                    &&& e == Error::Invalid(Fault::ExtentRange)
                    &&& !ranges_fit(extents@, device_index)
                },
            },
    {
        let mut used: Vec<(u64, u64)> = Vec::new();
        let mut i: usize = 0;
        while i < extents.len()
            invariant
                i <= extents.len(),
                ranges_fit(extents@.take(i as int), device_index),
                used@ == used_list(extents@.take(i as int), device_index),
            decreases extents.len() - i,
        {
            let e = extents[i];
            proof {
                let next = extents@.take(i + 1);
                assert(next.drop_last() =~= extents@.take(i as int));
                assert(next.last() == e);
                assert(ranges_fit(extents@, device_index) ==> on_device(e, device_index)
                    ==> extent_end(e) <= u64::MAX);
            }
            if e.target_type == LP_TARGET_TYPE_LINEAR && e.target_source == device_index {
                match e.target_data.checked_add(e.num_sectors) {
                    None => {
                        return Err(Error::Invalid(Fault::ExtentRange));
                    },
                    Some(end) => {
                        used.push((e.target_data, end));
                    },
                }
            }
            i += 1;
        }
        assert(extents@.take(i as int) =~= extents@);
        sort_by_start(&mut used);
        Ok(used)
    }
}

/// The number of sectors of a device, or 0 where its size is unknown.
pub open spec fn limit_of(d: BlockDeviceView) -> int {
    d.size as int / 512
}

/// The sector that no allocation on the device may pass.
pub open spec fn cap_of(d: BlockDeviceView) -> int {
    if limit_of(d) > 0 {
        limit_of(d)
    } else {
        u64::MAX as int
    }
}

/// Whether the `n` sectors from `s` on meet no extent on the device.
pub open spec fn clear(extents: Seq<Extent>, device_index: u32, s: int, n: int) -> bool {
    forall|i: int|
        0 <= i < extents.len() && on_device(#[trigger] extents[i], device_index) ==> extent_end(
            extents[i],
        ) <= s || s + n <= extents[i].target_data
}

/// Whether `n` sectors from `s` on may be allocated on the device.
pub open spec fn free_at(
    extents: Seq<Extent>,
    d: BlockDeviceView,
    device_index: u32,
    s: int,
    n: int,
) -> bool {
    &&& d.first_logical_sector <= s
    &&& aligned(s, d.alignment, d.alignment_offset)
    &&& clear(extents, device_index, s, n)
    &&& s + n <= cap_of(d)
}

/// First fit from the candidate `c` on, past the used ranges before the `i`-th.
pub open spec fn scan_free(
    used: Seq<(u64, u64)>,
    d: BlockDeviceView,
    needed: u64,
    i: int,
    c: u64,
) -> Result<u64, Error>
    decreases used.len() - i,
{
    if c + needed > u64::MAX {
        Err(Error::Invalid(Fault::NoSpace))
    } else if i < 0 || i >= used.len() || c + needed <= used[i].0 {
        if c + needed <= cap_of(d) {
            Ok(c)
        } else {
            Err(Error::Invalid(Fault::NoSpace))
        }
    } else if used[i].1 > c {
        match align_to(used[i].1, d.alignment, d.alignment_offset) {
            Some(next) => scan_free(used, d, needed, i + 1, next),
            None => Err(Error::Invalid(Fault::Alignment)),
        }
    } else {
        scan_free(used, d, needed, i + 1, c)
    }
}

/// The first free sector on a device.
pub open spec fn first_free(
    extents: Seq<Extent>,
    devices: Seq<BlockDeviceView>,
    device_index: u32,
    needed: u64,
) -> Result<u64, Error> {
    if needed == 0 {
        Err(Error::Invalid(Fault::ZeroSectors))
    } else if device_index >= devices.len() {
        Err(Error::Invalid(Fault::BlockDevice))
    } else if !ranges_fit(extents, device_index) {
        Err(Error::Invalid(Fault::ExtentRange))
    } else {
        let d = devices[device_index as int];
        match align_to(d.first_logical_sector, d.alignment, d.alignment_offset) {
            None => Err(Error::Invalid(Fault::Alignment)),
            Some(c) => scan_free(used_of(extents, device_index), d, needed, 0, c),
        }
    }
}

/// First fit: the scan finds the first free place, or there is none.
proof fn lemma_scan_free(
    extents: Seq<Extent>,
    d: BlockDeviceView,
    device_index: u32,
    needed: u64,
    i: int,
    c: u64,
)
    requires
        needed > 0,
        ranges_fit(extents, device_index),
        0 <= i <= used_of(extents, device_index).len(),
        forall|k: int|
            0 <= k < i ==> (#[trigger] used_of(extents, device_index)[k]).1 <= c,
        d.first_logical_sector <= c,
        aligned(c as int, d.alignment, d.alignment_offset),
        forall|s: int|
            s < c ==> !#[trigger] free_at(extents, d, device_index, s, needed as int),
    ensures
        match scan_free(used_of(extents, device_index), d, needed, i, c) {
            Ok(s) => {
                &&& free_at(extents, d, device_index, s as int, needed as int)
                &&& forall|t: int|
                    t < s ==> !#[trigger] free_at(extents, d, device_index, t, needed as int)
            },
            Err(e) => {
                &&& e == Error::Invalid(Fault::NoSpace) || e == Error::Invalid(Fault::Alignment)
                &&& e == Error::Invalid(Fault::NoSpace) || limit_of(d) > 0 ==> forall|t: int|
                    !#[trigger] free_at(extents, d, device_index, t, needed as int)
            },
        },
    decreases used_of(extents, device_index).len() - i,
{
    let used = used_of(extents, device_index);
    lemma_by_start(used_list(extents, device_index));
    if c + needed > u64::MAX {
    } else if i >= used.len() || c + needed <= used[i].0 {
        assert(clear(extents, device_index, c as int, needed as int)) by {
            assert forall|m: int|
                0 <= m < extents.len() && on_device(#[trigger] extents[m], device_index) implies
                extent_end(extents[m]) <= c || c + needed <= extents[m].target_data by {
                let k = lemma_used_at(extents, device_index, m);
                if k >= i {
                    assert(used[i].0 <= used[k].0);
                }
            }
        }
    } else if used[i].1 > c {
        let end = used[i].1;
        lemma_align_to(end, d.alignment, d.alignment_offset);
        let m = lemma_extent_at(extents, device_index, i);
        assert forall|s: int| s < end implies !#[trigger] free_at(
            extents,
            d,
            device_index,
            s,
            needed as int,
        ) by {
            if s >= c && clear(extents, device_index, s, needed as int) {
                assert(on_device(extents[m], device_index));
            }
        }
        match align_to(end, d.alignment, d.alignment_offset) {
            Some(next) => {
                assert forall|s: int| s < next implies !#[trigger] free_at(
                    extents,
                    d,
                    device_index,
                    s,
                    needed as int,
                ) by {
                    if s >= end {
                        assert(!aligned(s, d.alignment, d.alignment_offset));
                    }
                }
                lemma_scan_free(extents, d, device_index, needed, i + 1, next);
            },
            None => {},
        }
    } else {
        lemma_scan_free(extents, d, device_index, needed, i + 1, c);
    }
}

/// An allocation on one device takes the first aligned run of free sectors
/// inside the device; where it is refused for want of space there is none.
pub proof fn law_first_fit(
    extents: Seq<Extent>,
    devices: Seq<BlockDeviceView>,
    device_index: u32,
    needed: u64,
)
    requires
        needed > 0,
        device_index < devices.len(),
        ranges_fit(extents, device_index),
    ensures
        ({
            let d = devices[device_index as int];
            match first_free(extents, devices, device_index, needed) {
                Ok(s) => {
                    &&& free_at(extents, d, device_index, s as int, needed as int)
                    &&& forall|t: int|
                        t < s ==> !#[trigger] free_at(extents, d, device_index, t, needed as int)
                },
                Err(e) => {
                    &&& e == Error::Invalid(Fault::NoSpace) || e == Error::Invalid(Fault::Alignment)
                    &&& e == Error::Invalid(Fault::NoSpace) || limit_of(d) > 0 ==> forall|t: int|
                        !#[trigger] free_at(extents, d, device_index, t, needed as int)
                },
            }
        }),
{
    let d = devices[device_index as int];
    let first = d.first_logical_sector;
    lemma_align_to(first, d.alignment, d.alignment_offset);
    match align_to(first, d.alignment, d.alignment_offset) {
        Some(c) => {
            assert forall|s: int| s < c implies !#[trigger] free_at(
                extents,
                d,
                device_index,
                s,
                needed as int,
            ) by {
                if s >= first {
                    assert(!aligned(s, d.alignment, d.alignment_offset));
                }
            }
            lemma_scan_free(extents, d, device_index, needed, 0, c);
        },
        None => {},
    }
}

impl LpWriter {
    /// Finds free sectors on a block device, under its alignment and its size.
    pub fn find_free_sectors(
        &self,
        extents: &[Extent],
        devices: &[BlockDevice],
        device_index: u32,
        needed_sectors: u64,
    ) -> (r: Result<u64, Error>)
        ensures
            r == first_free(extents@, device_views(devices@), device_index, needed_sectors),
            r matches Ok(s) ==> free_at(
                extents@,
                devices@[device_index as int]@,
                device_index,
                s as int,
                needed_sectors as int,
            ),
    {
        if needed_sectors == 0 {
            return Err(Error::Invalid(Fault::ZeroSectors));
        }
        if device_index as usize >= devices.len() {
            return Err(Error::Invalid(Fault::BlockDevice));
        }
        let device = &devices[device_index as usize];
        let ghost d = device@;
        let limit = device.size / LP_SECTOR_SIZE;
        let used = Self::collect_used(extents, device_index)?;
        let mut candidate = match Self::align_up(
            device.first_logical_sector,
            device.alignment,
            device.alignment_offset,
        ) {
            Some(c) => c,
            None => {
                return Err(Error::Invalid(Fault::Alignment));
            },
        };
        let ghost result = first_free(
            extents@,
            device_views(devices@),
            device_index,
            needed_sectors,
        );
        proof {
            law_first_fit(extents@, device_views(devices@), device_index, needed_sectors);
        }
        let mut i: usize = 0;
        while i < used.len()
            invariant
                i <= used.len(),
                d == device@,
                limit == device.size / 512,
                result == first_free(
                    extents@,
                    device_views(devices@),
                    device_index,
                    needed_sectors,
                ),
                result matches Ok(s) ==> free_at(
                    extents@,
                    devices@[device_index as int]@,
                    device_index,
                    s as int,
                    needed_sectors as int,
                ),
                result == scan_free(used@, d, needed_sectors, i as int, candidate),
            ensures
                i == used.len(),
            decreases used.len() - i,
        {
            let (start, end) = used[i];
            let alloc_end = match candidate.checked_add(needed_sectors) {
                Some(v) => v,
                None => {
                    return Err(Error::Invalid(Fault::NoSpace));
                },
            };
            if alloc_end <= start {
                if limit > 0 && alloc_end > limit {
                    return Err(Error::Invalid(Fault::NoSpace));
                }
                return Ok(candidate);
            }
            if end > candidate {
                candidate = match Self::align_up(end, device.alignment, device.alignment_offset) {
                    Some(c) => c,
                    None => {
                        return Err(Error::Invalid(Fault::Alignment));
                    },
                };
            }
            i += 1;
        }
        let alloc_end = match candidate.checked_add(needed_sectors) {
            Some(v) => v,
            None => {
                return Err(Error::Invalid(Fault::NoSpace));
            },
        };
        if limit > 0 && alloc_end > limit {
            return Err(Error::Invalid(Fault::NoSpace));
        }
        Ok(candidate)
    }
}

/// The larger of two numbers.
pub open spec fn larger(a: int, b: int) -> int {
    if a < b {
        b
    } else {
        a
    }
}

/// Where a gap before the sector `start` ends on the device.
pub open spec fn gap_end(d: BlockDeviceView, start: int) -> int {
    if limit_of(d) > 0 && limit_of(d) < start {
        limit_of(d)
    } else {
        start
    }
}

/// The longest free run from the candidate `c` on, past the used ranges before
/// the `i`-th; `best` is the longest that was met before.
pub open spec fn scan_run(
    used: Seq<(u64, u64)>,
    d: BlockDeviceView,
    i: int,
    c: u64,
    best: u64,
) -> Result<u64, Error>
    decreases used.len() - i,
{
    if i < 0 || i >= used.len() {
        Ok(larger(best as int, limit_of(d) - c) as u64)
    } else {
        let b = larger(best as int, gap_end(d, used[i].0 as int) - c) as u64;
        if used[i].1 > c {
            match align_to(used[i].1, d.alignment, d.alignment_offset) {
                None => Err(Error::Invalid(Fault::Alignment)),
                Some(next) => if limit_of(d) > 0 && next >= limit_of(d) {
                    Ok(b)
                } else {
                    scan_run(used, d, i + 1, next, b)
                },
            }
        } else {
            scan_run(used, d, i + 1, c, b)
        }
    }
}

/// The longest free run on a device.
pub open spec fn longest_run(
    extents: Seq<Extent>,
    devices: Seq<BlockDeviceView>,
    device_index: u32,
) -> Result<u64, Error> {
    if device_index >= devices.len() {
        Err(Error::Invalid(Fault::BlockDevice))
    } else if !ranges_fit(extents, device_index) {
        Err(Error::Invalid(Fault::ExtentRange))
    } else {
        let d = devices[device_index as int];
        match align_to(d.first_logical_sector, d.alignment, d.alignment_offset) {
            None => Err(Error::Invalid(Fault::Alignment)),
            Some(c) => scan_run(used_of(extents, device_index), d, 0, c, 0),
        }
    }
}

/// The scan measures the longest run.
proof fn lemma_scan_run(
    extents: Seq<Extent>,
    d: BlockDeviceView,
    device_index: u32,
    i: int,
    c: u64,
    best: u64,
)
    requires
        ranges_fit(extents, device_index),
        0 <= i <= used_of(extents, device_index).len(),
        forall|k: int| 0 <= k < i ==> (#[trigger] used_of(extents, device_index)[k]).1 <= c,
        d.first_logical_sector <= c,
        aligned(c as int, d.alignment, d.alignment_offset),
        best > 0 ==> exists|s: int| free_at(extents, d, device_index, s, best as int),
        forall|s: int, n: int|
            s < c && n > 0 && #[trigger] free_at(extents, d, device_index, s, n) ==> n <= best,
    ensures
        scan_run(used_of(extents, device_index), d, i, c, best) matches Ok(run) ==> {
            &&& run >= best
            &&& run > 0 ==> exists|s: int| free_at(extents, d, device_index, s, run as int)
            &&& limit_of(d) > 0 ==> forall|s: int, n: int|
                n > 0 && #[trigger] free_at(extents, d, device_index, s, n) ==> n <= run
        },
    decreases used_of(extents, device_index).len() - i,
{
    let used = used_of(extents, device_index);
    lemma_by_start(used_list(extents, device_index));
    if i >= used.len() {
        if limit_of(d) > c {
            let n = limit_of(d) - c;
            assert forall|m: int|
                0 <= m < extents.len() && on_device(#[trigger] extents[m], device_index) implies
                extent_end(extents[m]) <= c || c + n <= extents[m].target_data by {
                let k = lemma_used_at(extents, device_index, m);
            }
            assert(free_at(extents, d, device_index, c as int, n));
        }
    } else {
        let start = used[i].0;
        let end = used[i].1;
        let gap = gap_end(d, start as int) - c;
        let b = larger(best as int, gap) as u64;
        let x = lemma_extent_at(extents, device_index, i);
        if gap > best {
            assert forall|m: int|
                0 <= m < extents.len() && on_device(#[trigger] extents[m], device_index) implies
                extent_end(extents[m]) <= c || c + gap <= extents[m].target_data by {
                let k = lemma_used_at(extents, device_index, m);
                if k > i {
                    assert(used[i].0 <= used[k].0);
                }
            }
            assert(free_at(extents, d, device_index, c as int, gap));
        }
        if end > c {
            lemma_align_to(end, d.alignment, d.alignment_offset);
            match align_to(end, d.alignment, d.alignment_offset) {
                None => {},
                Some(next) => {
                    assert forall|s: int, n: int|
                        s < next && n > 0 && #[trigger] free_at(
                            extents,
                            d,
                            device_index,
                            s,
                            n,
                        ) implies n <= b by {
                        if s >= c {
                            if s >= end {
                                assert(!aligned(s, d.alignment, d.alignment_offset));
                            }
                            assert(on_device(extents[x], device_index));
                        }
                    }
                    if limit_of(d) > 0 && next >= limit_of(d) {
                    } else {
                        lemma_scan_run(extents, d, device_index, i + 1, next, b);
                    }
                },
            }
        } else {
            lemma_scan_run(extents, d, device_index, i + 1, c, b);
        }
    }
}

/// The longest run of a device is free, and no aligned run is longer where
/// the device's size is known.
pub proof fn law_longest_run(
    extents: Seq<Extent>,
    devices: Seq<BlockDeviceView>,
    device_index: u32,
)
    ensures
        longest_run(extents, devices, device_index) matches Ok(run) ==> {
            let d = devices[device_index as int];
            &&& run > 0 ==> exists|s: int| free_at(extents, d, device_index, s, run as int)
            &&& limit_of(d) > 0 ==> forall|s: int, n: int|
                n > 0 && #[trigger] free_at(extents, d, device_index, s, n) ==> n <= run
        },
{
    if device_index < devices.len() && ranges_fit(extents, device_index) {
        let d = devices[device_index as int];
        lemma_align_to(d.first_logical_sector, d.alignment, d.alignment_offset);
        match align_to(d.first_logical_sector, d.alignment, d.alignment_offset) {
            None => {},
            Some(c) => {
                assert forall|s: int, n: int|
                    s < c && n > 0 && #[trigger] free_at(
                        extents,
                        d,
                        device_index,
                        s,
                        n,
                    ) implies n <= 0 by {
                    if s >= d.first_logical_sector {
                        assert(!aligned(s, d.alignment, d.alignment_offset));
                    }
                }
                lemma_scan_run(extents, d, device_index, 0, c, 0);
            },
        }
    }
}

/// Where a longer run than `best` was measured, first fit finds any part of it.
proof fn lemma_run_is_found(
    extents: Seq<Extent>,
    d: BlockDeviceView,
    device_index: u32,
    i: int,
    c: u64,
    best: u64,
    take: u64,
)
    requires
        ranges_fit(extents, device_index),
        0 <= i <= used_of(extents, device_index).len(),
        scan_run(used_of(extents, device_index), d, i, c, best) matches Ok(run) && run > best
            && 0 < take <= run,
    ensures
        scan_free(used_of(extents, device_index), d, take, i, c) is Ok,
        c + scan_run(used_of(extents, device_index), d, i, c, best)->Ok_0 <= u64::MAX,
    decreases used_of(extents, device_index).len() - i,
{
    let used = used_of(extents, device_index);
    if i < used.len() {
        let x = lemma_extent_at(extents, device_index, i);
        let gap = gap_end(d, used[i].0 as int) - c;
        let b = larger(best as int, gap) as u64;
        if used[i].1 > c {
            lemma_align_to(used[i].1, d.alignment, d.alignment_offset);
            match align_to(used[i].1, d.alignment, d.alignment_offset) {
                None => {},
                Some(next) => {
                    if limit_of(d) > 0 && next >= limit_of(d) {
                    } else if scan_run(used, d, i + 1, next, b)->Ok_0 > b {
                        lemma_run_is_found(extents, d, device_index, i + 1, next, b, take);
                    } else {
                        lemma_scan_run_grows(used, d, i + 1, next, b);
                    }
                },
            }
        } else if scan_run(used, d, i + 1, c, b)->Ok_0 > b {
            lemma_run_is_found(extents, d, device_index, i + 1, c, b, take);
        } else {
            lemma_scan_run_grows(used, d, i + 1, c, b);
        }
    }
}

proof fn lemma_scan_run_grows(
    used: Seq<(u64, u64)>,
    d: BlockDeviceView,
    i: int,
    c: u64,
    best: u64,
)
    ensures
        scan_run(used, d, i, c, best) matches Ok(run) ==> run >= best,
    decreases used.len() - i,
{
    if 0 <= i < used.len() {
        let b = larger(best as int, gap_end(d, used[i].0 as int) - c) as u64;
        if used[i].1 > c {
            match align_to(used[i].1, d.alignment, d.alignment_offset) {
                None => {},
                Some(next) => {
                    lemma_scan_run_grows(used, d, i + 1, next, b);
                },
            }
        } else {
            lemma_scan_run_grows(used, d, i + 1, c, b);
        }
    }
}

/// An allocation no longer than the longest run of a device succeeds there.
pub proof fn law_run_is_found(
    extents: Seq<Extent>,
    devices: Seq<BlockDeviceView>,
    device_index: u32,
    take: u64,
)
    requires
        longest_run(extents, devices, device_index) matches Ok(run) && 0 < take <= run,
    ensures
        first_free(extents, devices, device_index, take) is Ok,
{
    let d = devices[device_index as int];
    let c = align_to(d.first_logical_sector, d.alignment, d.alignment_offset)->Some_0;
    lemma_run_is_found(extents, d, device_index, 0, c, 0, take);
}

proof fn lemma_scan_run_errors(
    used: Seq<(u64, u64)>,
    d: BlockDeviceView,
    i: int,
    c: u64,
    best: u64,
)
    ensures
        scan_run(used, d, i, c, best) matches Err(e) ==> e == Error::Invalid(Fault::Alignment),
    decreases used.len() - i,
{
    if 0 <= i < used.len() {
        let b = larger(best as int, gap_end(d, used[i].0 as int) - c) as u64;
        if used[i].1 > c {
            match align_to(used[i].1, d.alignment, d.alignment_offset) {
                None => {},
                Some(next) => {
                    lemma_scan_run_errors(used, d, i + 1, next, b);
                },
            }
        } else {
            lemma_scan_run_errors(used, d, i + 1, c, b);
        }
    }
}

/// What stops the measuring of a device that is in the table.
pub proof fn lemma_run_errors(
    extents: Seq<Extent>,
    devices: Seq<BlockDeviceView>,
    device_index: u32,
)
    requires
        device_index < devices.len(),
    ensures
        longest_run(extents, devices, device_index) matches Err(e) ==> e == Error::Invalid(
            Fault::ExtentRange,
        ) || e == Error::Invalid(Fault::Alignment),
{
    let d = devices[device_index as int];
    match align_to(d.first_logical_sector, d.alignment, d.alignment_offset) {
        None => {},
        Some(c) => {
            lemma_scan_run_errors(used_of(extents, device_index), d, 0, c, 0);
        },
    }
}

impl LpWriter {
    /// The longest contiguous free run, in sectors, on one block device.
    pub fn largest_free_run(
        &self,
        extents: &[Extent],
        devices: &[BlockDevice],
        device_index: u32,
    ) -> (r: Result<u64, Error>)
        ensures
            r == longest_run(extents@, device_views(devices@), device_index),
    {
        if device_index as usize >= devices.len() {
            return Err(Error::Invalid(Fault::BlockDevice));
        }
        let device = &devices[device_index as usize];
        let ghost d = device@;
        let used = Self::collect_used(extents, device_index)?;
        let limit = device.size / LP_SECTOR_SIZE;
        let mut candidate = match Self::align_up(
            device.first_logical_sector,
            device.alignment,
            device.alignment_offset,
        ) {
            Some(c) => c,
            None => {
                return Err(Error::Invalid(Fault::Alignment));
            },
        };
        let mut best: u64 = 0;
        let ghost result = longest_run(extents@, device_views(devices@), device_index);
        let mut i: usize = 0;
        while i < used.len()
            invariant
                i <= used.len(),
                d == device@,
                limit == device.size / 512,
                result == longest_run(extents@, device_views(devices@), device_index),
                result == scan_run(used@, d, i as int, candidate, best),
            decreases used.len() - i,
        {
            let (start, end) = used[i];
            let stop = if limit > 0 && limit < start {
                limit
            } else {
                start
            };
            if stop > candidate && stop - candidate > best {
                best = stop - candidate;
            }
            if end > candidate {
                candidate = match Self::align_up(end, device.alignment, device.alignment_offset) {
                    Some(c) => c,
                    None => {
                        return Err(Error::Invalid(Fault::Alignment));
                    },
                };
                if limit > 0 && candidate >= limit {
                    return Ok(best);
                }
            }
            i += 1;
        }
        if limit > candidate && limit - candidate > best {
            best = limit - candidate;
        }
        Ok(best)
    }
}

} // verus!
