//! Removing several partitions at once, with their extents.

use crate::commands::edit::{
    chains_apart, drain, move_down, moved_down, windows_apart, with_first, without,
};
use crate::error::{Error, Fault};
use crate::format::{partition_views, Extent, Partition, PartitionView};
use crate::reader::data::{clone_list, extents_of_partition};
use vstd::prelude::*;

verus! {

/// A part of the extent table: first entry and number of entries.
pub type Range = (u32, u32);

/// The chains of the marked ones of the first `n` partitions.
pub open spec fn marked_ranges(
    partitions: Seq<PartitionView>,
    marked: Seq<bool>,
    n: int,
) -> Seq<Range>
    decreases n,
{
    if n <= 0 {
        Seq::empty()
    } else {
        let rest = marked_ranges(partitions, marked, n - 1);
        let p = partitions[n - 1];
        if marked[n - 1] {
            rest.push((p.first_extent_index, p.num_extents))
        } else {
            rest
        }
    }
}

/// `r` put into ranges that stand in descending order, behind those that start
/// no earlier.
pub open spec fn insert_descending(s: Seq<Range>, r: Range) -> Seq<Range>
    decreases s.len(),
{
    if s.len() == 0 || s.last().0 >= r.0 {
        s.push(r)
    } else {
        insert_descending(s.drop_last(), r).push(s.last())
    }
}

/// Ranges in descending order; those that start together keep their order.
pub open spec fn descending(s: Seq<Range>) -> Seq<Range>
    decreases s.len(),
{
    if s.len() == 0 {
        Seq::empty()
    } else {
        insert_descending(descending(s.drop_last()), s.last())
    }
}

/// The tables after the ranges from the `k`-th on were taken out of the extents,
/// and the chains behind each moved back.
pub open spec fn drained(
    partitions: Seq<PartitionView>,
    extents: Seq<Extent>,
    ranges: Seq<Range>,
    k: int,
) -> Result<(Seq<PartitionView>, Seq<Extent>), Error>
    decreases ranges.len() - k,
{
    if k < 0 || k >= ranges.len() {
        Ok((partitions, extents))
    } else {
        let first = ranges[k].0 as int;
        let num = ranges[k].1 as int;
        if first + num > extents.len() {
            Err(Error::Invalid(Fault::ExtentIndex))
        } else {
            drained(
                moved_down(partitions, -1, first, num),
                without(extents, first, first + num),
                ranges,
                k + 1,
            )
        }
    }
}

/// The unmarked ones of the first `n` partitions.
pub open spec fn unmarked(
    partitions: Seq<PartitionView>,
    marked: Seq<bool>,
    n: int,
) -> Seq<PartitionView>
    decreases n,
{
    if n <= 0 {
        Seq::empty()
    } else {
        let rest = unmarked(partitions, marked, n - 1);
        if marked[n - 1] {
            rest
        } else {
            rest.push(partitions[n - 1])
        }
    }
}

/// The tables after the marked partitions and their extents were removed.
pub open spec fn cascaded(
    partitions: Seq<PartitionView>,
    extents: Seq<Extent>,
    marked: Seq<bool>,
) -> Result<(Seq<PartitionView>, Seq<Extent>), Error> {
    let n = partitions.len() as int;
    let ranges = descending(marked_ranges(partitions, marked, n));
    match drained(partitions, extents, ranges, 0) {
        Err(e) => Err(e),
        Ok((p, e)) => Ok((unmarked(p, marked, n), e)),
    }
}

/// Where a range goes into ranges in descending order.
proof fn lemma_insert_at(s: Seq<Range>, r: Range, j: int)
    requires
        0 <= j <= s.len(),
        j > 0 ==> s[j - 1].0 >= r.0,
        forall|k: int| j <= k < s.len() ==> (#[trigger] s[k]).0 < r.0,
    ensures
        insert_descending(s, r) == s.insert(j, r),
    decreases s.len(),
{
    if j == s.len() {
        assert(s.insert(j, r) =~= s.push(r));
    } else {
        lemma_insert_at(s.drop_last(), r, j);
        assert(s.insert(j, r) =~= s.drop_last().insert(j, r).push(s.last()));
    }
}

/// Puts a range in its place.
fn insert_range(v: &mut Vec<Range>, r: Range)
    ensures
        final(v)@ == insert_descending(old(v)@, r),
{
    let mut j: usize = v.len();
    while j > 0 && v[j - 1].0 < r.0
        invariant
            j <= v.len(),
            forall|k: int| j <= k < v@.len() ==> (#[trigger] v@[k]).0 < r.0,
        decreases j,
    {
        j -= 1;
    }
    proof {
        lemma_insert_at(v@, r, j as int);
    }
    v.insert(j, r);
}

/// The chains of the marked partitions, in descending order.
fn collect_ranges(partitions: &Vec<Partition>, marked: &Vec<bool>) -> (r: Vec<Range>)
    requires
        marked@.len() == partitions@.len(),
    ensures
        r@ == descending(
            marked_ranges(
                partition_views(partitions@),
                marked@,
                partitions@.len() as int,
            ),
        ),
{
    let ghost views = partition_views(partitions@);
    let mut out: Vec<Range> = Vec::new();
    let mut i: usize = 0;
    while i < partitions.len()
        invariant
            i <= partitions.len() == marked@.len(),
            views == partition_views(partitions@),
            out@ == descending(marked_ranges(views, marked@, i as int)),
        decreases partitions.len() - i,
    {
        assert(views[i as int] == partitions@[i as int]@);
        if marked[i] {
            let r = (partitions[i].first_extent_index, partitions[i].num_extents);
            proof {
                let list = marked_ranges(views, marked@, i + 1);
                assert(list.drop_last() =~= marked_ranges(views, marked@, i as int));
            }
            insert_range(&mut out, r);
        }
        i += 1;
    }
    out
}

/// Drops the marked partitions.
fn retain_unmarked(partitions: &mut Vec<Partition>, marked: &Vec<bool>)
    requires
        marked@.len() == old(partitions)@.len(),
    ensures
        partition_views(final(partitions)@) == unmarked(
            partition_views(old(partitions)@),
            marked@,
            old(partitions)@.len() as int,
        ),
{
    let ghost views = partition_views(partitions@);
    let mut out: Vec<Partition> = Vec::new();
    let mut i: usize = 0;
    assert(partition_views(out@) =~= Seq::<PartitionView>::empty());
    while i < partitions.len()
        invariant
            i <= partitions.len() == marked@.len(),
            views == partition_views(partitions@),
            partition_views(out@) == unmarked(views, marked@, i as int),
        decreases partitions.len() - i,
    {
        assert(views[i as int] == partitions@[i as int]@);
        if !marked[i] {
            let ghost before = partition_views(out@);
            let p = partitions[i].clone();
            let ghost v = p@;
            out.push(p);
            assert(partition_views(out@) =~= before.push(v));
        }
        i += 1;
    }
    *partitions = out;
}

/// Removes the marked partitions and their extents, and tells how many extents
/// were freed. Where a chain runs past the table, everything stays as it was.
pub fn cascade(
    partitions: &mut Vec<Partition>,
    extents: &mut Vec<Extent>,
    marked: &Vec<bool>,
) -> (r: Result<u64, Error>)
    requires
        marked@.len() == old(partitions)@.len(),
    ensures
        ({
            let views = partition_views(old(partitions)@);
            match r {
                Ok(freed) => {
                    &&& cascaded(views, old(extents)@, marked@) == Ok::<
                        (Seq<PartitionView>, Seq<Extent>),
                        Error,
                    >((partition_views(final(partitions)@), final(extents)@))
                    &&& freed == old(extents)@.len() - final(extents)@.len()
                },
                Err(e) => cascaded(views, old(extents)@, marked@) == Err::<
                    (Seq<PartitionView>, Seq<Extent>),
                    Error,
                >(e) && final(partitions)@ == old(partitions)@ && final(extents)@ == old(extents)@,
            }
        }),
{
    let ghost views = partition_views(partitions@);
    let ghost all = extents@;
    let kept_partitions = clone_list(partitions);
    let kept_extents = clone_list(extents);
    let ranges = collect_ranges(partitions, marked);
    let before = extents.len();
    let mut k: usize = 0;
    while k < ranges.len()
        invariant
            k <= ranges.len(),
            partitions@.len() == views.len() == marked@.len(),
            extents@.len() <= before == all.len(),
            drained(views, all, ranges@, 0) == drained(
                partition_views(partitions@),
                extents@,
                ranges@,
                k as int,
            ),
            ranges@ == descending(marked_ranges(views, marked@, views.len() as int)),
            views == partition_views(old(partitions)@),
            all == old(extents)@,
            kept_partitions@ == old(partitions)@,
            kept_extents@ == all,
        decreases ranges.len() - k,
    {
        let first = ranges[k].0 as usize;
        let num = ranges[k].1 as usize;
        let total = extents.len();
        if num > total || first > total - num {
            *partitions = kept_partitions;
            *extents = kept_extents;
            return Err(Error::Invalid(Fault::ExtentIndex));
        }
        drain(extents, first, first + num);
        let ghost now = partition_views(partitions@);
        move_down(partitions, None, first, ranges[k].1);
        proof {
            assert(partition_views(partitions@).len() == now.len());
        }
        k += 1;
    }
    retain_unmarked(partitions, marked);
    Ok((before - extents.len()) as u64)
}

/// Whether two ranges share no entry.
spec fn ranges_apart(a: Range, b: Range) -> bool {
    a.1 == 0 || b.1 == 0 || a.0 + a.1 <= b.0 || b.0 + b.1 <= a.0
}

/// Whether no two ranges of a list share an entry.
spec fn list_apart(s: Seq<Range>) -> bool {
    forall|j: int, k: int|
        0 <= j < k < s.len() ==> ranges_apart(#[trigger] s[j], #[trigger] s[k])
}

/// Whether ranges stand in descending order.
spec fn is_descending(s: Seq<Range>) -> bool {
    forall|j: int, k: int| 0 <= j < k < s.len() ==> (#[trigger] s[j]).0 >= (#[trigger] s[k]).0
}

/// The place that a range is put into.
proof fn lemma_insert_place(s: Seq<Range>, r: Range) -> (j: int)
    ensures
        0 <= j <= s.len(),
        insert_descending(s, r) == s.insert(j, r),
        j > 0 ==> s[j - 1].0 >= r.0,
        forall|k: int| j <= k < s.len() ==> (#[trigger] s[k]).0 < r.0,
    decreases s.len(),
{
    if s.len() == 0 || s.last().0 >= r.0 {
        assert(s.insert(s.len() as int, r) =~= s.push(r));
        s.len() as int
    } else {
        let j = lemma_insert_place(s.drop_last(), r);
        assert forall|k: int| j <= k < s.len() implies (#[trigger] s[k]).0 < r.0 by {
            if k < s.len() - 1 {
                assert(s.drop_last()[k].0 < r.0);
            }
        }
        lemma_insert_at(s, r, j);
        j
    }
}

/// Sorting keeps the ranges and leaves them apart.
proof fn lemma_descending(s: Seq<Range>)
    requires
        list_apart(s),
    ensures
        is_descending(descending(s)),
        list_apart(descending(s)),
        forall|x: Range| #[trigger] descending(s).contains(x) ==> s.contains(x),
        descending(s).len() == s.len(),
    decreases s.len(),
{
    if s.len() > 0 {
        let t = s.drop_last();
        let r = s.last();
        assert(list_apart(t)) by {
            assert forall|j: int, k: int| 0 <= j < k < t.len() implies ranges_apart(
                #[trigger] t[j],
                #[trigger] t[k],
            ) by {
                assert(t[j] == s[j] && t[k] == s[k]);
            }
        }
        lemma_descending(t);
        let d = descending(t);
        let j0 = lemma_insert_place(d, r);
        let out = descending(s);
        assert(out == d.insert(j0, r));
        assert forall|i: int| 0 <= i < d.len() implies ranges_apart(#[trigger] d[i], r) by {
            assert(d.contains(d[i]));
            let m = t.index_of(d[i]);
            assert(s[m] == d[i]);
            assert(s[s.len() - 1] == r);
        }
        assert forall|j: int, k: int| 0 <= j < k < out.len() implies ranges_apart(
            #[trigger] out[j],
            #[trigger] out[k],
        ) && out[j].0 >= out[k].0 by {
            let a = if j < j0 {
                j
            } else {
                j - 1
            };
            let b = if k < j0 {
                k
            } else {
                k - 1
            };
            if j == j0 {
                assert(out[k] == d[b]);
            } else if k == j0 {
                assert(out[j] == d[a]);
                if j0 > 0 && a < j0 - 1 {
                    assert(d[a].0 >= d[j0 - 1].0);
                }
            } else {
                assert(out[j] == d[a] && out[k] == d[b]);
            }
        }
        assert forall|x: Range| #[trigger] out.contains(x) implies s.contains(x) by {
            let m = out.index_of(x);
            if m == j0 {
                assert(s[s.len() - 1] == x);
            } else {
                let a = if m < j0 {
                    m
                } else {
                    m - 1
                };
                assert(d[a] == x);
                assert(d.contains(x));
                let z = t.index_of(x);
                assert(s[z] == x);
            }
        }
    }
}

/// Whether a range is the chain of a marked one of the first `n` partitions.
spec fn is_marked_chain(
    partitions: Seq<PartitionView>,
    marked: Seq<bool>,
    n: int,
    r: Range,
) -> bool {
    exists|i: int| 0 <= i < n && marked[i] && r == chain_of(#[trigger] partitions[i])
}

/// The chains of marked partitions are chains of the table.
proof fn lemma_marked(partitions: Seq<PartitionView>, extents: Seq<Extent>, marked: Seq<bool>, n: int)
    requires
        chains_apart(partitions, extents),
        marked.len() == partitions.len(),
        0 <= n <= partitions.len(),
    ensures
        list_apart(marked_ranges(partitions, marked, n)),
        forall|k: int|
            0 <= k < marked_ranges(partitions, marked, n).len() ==> is_marked_chain(
                partitions,
                marked,
                n,
                #[trigger] marked_ranges(partitions, marked, n)[k],
            ),
    decreases n,
{
    if n > 0 {
        lemma_marked(partitions, extents, marked, n - 1);
        let rest = marked_ranges(partitions, marked, n - 1);
        let all = marked_ranges(partitions, marked, n);
        assert forall|k: int| 0 <= k < all.len() implies is_marked_chain(
            partitions,
            marked,
            n,
            #[trigger] all[k],
        ) by {
            if k < rest.len() {
                assert(all[k] == rest[k]);
                assert(is_marked_chain(partitions, marked, n - 1, rest[k]));
                let i = choose|i: int|
                    0 <= i < n - 1 && marked[i] && rest[k] == chain_of(#[trigger] partitions[i]);
                assert(0 <= i < n && marked[i]);
            } else {
                assert(all[k] == chain_of(partitions[n - 1]));
            }
        }
        assert forall|j: int, k: int| 0 <= j < k < all.len() implies ranges_apart(
            #[trigger] all[j],
            #[trigger] all[k],
        ) by {
            assert(all[j] == rest[j]);
            if k < rest.len() {
                assert(all[k] == rest[k]);
            } else {
                assert(is_marked_chain(partitions, marked, n - 1, rest[j]));
                let i = choose|i: int|
                    0 <= i < n - 1 && marked[i] && rest[j] == chain_of(#[trigger] partitions[i]);
                if partitions[i].num_extents > 0 && partitions[n - 1].num_extents > 0 {
                    assert(windows_apart(partitions[i], partitions[n - 1]));
                }
            }
        }
    }
}

/// What holds while ranges are taken out: the chains of the unmarked partitions
/// hold what they held, and lie apart from each other and from the ranges that
/// are still to come.
spec fn surviving(
    before: Seq<PartitionView>,
    all: Seq<Extent>,
    marked: Seq<bool>,
    partitions: Seq<PartitionView>,
    extents: Seq<Extent>,
    ranges: Seq<Range>,
    k: int,
) -> bool {
    &&& partitions.len() == before.len() == marked.len()
    &&& forall|j: int|
        0 <= j < before.len() && !marked[j] ==> {
            let p = #[trigger] partitions[j];
            &&& p == with_first(before[j], p.first_extent_index as int)
            &&& p.num_extents > 0 ==> p.first_extent_index + p.num_extents <= extents.len()
            &&& p.num_extents > 0 ==> extents_of_partition(extents, p) == extents_of_partition(
                all,
                before[j],
            )
        }
    &&& forall|i: int, j: int|
        0 <= i < j < before.len() && !marked[i] && !marked[j] && (
        #[trigger] partitions[i]).num_extents > 0 && (#[trigger] partitions[j]).num_extents > 0
            ==> windows_apart(partitions[i], partitions[j])
    &&& forall|m: int|
        k <= m < ranges.len() && (#[trigger] ranges[m]).1 > 0 ==> ranges[m].0 + ranges[m].1
            <= extents.len()
    &&& forall|m: int, j: int|
        k <= m < ranges.len() && 0 <= j < before.len() && !marked[j] ==> ranges_apart(
            #[trigger] ranges[m],
            chain_of(#[trigger] partitions[j]),
        )
}

/// The chain of a partition as a range.
spec fn chain_of(p: PartitionView) -> Range {
    (p.first_extent_index, p.num_extents)
}

/// Taking out one range keeps the chains of the unmarked partitions.
proof fn lemma_drain_step(
    before: Seq<PartitionView>,
    all: Seq<Extent>,
    marked: Seq<bool>,
    partitions: Seq<PartitionView>,
    extents: Seq<Extent>,
    ranges: Seq<Range>,
    k: int,
)
    requires
        surviving(before, all, marked, partitions, extents, ranges, k),
        0 <= k < ranges.len(),
        is_descending(ranges),
        list_apart(ranges),
        ranges[k].0 + ranges[k].1 <= extents.len(),
    ensures
        surviving(
            before,
            all,
            marked,
            moved_down(partitions, -1, ranges[k].0 as int, ranges[k].1 as int),
            without(extents, ranges[k].0 as int, ranges[k].0 + ranges[k].1),
            ranges,
            k + 1,
        ),
{
    let first = ranges[k].0 as int;
    let num = ranges[k].1 as int;
    let moved = moved_down(partitions, -1, first, num);
    let rest = without(extents, first, first + num);
    assert forall|j: int| 0 <= j < before.len() && !marked[j] implies {
        let p = #[trigger] moved[j];
        &&& p == with_first(before[j], p.first_extent_index as int)
        &&& p.num_extents > 0 ==> p.first_extent_index + p.num_extents <= rest.len()
        &&& p.num_extents > 0 ==> extents_of_partition(rest, p) == extents_of_partition(
            all,
            before[j],
        )
    } by {
        let p = partitions[j];
        assert(ranges_apart(ranges[k], chain_of(p)));
        if p.num_extents > 0 {
            assert(extents_of_partition(rest, moved[j]) =~= extents_of_partition(extents, p));
        }
    }
    assert forall|i: int, j: int|
        0 <= i < j < before.len() && !marked[i] && !marked[j] && (#[trigger] moved[i]).num_extents
            > 0 && (#[trigger] moved[j]).num_extents > 0 implies windows_apart(
        moved[i],
        moved[j],
    ) by {
        let p = partitions[i];
        let q = partitions[j];
        assert(ranges_apart(ranges[k], chain_of(p)));
        assert(ranges_apart(ranges[k], chain_of(q)));
        assert(windows_apart(p, q));
    }
    assert forall|m: int| k + 1 <= m < ranges.len() && (#[trigger] ranges[m]).1 > 0 implies ranges[m].0
        + ranges[m].1 <= rest.len() by {
        assert(ranges_apart(ranges[k], ranges[m]));
        assert(ranges[k].0 >= ranges[m].0);
    }
    assert forall|m: int, j: int|
        k + 1 <= m < ranges.len() && 0 <= j < before.len() && !marked[j] implies ranges_apart(
        #[trigger] ranges[m],
        chain_of(#[trigger] moved[j]),
    ) by {
        let p = partitions[j];
        assert(ranges_apart(ranges[m], chain_of(p)));
        assert(ranges_apart(ranges[k], chain_of(p)));
        assert(ranges_apart(ranges[k], ranges[m]));
        assert(ranges[k].0 >= ranges[m].0);
    }
}

proof fn lemma_drained(
    before: Seq<PartitionView>,
    all: Seq<Extent>,
    marked: Seq<bool>,
    partitions: Seq<PartitionView>,
    extents: Seq<Extent>,
    ranges: Seq<Range>,
    k: int,
)
    requires
        surviving(before, all, marked, partitions, extents, ranges, k),
        0 <= k <= ranges.len(),
        is_descending(ranges),
        list_apart(ranges),
    ensures
        drained(partitions, extents, ranges, k) matches Ok((p, e)) ==> surviving(
            before,
            all,
            marked,
            p,
            e,
            ranges,
            ranges.len() as int,
        ),
    decreases ranges.len() - k,
{
    if k < ranges.len() && ranges[k].0 + ranges[k].1 <= extents.len() {
        lemma_drain_step(before, all, marked, partitions, extents, ranges, k);
        lemma_drained(
            before,
            all,
            marked,
            moved_down(partitions, -1, ranges[k].0 as int, ranges[k].1 as int),
            without(extents, ranges[k].0 as int, ranges[k].0 + ranges[k].1),
            ranges,
            k + 1,
        );
    }
}

/// The index among the first `n` partitions of the `m`-th one that is unmarked.
pub open spec fn origin(marked: Seq<bool>, n: int, m: int) -> int
    decreases n,
{
    if n <= 0 {
        0
    } else if !marked[n - 1] && unmarked_count(marked, n - 1) == m {
        n - 1
    } else {
        origin(marked, n - 1, m)
    }
}

/// The number of unmarked ones among the first `n`.
pub open spec fn unmarked_count(marked: Seq<bool>, n: int) -> int
    decreases n,
{
    if n <= 0 {
        0
    } else {
        unmarked_count(marked, n - 1) + if marked[n - 1] {
            0int
        } else {
            1int
        }
    }
}

pub proof fn lemma_unmarked(partitions: Seq<PartitionView>, marked: Seq<bool>, n: int)
    requires
        0 <= n <= partitions.len() == marked.len(),
    ensures
        unmarked(partitions, marked, n).len() == unmarked_count(marked, n),
        forall|m: int|
            #![trigger unmarked(partitions, marked, n)[m]]
            #![trigger origin(marked, n, m)]
            0 <= m < unmarked_count(marked, n) ==> {
                let i = origin(marked, n, m);
                &&& 0 <= i < n
                &&& !marked[i]
                &&& unmarked(partitions, marked, n)[m] == partitions[i]
            },
        forall|a: int, b: int|
            0 <= a < b < unmarked_count(marked, n) ==> #[trigger] origin(marked, n, a)
                < #[trigger] origin(marked, n, b),
    decreases n,
{
    if n > 0 {
        lemma_unmarked(partitions, marked, n - 1);
        let c = unmarked_count(marked, n - 1);
        let rest = unmarked(partitions, marked, n - 1);
        let all = unmarked(partitions, marked, n);
        assert forall|m: int|
            #![trigger all[m]]
            #![trigger origin(marked, n, m)]
            0 <= m < unmarked_count(marked, n) implies {
            let i = origin(marked, n, m);
            &&& 0 <= i < n
            &&& !marked[i]
            &&& all[m] == partitions[i]
        } by {
            if m < c {
                assert(origin(marked, n, m) == origin(marked, n - 1, m));
                assert(rest[m] == partitions[origin(marked, n - 1, m)]);
                assert(all[m] == rest[m]);
            } else {
                assert(origin(marked, n, m) == n - 1);
            }
        }
        assert forall|a: int, b: int| 0 <= a < b < unmarked_count(marked, n) implies #[trigger] origin(
            marked,
            n,
            a,
        ) < #[trigger] origin(marked, n, b) by {
            assert(origin(marked, n, a) == origin(marked, n - 1, a));
            assert(rest[a] == partitions[origin(marked, n - 1, a)]);
            if b < c {
                assert(origin(marked, n, b) == origin(marked, n - 1, b));
            }
        }
    }
}

/// What is left is no longer than what was there.
pub proof fn lemma_unmarked_len(partitions: Seq<PartitionView>, marked: Seq<bool>, n: int)
    ensures
        unmarked(partitions, marked, n).len() <= if n > 0 {
            n
        } else {
            0
        },
    decreases n,
{
    if n > 0 {
        lemma_unmarked_len(partitions, marked, n - 1);
    }
}

/// The origin of an unmarked partition is unmarked.
pub proof fn lemma_origin(marked: Seq<bool>, n: int, m: int)
    requires
        0 <= n <= marked.len(),
        0 <= m < unmarked_count(marked, n),
    ensures
        0 <= origin(marked, n, m) < n,
        !marked[origin(marked, n, m)],
    decreases n,
{
    if n > 0 && !(!marked[n - 1] && unmarked_count(marked, n - 1) == m) {
        lemma_origin(marked, n - 1, m);
    }
}

/// Removing partitions with their extents leaves the others as they were: each
/// of them holds the same extents as before, in the same order, and the chains
/// lie apart.
pub proof fn law_cascade_keeps_others(
    partitions: Seq<PartitionView>,
    extents: Seq<Extent>,
    marked: Seq<bool>,
)
    requires
        chains_apart(partitions, extents),
        marked.len() == partitions.len(),
        cascaded(partitions, extents, marked) is Ok,
    ensures
        ({
            let (p, e) = cascaded(partitions, extents, marked)->Ok_0;
            let n = partitions.len() as int;
            &&& p.len() == unmarked_count(marked, n)
            &&& forall|m: int|
                0 <= m < p.len() ==> {
                    let old_one = partitions[origin(marked, n, m)];
                    &&& (#[trigger] p[m]).name == old_one.name
                    &&& p[m].attributes == old_one.attributes
                    &&& p[m].group_index == old_one.group_index
                    &&& p[m].num_extents == old_one.num_extents
                    &&& extents_of_partition(e, p[m]) == extents_of_partition(extents, old_one)
                }
            &&& chains_apart(p, e)
        }),
{
    let n = partitions.len() as int;
    let list = marked_ranges(partitions, marked, n);
    let ranges = descending(list);
    lemma_marked(partitions, extents, marked, n);
    lemma_descending(list);
    assert forall|m: int| 0 <= m < ranges.len() implies is_marked_chain(
        partitions,
        marked,
        n,
        #[trigger] ranges[m],
    ) by {
        assert(ranges.contains(ranges[m]));
        let z = list.index_of(ranges[m]);
        assert(list[z] == ranges[m]);
    }
    assert(surviving(partitions, extents, marked, partitions, extents, ranges, 0)) by {
        assert forall|m: int| 0 <= m < ranges.len() && (#[trigger] ranges[m]).1 > 0 implies ranges[m].0
            + ranges[m].1 <= extents.len() by {
            let i = choose|i: int|
                0 <= i < n && marked[i] && ranges[m] == chain_of(#[trigger] partitions[i]);
            assert(partitions[i].num_extents > 0);
        }
        assert forall|m: int, j: int|
            0 <= m < ranges.len() && 0 <= j < n && !marked[j] implies ranges_apart(
            #[trigger] ranges[m],
            chain_of(#[trigger] partitions[j]),
        ) by {
            let i = choose|i: int|
                0 <= i < n && marked[i] && ranges[m] == chain_of(#[trigger] partitions[i]);
            if partitions[i].num_extents > 0 && partitions[j].num_extents > 0 {
                if i < j {
                    assert(windows_apart(partitions[i], partitions[j]));
                } else {
                    assert(windows_apart(partitions[j], partitions[i]));
                }
            }
        }
    }
    lemma_drained(partitions, extents, marked, partitions, extents, ranges, 0);
    let (d, e) = drained(partitions, extents, ranges, 0)->Ok_0;
    let p = unmarked(d, marked, n);
    lemma_unmarked(d, marked, n);
    assert forall|m: int| 0 <= m < p.len() implies {
        let old_one = partitions[origin(marked, n, m)];
        &&& (#[trigger] p[m]).name == old_one.name
        &&& p[m].attributes == old_one.attributes
        &&& p[m].group_index == old_one.group_index
        &&& p[m].num_extents == old_one.num_extents
        &&& extents_of_partition(e, p[m]) == extents_of_partition(extents, old_one)
    } by {
        let i = origin(marked, n, m);
        assert(p[m] == d[i]);
        if d[i].num_extents == 0 {
            assert(extents_of_partition(e, d[i]) =~= Seq::<Extent>::empty());
            assert(extents_of_partition(extents, partitions[i]) =~= Seq::<Extent>::empty());
        }
    }
    assert forall|j: int, k: int|
        0 <= j < k < p.len() && (#[trigger] p[j]).num_extents > 0 && (
        #[trigger] p[k]).num_extents > 0 implies windows_apart(p[j], p[k]) by {
        let a = origin(marked, n, j);
        let b = origin(marked, n, k);
        assert(p[j] == d[a] && p[k] == d[b]);
        assert(a < b);
    }
    assert forall|j: int| 0 <= j < p.len() && (#[trigger] p[j]).num_extents > 0 implies p[j].first_extent_index
        + p[j].num_extents <= e.len() by {
        assert(p[j] == d[origin(marked, n, j)]);
    }
}

/// Ranges inside the table can be taken out one after another, from the back.
proof fn lemma_drained_owed(
    partitions: Seq<PartitionView>,
    extents: Seq<Extent>,
    ranges: Seq<Range>,
    k: int,
)
    requires
        0 <= k <= ranges.len(),
        is_descending(ranges),
        list_apart(ranges),
        forall|m: int|
            k <= m < ranges.len() ==> (#[trigger] ranges[m]).0 + ranges[m].1 <= extents.len(),
    ensures
        drained(partitions, extents, ranges, k) is Ok,
    decreases ranges.len() - k,
{
    if k < ranges.len() {
        let first = ranges[k].0 as int;
        let num = ranges[k].1 as int;
        let rest = without(extents, first, first + num);
        assert forall|m: int| k + 1 <= m < ranges.len() implies (#[trigger] ranges[m]).0
            + ranges[m].1 <= rest.len() by {
            assert(ranges_apart(ranges[k], ranges[m]));
            assert(ranges[k].0 >= ranges[m].0);
        }
        lemma_drained_owed(moved_down(partitions, -1, first, num), rest, ranges, k + 1);
    }
}

/// Partitions whose chains lie in the table and apart can always be removed.
pub proof fn law_cascade_owed(
    partitions: Seq<PartitionView>,
    extents: Seq<Extent>,
    marked: Seq<bool>,
)
    requires
        chains_apart(partitions, extents),
        marked.len() == partitions.len(),
        forall|j: int|
            0 <= j < partitions.len() && marked[j] ==> (#[trigger] partitions[j]).first_extent_index
                + partitions[j].num_extents <= extents.len(),
    ensures
        cascaded(partitions, extents, marked) is Ok,
{
    let n = partitions.len() as int;
    let list = marked_ranges(partitions, marked, n);
    let ranges = descending(list);
    lemma_marked(partitions, extents, marked, n);
    lemma_descending(list);
    assert forall|m: int| 0 <= m < ranges.len() implies (#[trigger] ranges[m]).0 + ranges[m].1
        <= extents.len() by {
        assert(ranges.contains(ranges[m]));
        let z = list.index_of(ranges[m]);
        assert(list[z] == ranges[m]);
        assert(is_marked_chain(partitions, marked, n, list[z]));
        let i = choose|i: int|
            0 <= i < n && marked[i] && list[z] == chain_of(#[trigger] partitions[i]);
        assert(partitions[i].first_extent_index + partitions[i].num_extents <= extents.len());
    }
    lemma_drained_owed(partitions, extents, ranges, 0);
}

} // verus!
