//! Edits of the partition and extent tables that keep the chains of all other
//! partitions intact.

use crate::format::{partition_views, Extent, Partition, PartitionView};
use crate::reader::data::sector_total;
use vstd::prelude::*;

verus! {

/// Whether every chain lies inside the extent table, and no two share an entry.
pub open spec fn chains_apart(partitions: Seq<PartitionView>, extents: Seq<Extent>) -> bool {
    &&& forall|j: int|
        0 <= j < partitions.len() && (#[trigger] partitions[j]).num_extents > 0
            ==> partitions[j].first_extent_index + partitions[j].num_extents <= extents.len()
    &&& forall|j: int, k: int|
        0 <= j < k < partitions.len() && (#[trigger] partitions[j]).num_extents > 0 && (
        #[trigger] partitions[k]).num_extents > 0 ==> windows_apart(partitions[j], partitions[k])
}

/// Whether two chains share no entry of the extent table.
pub open spec fn windows_apart(p: PartitionView, q: PartitionView) -> bool {
    p.first_extent_index + p.num_extents <= q.first_extent_index || q.first_extent_index
        + q.num_extents <= p.first_extent_index
}

/// A partition whose chain starts elsewhere.
pub open spec fn with_first(p: PartitionView, first: int) -> PartitionView {
    PartitionView { first_extent_index: first as u32, ..p }
}

/// A partition whose chain is of another length.
pub open spec fn with_count(p: PartitionView, count: int) -> PartitionView {
    PartitionView { num_extents: count as u32, ..p }
}

/// `n` less `m`, but not less than zero.
pub open spec fn less(n: int, m: int) -> int {
    if n > m {
        n - m
    } else {
        0
    }
}

/// The partitions after one entry came into the extent table at `at`: the
/// chains of all but `own` that start there or later move on by one.
pub open spec fn moved_up(partitions: Seq<PartitionView>, own: int, at: int) -> Seq<PartitionView> {
    Seq::new(
        partitions.len(),
        |k: int|
            {
                let p = partitions[k];
                if k != own && p.first_extent_index >= at {
                    with_first(
                        p,
                        if p.first_extent_index < u32::MAX {
                            p.first_extent_index + 1
                        } else {
                            u32::MAX as int
                        },
                    )
                } else {
                    p
                }
            },
    )
}

/// The partitions after `n` entries left the extent table: the chains of all but
/// `own` that start behind `beyond` move back by as many.
pub open spec fn moved_down(
    partitions: Seq<PartitionView>,
    own: int,
    beyond: int,
    n: int,
) -> Seq<PartitionView> {
    Seq::new(
        partitions.len(),
        |k: int|
            {
                let p = partitions[k];
                if k != own && p.first_extent_index > beyond {
                    with_first(p, less(p.first_extent_index as int, n))
                } else {
                    p
                }
            },
    )
}

/// A sequence without the items from `from` up to `to`.
pub open spec fn without<T>(s: Seq<T>, from: int, to: int) -> Seq<T> {
    s.take(from) + s.skip(to)
}

/// Moves the chains that start at or behind `at` on by one.
pub fn move_up(partitions: &mut Vec<Partition>, own: usize, at: usize)
    ensures
        partition_views(final(partitions)@) == moved_up(
            partition_views(old(partitions)@),
            own as int,
            at as int,
        ),
{
    let ghost before = partition_views(partitions@);
    let ghost after = moved_up(before, own as int, at as int);
    let mut i: usize = 0;
    while i < partitions.len()
        invariant
            i <= partitions.len() == before.len(),
            after == moved_up(before, own as int, at as int),
            forall|k: int| 0 <= k < i ==> (#[trigger] partitions@[k])@ == after[k],
            forall|k: int| i <= k < before.len() ==> (#[trigger] partitions@[k])@ == before[k],
        decreases partitions.len() - i,
    {
        if i != own && partitions[i].first_extent_index as usize >= at {
            let first = partitions[i].first_extent_index;
            let mut p = partitions[i].clone();
            p.first_extent_index = first.saturating_add(1);
            partitions[i] = p;
        }
        i += 1;
    }
    assert(partition_views(partitions@) =~= after);
}

/// Moves the chains that start behind `beyond` back by `n`.
pub fn move_down(partitions: &mut Vec<Partition>, own: Option<usize>, beyond: usize, n: u32)
    ensures
        partition_views(final(partitions)@) == moved_down(
            partition_views(old(partitions)@),
            match own {
                Some(i) => i as int,
                None => -1,
            },
            beyond as int,
            n as int,
        ),
{
    let ghost skip: int = match own {
        Some(i) => i as int,
        None => -1,
    };
    let ghost before = partition_views(partitions@);
    let ghost after = moved_down(before, skip, beyond as int, n as int);
    let mut i: usize = 0;
    while i < partitions.len()
        invariant
            i <= partitions.len() == before.len(),
            skip == (match own {
                Some(i) => i as int,
                None => -1,
            }),
            after == moved_down(before, skip, beyond as int, n as int),
            forall|k: int| 0 <= k < i ==> (#[trigger] partitions@[k])@ == after[k],
            forall|k: int| i <= k < before.len() ==> (#[trigger] partitions@[k])@ == before[k],
        decreases partitions.len() - i,
    {
        let is_own = match own {
            Some(o) => o == i,
            None => false,
        };
        if !is_own && partitions[i].first_extent_index as usize > beyond {
            let first = partitions[i].first_extent_index;
            let mut p = partitions[i].clone();
            p.first_extent_index = first.saturating_sub(n);
            partitions[i] = p;
        }
        i += 1;
    }
    assert(partition_views(partitions@) =~= after);
}

/// Sets the chain of a partition.
pub fn set_chain(partitions: &mut Vec<Partition>, index: usize, first: u32, count: u32)
    requires
        index < old(partitions).len(),
    ensures
        partition_views(final(partitions)@) == partition_views(old(partitions)@).update(
            index as int,
            with_count(
                with_first(partition_views(old(partitions)@)[index as int], first as int),
                count as int,
            ),
        ),
{
    let mut p = partitions[index].clone();
    p.first_extent_index = first;
    p.num_extents = count;
    let ghost v = p@;
    partitions[index] = p;
    assert(partition_views(partitions@) =~= partition_views(old(partitions)@).update(
        index as int,
        v,
    ));
}

/// Takes the extents from `from` up to `to` out of the table.
pub fn drain(extents: &mut Vec<Extent>, from: usize, to: usize)
    requires
        from <= to <= old(extents).len(),
    ensures
        final(extents)@ == without(old(extents)@, from as int, to as int),
{
    let mut tail = extents.split_off(to);
    extents.truncate(from);
    extents.append(&mut tail);
    assert(extents@ =~= without(old(extents)@, from as int, to as int));
}

/// The sectors of two runs of extents together.
pub proof fn lemma_total_append(a: Seq<Extent>, b: Seq<Extent>)
    ensures
        sector_total(a + b) == sector_total(a) + sector_total(b),
    decreases b.len(),
{
    if b.len() == 0 {
        assert(a + b =~= a);
    } else {
        assert((a + b).drop_last() =~= a + b.drop_last());
        lemma_total_append(a, b.drop_last());
    }
}

} // verus!
