//! What renaming and removing come to: which entries of the tables stay, and what
//! they hold.

use crate::commands::cascade::{
    cascaded, descending, drained, insert_descending, law_cascade_keeps_others, law_cascade_owed,
    lemma_unmarked, marked_ranges, origin, unmarked, Range,
};
use crate::commands::commit::commits;
use crate::commands::cow::{
    cleared, cow_names, cow_outcome, doomed, doomed_names, is_cow, pending, slot_cleared,
    slots_cleared, CowArgs, CowDone, CowSlot,
};
use crate::commands::edit::{chains_apart, moved_down, without};
use crate::commands::name_laws::{law_group_named, law_named, law_resolved, names_it};
use crate::commands::place_laws::first_group;
use crate::commands::remove::{
    law_group_removed, law_removed_keeps_others, member_count, members, remove_done, remove_plan,
    removed, without_group, without_partition, RemoveArgs, RemoveDone, RemovePlan,
};
use crate::commands::rename::{rename_done, rename_target, renamed, RenameArgs, RenameDone};
use crate::commands::split_util::group_named;
use crate::error::Error;
use crate::format::{Extent, GroupView, PartitionView, TablesView};
use crate::reader::data::{extents_of_partition, SuperView};
use crate::text::texts;
use crate::writer::render::slot_bytes;
use vstd::prelude::*;
use vstd::utf8::*;

verus! {

/// Whether `t2` is `t` but for the name of the `i`-th partition. Every partition has
/// the chain that it had.
pub open spec fn partition_renamed(t: TablesView, t2: TablesView, i: int, name: Seq<char>) -> bool {
    &&& 0 <= i < t.partitions.len()
    &&& t2.extents == t.extents
    &&& t2.groups == t.groups
    &&& t2.block_devices == t.block_devices
    &&& t2.partitions.len() == t.partitions.len()
    &&& t2.partitions[i].name == name
    &&& forall|j: int|
        0 <= j < t.partitions.len() ==> {
            let q = #[trigger] t2.partitions[j];
            let p = t.partitions[j];
            &&& j != i ==> q.name == p.name
            &&& q.attributes == p.attributes
            &&& q.group_index == p.group_index
            &&& q.first_extent_index == p.first_extent_index
            &&& q.num_extents == p.num_extents
            &&& extents_of_partition(t2.extents, q) == extents_of_partition(t.extents, p)
        }
}

/// Whether `t2` is `t` but for the name of the `i`-th group.
pub open spec fn group_renamed(t: TablesView, t2: TablesView, i: int, name: Seq<char>) -> bool {
    &&& 0 <= i < t.groups.len()
    &&& t2.partitions == t.partitions
    &&& t2.extents == t.extents
    &&& t2.block_devices == t.block_devices
    &&& t2.groups.len() == t.groups.len()
    &&& t2.groups[i].name == name
    &&& forall|j: int|
        0 <= j < t.groups.len() ==> {
            let q = #[trigger] t2.groups[j];
            let p = t.groups[j];
            &&& j != i ==> q.name == p.name
            &&& q.flags == p.flags
            &&& q.maximum_size == p.maximum_size
        }
}

/// Renaming changes the name of what was named and nothing else: attributes, groups,
/// chains and sizes stay. The new name fits in its field and was not taken.
pub proof fn law_renamed(
    d: SuperView,
    args: RenameArgs,
    suffix: Option<Seq<char>>,
    r: Result<RenameDone, Error>,
)
    requires
        rename_done(d, args, suffix, r),
        r is Ok,
    ensures
        ({
            let done = r->Ok_0;
            let t = d.tables;
            let name = args.new_name@;
            &&& d.image_format == "raw"@
            &&& encode_utf8(name).len() <= 36
            &&& done.write is None <==> args.dry_run
            &&& args.group ==> {
                &&& forall|j: int| 0 <= j < t.groups.len() ==> (#[trigger] t.groups[j]).name != name
                &&& done.name@ == args.old_name@
                &&& exists|i: int|
                    #[trigger] first_group(t.groups, args.old_name@, i) && (
                    done.write matches Some(w) ==> exists|t2: TablesView| #[trigger]
                        group_renamed(t, t2, i, name) && commits(
                            SuperView { tables: t2, ..d },
                            w,
                        ))
            }
            &&& !args.group ==> {
                &&& forall|j: int|
                    0 <= j < t.partitions.len() ==> (#[trigger] t.partitions[j]).name != name
                &&& exists|i: int|
                    #[trigger] names_it(t.partitions, args.old_name@, suffix, i) && done.name@
                        == t.partitions[i].name && (done.write matches Some(w) ==> exists|
                        t2: TablesView,
                    | #[trigger]
                        partition_renamed(t, t2, i, name) && commits(
                            SuperView { tables: t2, ..d },
                            w,
                        ))
            }
        }),
{
    let t = d.tables;
    let done = r->Ok_0;
    let i = rename_target(d, args, suffix)->Ok_0;
    let t2 = renamed(t, args.group, i, args.new_name@);
    law_group_named(t.groups, args.new_name@, 0);
    law_group_named(t.groups, args.old_name@, 0);
    law_named(t.partitions, args.new_name@, 0);
    law_resolved(t.partitions, args.old_name@, suffix);
    if args.group {
        assert(first_group(t.groups, args.old_name@, i));
        assert(group_renamed(t, t2, i, args.new_name@));
    } else {
        assert(names_it(t.partitions, args.old_name@, suffix, i));
        assert(partition_renamed(t, t2, i, args.new_name@));
    }
}

/// When renaming is refused: only of an image that is not raw, to a name that does not
/// fit or is taken, of a name that stands for nothing, or where the new tables cannot
/// be stored.
pub proof fn law_rename_refused(
    d: SuperView,
    args: RenameArgs,
    suffix: Option<Seq<char>>,
    r: Result<RenameDone, Error>,
)
    requires
        rename_done(d, args, suffix, r),
        r is Err,
    ensures
        ({
            let t = d.tables;
            let name = args.new_name@;
            let max = d.geometry.metadata_max_size;
            ||| d.image_format != "raw"@
            ||| encode_utf8(name).len() > 36
            ||| args.group && exists|j: int|
                0 <= j < t.groups.len() && (#[trigger] t.groups[j]).name == name
            ||| args.group && forall|j: int|
                0 <= j < t.groups.len() ==> (#[trigger] t.groups[j]).name != args.old_name@
            ||| !args.group && exists|j: int|
                0 <= j < t.partitions.len() && (#[trigger] t.partitions[j]).name == name
            ||| !args.group && forall|i: int|
                !#[trigger] names_it(t.partitions, args.old_name@, suffix, i)
            ||| !args.dry_run && args.group && exists|t2: TablesView, i: int| #[trigger]
                group_renamed(t, t2, i, name) && slot_bytes(d.header, t2, max) is Err
            ||| !args.dry_run && !args.group && exists|t2: TablesView, i: int| #[trigger]
                partition_renamed(t, t2, i, name) && slot_bytes(d.header, t2, max) is Err
        }),
{
    let t = d.tables;
    law_group_named(t.groups, args.new_name@, 0);
    law_group_named(t.groups, args.old_name@, 0);
    law_named(t.partitions, args.new_name@, 0);
    law_resolved(t.partitions, args.old_name@, suffix);
    if rename_target(d, args, suffix) is Ok {
        let i = rename_target(d, args, suffix)->Ok_0;
        let t2 = renamed(t, args.group, i, args.new_name@);
        assert(slot_bytes(d.header, t2, d.geometry.metadata_max_size) is Err);
        if args.group {
            assert(group_renamed(t, t2, i, args.new_name@));
        } else {
            assert(partition_renamed(t, t2, i, args.new_name@));
        }
    }
}

/// What a partition is apart from its place in the tables: its name, its attributes
/// and its chain.
pub open spec fn content(extents: Seq<Extent>, p: PartitionView) -> (Seq<char>, u32, Seq<Extent>) {
    (p.name, p.attributes, extents_of_partition(extents, p))
}

/// The contents of partitions, in order.
pub open spec fn contents(extents: Seq<Extent>, list: Seq<PartitionView>) -> Seq<
    (Seq<char>, u32, Seq<Extent>),
> {
    list.map_values(|p: PartitionView| content(extents, p))
}

/// The number of extents that partitions have together.
pub open spec fn extent_count(list: Seq<PartitionView>) -> int
    decreases list.len(),
{
    if list.len() == 0 {
        0
    } else {
        extent_count(list.drop_last()) + list.last().num_extents
    }
}

/// Taking a partition away takes its extents away, and no others.
pub proof fn law_removed_frees(t: TablesView, i: int)
    requires
        0 <= i < t.partitions.len(),
        without_partition(t, i) is Ok,
    ensures
        ({
            let t2 = without_partition(t, i)->Ok_0;
            let first = t.partitions[i].first_extent_index as int;
            let num = t.partitions[i].num_extents as int;
            &&& t2.extents.len() == t.extents.len() - num
            &&& forall|k: int| 0 <= k < first ==> #[trigger] t2.extents[k] == t.extents[k]
            &&& forall|k: int|
                first <= k < t2.extents.len() ==> #[trigger] t2.extents[k] == t.extents[k + num]
        }),
{
}

/// The marked ones of the first `n` partitions.
pub open spec fn marked_ones(list: Seq<PartitionView>, marked: Seq<bool>, n: int) -> Seq<
    PartitionView,
>
    decreases n,
{
    if n <= 0 {
        Seq::empty()
    } else if marked[n - 1] {
        marked_ones(list, marked, n - 1).push(list[n - 1])
    } else {
        marked_ones(list, marked, n - 1)
    }
}

/// The entries of ranges together.
spec fn range_total(s: Seq<Range>) -> int
    decreases s.len(),
{
    if s.len() == 0 {
        0
    } else {
        range_total(s.drop_last()) + s.last().1
    }
}

proof fn lemma_insert_total(s: Seq<Range>, r: Range)
    ensures
        range_total(insert_descending(s, r)) == range_total(s) + r.1,
    decreases s.len(),
{
    if s.len() == 0 || s.last().0 >= r.0 {
        assert(s.push(r).drop_last() =~= s);
    } else {
        lemma_insert_total(s.drop_last(), r);
        let inner = insert_descending(s.drop_last(), r);
        assert(inner.push(s.last()).drop_last() =~= inner);
    }
}

proof fn lemma_descending_total(s: Seq<Range>)
    ensures
        range_total(descending(s)) == range_total(s),
    decreases s.len(),
{
    if s.len() > 0 {
        lemma_descending_total(s.drop_last());
        lemma_insert_total(descending(s.drop_last()), s.last());
    }
}

proof fn lemma_marked_total(list: Seq<PartitionView>, marked: Seq<bool>, n: int)
    ensures
        range_total(marked_ranges(list, marked, n)) == extent_count(marked_ones(list, marked, n)),
    decreases n,
{
    if n > 0 {
        lemma_marked_total(list, marked, n - 1);
        let p = list[n - 1];
        let rest = marked_ranges(list, marked, n - 1);
        let ones = marked_ones(list, marked, n - 1);
        assert(rest.push((p.first_extent_index, p.num_extents)).drop_last() =~= rest);
        assert(ones.push(p).drop_last() =~= ones);
    }
}

proof fn lemma_drained_len(
    list: Seq<PartitionView>,
    extents: Seq<Extent>,
    ranges: Seq<Range>,
    k: int,
)
    requires
        0 <= k <= ranges.len(),
        drained(list, extents, ranges, k) is Ok,
    ensures
        drained(list, extents, ranges, k)->Ok_0.1.len() == extents.len() - (range_total(ranges)
            - range_total(ranges.take(k))),
    decreases ranges.len() - k,
{
    if k == ranges.len() {
        assert(ranges.take(k) =~= ranges);
    } else {
        let first = ranges[k].0 as int;
        let num = ranges[k].1 as int;
        assert(ranges.take(k + 1).drop_last() =~= ranges.take(k));
        lemma_drained_len(
            moved_down(list, -1, first, num),
            without(extents, first, first + num),
            ranges,
            k + 1,
        );
    }
}

/// Taking marked partitions away frees as many extents as they have together.
pub proof fn law_cascade_frees(list: Seq<PartitionView>, extents: Seq<Extent>, marked: Seq<bool>)
    requires
        cascaded(list, extents, marked) is Ok,
    ensures
        cascaded(list, extents, marked)->Ok_0.1.len() == extents.len() - extent_count(
            marked_ones(list, marked, list.len() as int),
        ),
{
    let n = list.len() as int;
    let found = marked_ranges(list, marked, n);
    let ranges = descending(found);
    lemma_marked_total(list, marked, n);
    lemma_descending_total(found);
    lemma_drained_len(list, extents, ranges, 0);
    assert(ranges.take(0) =~= Seq::<Range>::empty());
    assert(range_total(ranges.take(0)) == 0);
}

/// The unmarked partitions are those that a filter lets through.
proof fn lemma_filtered(
    list: Seq<PartitionView>,
    marked: Seq<bool>,
    goes: spec_fn(PartitionView) -> bool,
    n: int,
)
    requires
        0 <= n <= list.len() == marked.len(),
        forall|k: int| 0 <= k < list.len() ==> #[trigger] marked[k] == goes(list[k]),
    ensures
        unmarked(list, marked, n) == list.take(n).filter(|p: PartitionView| !goes(p)),
        marked_ones(list, marked, n) == list.take(n).filter(goes),
    decreases n,
{
    reveal(Seq::filter);
    if n > 0 {
        lemma_filtered(list, marked, goes, n - 1);
        assert(list.take(n).drop_last() =~= list.take(n - 1));
        assert(list.take(n).last() == list[n - 1]);
        assert(marked[n - 1] == goes(list[n - 1]));
    } else {
        assert(list.take(n) =~= Seq::<PartitionView>::empty());
    }
}

/// Taking away the partitions that a filter picks leaves all others, in order, with
/// what they held; as many extents go as those partitions had.
pub proof fn lemma_cascade(
    list: Seq<PartitionView>,
    extents: Seq<Extent>,
    marked: Seq<bool>,
    goes: spec_fn(PartitionView) -> bool,
)
    requires
        chains_apart(list, extents),
        marked.len() == list.len(),
        forall|k: int| 0 <= k < list.len() ==> #[trigger] marked[k] == goes(list[k]),
        cascaded(list, extents, marked) is Ok,
    ensures
        ({
            let (p, e) = cascaded(list, extents, marked)->Ok_0;
            let stay = list.filter(|p: PartitionView| !goes(p));
            &&& p.len() == stay.len()
            &&& contents(e, p) == contents(extents, stay)
            &&& forall|m: int|
                0 <= m < p.len() ==> (#[trigger] p[m]).group_index == stay[m].group_index
            &&& e.len() == extents.len() - extent_count(list.filter(goes))
            &&& chains_apart(p, e)
        }),
{
    let n = list.len() as int;
    let (p, e) = cascaded(list, extents, marked)->Ok_0;
    let stay = list.filter(|p: PartitionView| !goes(p));
    law_cascade_keeps_others(list, extents, marked);
    law_cascade_frees(list, extents, marked);
    lemma_filtered(list, marked, goes, n);
    lemma_unmarked(list, marked, n);
    assert(list.take(n) =~= list);
    let rest = unmarked(list, marked, n);
    assert forall|m: int| 0 <= m < p.len() implies content(e, p[m]) == content(extents, stay[m])
        && (#[trigger] p[m]).group_index == stay[m].group_index by {
        assert(rest[m] == list[origin(marked, n, m)]);
    }
    assert(contents(e, p) =~= contents(extents, stay));
}

proof fn lemma_count_filter(list: Seq<PartitionView>, group: int, n: int)
    requires
        0 <= n <= list.len(),
    ensures
        list.take(n).filter(|p: PartitionView| p.group_index == group).len() == member_count(
            list,
            group,
            n,
        ),
    decreases n,
{
    reveal(Seq::filter);
    if n > 0 {
        lemma_count_filter(list, group, n - 1);
        assert(list.take(n).drop_last() =~= list.take(n - 1));
        assert(list.take(n).last() == list[n - 1]);
    } else {
        assert(list.take(n) =~= Seq::<PartitionView>::empty());
    }
}

proof fn lemma_all_stay(list: Seq<PartitionView>, goes: spec_fn(PartitionView) -> bool, n: int)
    requires
        0 <= n <= list.len(),
        list.take(n).filter(goes).len() == 0,
    ensures
        list.take(n).filter(|p: PartitionView| !goes(p)) == list.take(n),
        extent_count(list.take(n).filter(goes)) == 0,
    decreases n,
{
    reveal(Seq::filter);
    if n > 0 {
        assert(list.take(n).drop_last() =~= list.take(n - 1));
        assert(list.take(n).last() == list[n - 1]);
        lemma_all_stay(list, goes, n - 1);
        assert(list.take(n - 1).push(list[n - 1]) =~= list.take(n));
    } else {
        assert(list.take(n) =~= Seq::<PartitionView>::empty());
    }
}

/// Whether `t2` is `t` without a group and the partitions in it: all others are there,
/// in order, with what they held, and each in the group that it was in.
pub open spec fn group_gone(t: TablesView, t2: TablesView, group: int) -> bool {
    let inside = |p: PartitionView| p.group_index == group;
    let stay = t.partitions.filter(|p: PartitionView| !inside(p));
    &&& t2.groups == t.groups.take(group) + t.groups.skip(group + 1)
    &&& t2.block_devices == t.block_devices
    &&& t2.partitions.len() == stay.len()
    &&& contents(t2.extents, t2.partitions) == contents(t.extents, stay)
    &&& forall|m: int|
        0 <= m < stay.len() && (#[trigger] stay[m]).group_index < t.groups.len()
            ==> t2.partitions[m].group_index < t2.groups.len()
            && t2.groups[t2.partitions[m].group_index as int]
            == t.groups[stay[m].group_index as int]
    &&& t2.extents.len() == t.extents.len() - extent_count(t.partitions.filter(inside))
    &&& chains_apart(t2.partitions, t2.extents)
}

/// Removing a group takes it and its partitions away, with the extents of those, and
/// leaves everything else as it was.
pub proof fn law_group_gone(t: TablesView, group: int)
    requires
        0 <= group < t.groups.len() <= u32::MAX,
        chains_apart(t.partitions, t.extents),
        without_group(t, group) is Ok,
    ensures
        group_gone(t, without_group(t, group)->Ok_0, group),
{
    let n = t.partitions.len() as int;
    let t2 = without_group(t, group)->Ok_0;
    let inside = |p: PartitionView| p.group_index == group;
    let stay = t.partitions.filter(|p: PartitionView| !inside(p));
    law_group_removed(t, group);
    lemma_count_filter(t.partitions, group, n);
    assert(t.partitions.take(n) =~= t.partitions);
    assert(t.groups.remove(group) =~= t.groups.take(group) + t.groups.skip(group + 1));
    lemma_filter_stays(t.partitions, |p: PartitionView| !inside(p));
    if member_count(t.partitions, group, n) == 0 {
        lemma_all_stay(t.partitions, inside, n);
        assert(contents(t2.extents, t2.partitions) =~= contents(t.extents, stay)) by {
            assert forall|m: int| 0 <= m < n implies content(t2.extents, #[trigger] t2.partitions[m])
                == content(t.extents, stay[m]) by {}
        }
    } else {
        let marked = members(t.partitions, group);
        lemma_cascade(t.partitions, t.extents, marked, inside);
        let (p, e) = cascaded(t.partitions, t.extents, marked)->Ok_0;
        assert(contents(t2.extents, t2.partitions) =~= contents(e, p)) by {
            assert forall|m: int| 0 <= m < p.len() implies content(t2.extents, #[trigger] t2.partitions[m])
                == content(e, p[m]) by {}
        }
        assert forall|m: int| 0 <= m < stay.len() && (#[trigger] stay[m]).group_index
            < t.groups.len() implies t2.partitions[m].group_index < t2.groups.len()
            && t2.groups[t2.partitions[m].group_index as int]
            == t.groups[stay[m].group_index as int] by {
            assert(p[m].group_index == stay[m].group_index);
        }
    }
}

/// What a filter lets through passes it.
proof fn lemma_filter_stays(list: Seq<PartitionView>, stays: spec_fn(PartitionView) -> bool)
    ensures
        forall|m: int|
            0 <= m < list.filter(stays).len() ==> stays(#[trigger] list.filter(stays)[m]),
    decreases list.len(),
{
    reveal(Seq::filter);
    if list.len() > 0 {
        lemma_filter_stays(list.drop_last(), stays);
    }
}

/// Whether `t2` is `t` without the `i`-th partition and its extents: all others are
/// there, in order, with what they held.
pub open spec fn partition_gone(t: TablesView, t2: TablesView, i: int) -> bool {
    let stay = t.partitions.take(i) + t.partitions.skip(i + 1);
    let first = t.partitions[i].first_extent_index as int;
    let num = t.partitions[i].num_extents as int;
    &&& t2.partitions.len() == stay.len()
    &&& contents(t2.extents, t2.partitions) == contents(t.extents, stay)
    &&& forall|m: int|
        0 <= m < stay.len() ==> (#[trigger] t2.partitions[m]).group_index == stay[m].group_index
    &&& t2.extents == t.extents.take(first) + t.extents.skip(first + num)
    &&& t2.extents.len() == t.extents.len() - num
    &&& t2.groups == t.groups
    &&& t2.block_devices == t.block_devices
    &&& chains_apart(t2.partitions, t2.extents)
}

/// Removing a partition takes it and its extents away, and leaves everything else as
/// it was.
pub proof fn law_partition_gone(t: TablesView, i: int)
    requires
        0 <= i < t.partitions.len(),
        chains_apart(t.partitions, t.extents),
        without_partition(t, i) is Ok,
    ensures
        partition_gone(t, without_partition(t, i)->Ok_0, i),
{
    let t2 = without_partition(t, i)->Ok_0;
    let stay = t.partitions.take(i) + t.partitions.skip(i + 1);
    law_removed_keeps_others(t, i);
    assert forall|m: int| 0 <= m < stay.len() implies content(
        t2.extents,
        #[trigger] t2.partitions[m],
    ) == content(t.extents, stay[m]) && t2.partitions[m].group_index == stay[m].group_index by {
        assert(stay[m] == t.partitions[if m < i {
            m
        } else {
            m + 1
        }]);
    }
    assert(contents(t2.extents, t2.partitions) =~= contents(t.extents, stay));
}

/// A removal takes away what was named. A group that still has partitions goes only
/// where that was forced, and they go with it. A preview writes nothing; else tables
/// are stored that lack just what was to go.
pub proof fn law_removed(
    d: SuperView,
    args: RemoveArgs,
    suffix: Option<Seq<char>>,
    r: Result<RemoveDone, Error>,
)
    requires
        chains_apart(d.tables.partitions, d.tables.extents),
        d.tables.groups.len() <= u32::MAX,
        d.tables.partitions.len() <= usize::MAX,
        remove_done(d, args, suffix, r),
        r is Ok,
    ensures
        ({
            let done = r->Ok_0;
            let t = d.tables;
            &&& d.image_format == "raw"@
            &&& done.write is None <==> args.dry_run
            &&& args.dry_run ==> done.freed == 0
            &&& match done.plan {
                RemovePlan::Partition { index } => {
                    let i = index as int;
                    &&& !args.group
                    &&& names_it(t.partitions, args.name@, suffix, i)
                    &&& done.name@ == t.partitions[i].name
                    &&& done.write matches Some(w) ==> done.freed == t.partitions[i].num_extents
                        && exists|t2: TablesView| #[trigger]
                        partition_gone(t, t2, i) && commits(SuperView { tables: t2, ..d }, w)
                },
                RemovePlan::Group { index, members } => {
                    let g = index as int;
                    let inside = t.partitions.filter(|p: PartitionView| p.group_index == g);
                    &&& args.group
                    &&& first_group(t.groups, args.name@, g)
                    &&& done.name@ == args.name@
                    &&& members == inside.len()
                    &&& members > 0 ==> args.force
                    &&& done.write matches Some(w) ==> done.freed == extent_count(inside)
                        && exists|t2: TablesView| #[trigger]
                        group_gone(t, t2, g) && commits(SuperView { tables: t2, ..d }, w)
                },
            }
        }),
{
    let done = r->Ok_0;
    let t = d.tables;
    law_resolved(t.partitions, args.name@, suffix);
    law_group_named(t.groups, args.name@, 0);
    match done.plan {
        RemovePlan::Partition { index } => {
            if !args.dry_run {
                law_partition_gone(t, index as int);
                let t2 = without_partition(t, index as int)->Ok_0;
                assert(partition_gone(t, t2, index as int));
            }
        },
        RemovePlan::Group { index, members } => {
            let g = index as int;
            let n = t.partitions.len() as int;
            lemma_count_filter(t.partitions, g, n);
            assert(t.partitions.take(n) =~= t.partitions);
            if !args.dry_run {
                law_group_gone(t, g);
                let t2 = without_group(t, g)->Ok_0;
                assert(group_gone(t, t2, g));
            }
        },
    }
}

/// When a removal is refused: only of an image that is not raw, of a name that stands
/// for nothing, of a group in use unless that is forced, of a chain that runs past the
/// table, or where the new tables cannot be stored.
pub proof fn law_remove_refused(
    d: SuperView,
    args: RemoveArgs,
    suffix: Option<Seq<char>>,
    r: Result<RemoveDone, Error>,
)
    requires
        chains_apart(d.tables.partitions, d.tables.extents),
        d.tables.groups.len() <= u32::MAX,
        d.tables.partitions.len() <= usize::MAX,
        remove_done(d, args, suffix, r),
        r is Err,
    ensures
        ({
            let t = d.tables;
            let max = d.geometry.metadata_max_size;
            ||| d.image_format != "raw"@
            ||| args.group && forall|j: int|
                0 <= j < t.groups.len() ==> (#[trigger] t.groups[j]).name != args.name@
            ||| args.group && !args.force && exists|g: int, j: int|
                #![trigger first_group(t.groups, args.name@, g), t.partitions[j]]
                first_group(t.groups, args.name@, g) && 0 <= j < t.partitions.len()
                    && t.partitions[j].group_index == g
            ||| !args.group && forall|i: int|
                !#[trigger] names_it(t.partitions, args.name@, suffix, i)
            ||| !args.dry_run && exists|j: int|
                0 <= j < t.partitions.len() && (#[trigger] t.partitions[j]).first_extent_index
                    + t.partitions[j].num_extents > t.extents.len()
            ||| !args.dry_run && args.group && exists|t2: TablesView, g: int| #[trigger]
                group_gone(t, t2, g) && slot_bytes(d.header, t2, max) is Err
            ||| !args.dry_run && !args.group && exists|t2: TablesView, i: int| #[trigger]
                partition_gone(t, t2, i) && slot_bytes(d.header, t2, max) is Err
        }),
{
    let t = d.tables;
    let n = t.partitions.len() as int;
    law_resolved(t.partitions, args.name@, suffix);
    law_group_named(t.groups, args.name@, 0);
    match remove_plan(d, args, suffix) {
        Err(_) => {
            if d.image_format == "raw"@ && args.group && group_named(t.groups, args.name@, 0)
                is Some {
                let g = group_named(t.groups, args.name@, 0)->Some_0;
                assert(first_group(t.groups, args.name@, g));
                lemma_count_filter(t.partitions, g, n);
                lemma_member_among(t.partitions, g, n);
            }
        },
        Ok(plan) => match plan {
            RemovePlan::Partition { index } => {
                let i = index as int;
                if without_partition(t, i) is Ok {
                    law_partition_gone(t, i);
                    assert(partition_gone(t, without_partition(t, i)->Ok_0, i));
                } else {
                    let p = t.partitions[i];
                }
            },
            RemovePlan::Group { index, members: count } => {
                let g = index as int;
                if without_group(t, g) is Ok {
                    law_group_gone(t, g);
                    assert(group_gone(t, without_group(t, g)->Ok_0, g));
                } else if forall|j: int|
                    0 <= j < n ==> (#[trigger] t.partitions[j]).first_extent_index
                        + t.partitions[j].num_extents <= t.extents.len() {
                    law_cascade_owed(t.partitions, t.extents, members(t.partitions, g));
                }
            },
        },
    }
}

/// A group with a count has a member.
proof fn lemma_member_among(list: Seq<PartitionView>, group: int, n: int)
    requires
        0 <= n <= list.len(),
        member_count(list, group, n) > 0,
    ensures
        exists|j: int| 0 <= j < n && (#[trigger] list[j]).group_index == group,
    decreases n,
{
    if list[n - 1].group_index != group {
        lemma_member_among(list, group, n - 1);
    }
}

/// Whether a partition is one that an update left behind: in the group `cow`, with a
/// name that ends in `-cow`.
pub open spec fn left_behind(groups: Seq<GroupView>, p: PartitionView) -> bool {
    let n = p.name.len() as int;
    &&& p.group_index < groups.len()
    &&& groups[p.group_index as int].name == seq!['c', 'o', 'w']
    &&& n >= 4
    &&& p.name[n - 4] == '-'
    &&& p.name[n - 3] == 'c'
    &&& p.name[n - 2] == 'o'
    &&& p.name[n - 1] == 'w'
}

/// A copy-on-write partition is one of the group `cow` whose name ends in `-cow`.
pub proof fn law_left_behind(t: TablesView, i: int)
    requires
        0 <= i < t.partitions.len(),
    ensures
        is_cow(t, i) <==> left_behind(t.groups, t.partitions[i]),
{
    reveal_strlit("-cow");
    reveal_strlit("cow");
    assert("cow"@ =~= seq!['c', 'o', 'w']);
    assert("-cow"@ =~= seq!['-', 'c', 'o', 'w']);
    let name = t.partitions[i].name;
    let n = name.len() as int;
    if n >= 4 {
        let tail = name.subrange(n - 4, n);
        assert(tail[0] == name[n - 4] && tail[1] == name[n - 3] && tail[2] == name[n - 2]
            && tail[3] == name[n - 1]);
        if left_behind(t.groups, t.partitions[i]) {
            assert(tail =~= "-cow"@);
        }
    }
}

/// Whether `t2` is `t` without the copy-on-write partitions: all others are there, in
/// order, with what they held and in their groups.
pub open spec fn cow_gone(t: TablesView, t2: TablesView) -> bool {
    let goes = |p: PartitionView| left_behind(t.groups, p);
    let stay = t.partitions.filter(|p: PartitionView| !goes(p));
    &&& t2.groups == t.groups
    &&& t2.block_devices == t.block_devices
    &&& t2.partitions.len() == stay.len()
    &&& contents(t2.extents, t2.partitions) == contents(t.extents, stay)
    &&& forall|m: int|
        0 <= m < stay.len() ==> (#[trigger] t2.partitions[m]).group_index == stay[m].group_index
    &&& t2.extents.len() == t.extents.len() - extent_count(t.partitions.filter(goes))
    &&& chains_apart(t2.partitions, t2.extents)
}

/// The names of the copy-on-write partitions, in order.
pub open spec fn names_gone(t: TablesView) -> Seq<Seq<char>> {
    t.partitions.filter(|p: PartitionView| left_behind(t.groups, p)).map_values(
        |p: PartitionView| p.name,
    )
}

proof fn lemma_cow_names(t: TablesView, n: int)
    requires
        0 <= n <= t.partitions.len(),
    ensures
        cow_names(t, n) == t.partitions.take(n).filter(
            |p: PartitionView| left_behind(t.groups, p),
        ).map_values(|p: PartitionView| p.name),
    decreases n,
{
    reveal(Seq::filter);
    let goes = |p: PartitionView| left_behind(t.groups, p);
    if n > 0 {
        lemma_cow_names(t, n - 1);
        law_left_behind(t, n - 1);
        assert(t.partitions.take(n).drop_last() =~= t.partitions.take(n - 1));
        assert(t.partitions.take(n).last() == t.partitions[n - 1]);
        let front = t.partitions.take(n - 1).filter(goes);
        assert(front.push(t.partitions[n - 1]).map_values(|p: PartitionView| p.name)
            =~= front.map_values(|p: PartitionView| p.name).push(t.partitions[n - 1].name));
    } else {
        assert(t.partitions.take(n) =~= Seq::<PartitionView>::empty());
        assert(t.partitions.take(n).filter(goes).map_values(|p: PartitionView| p.name)
            =~= Seq::<Seq<char>>::empty());
    }
}

/// The number of partitions that a filter picks and leaves.
proof fn lemma_filter_counts(list: Seq<PartitionView>, goes: spec_fn(PartitionView) -> bool)
    ensures
        list.filter(goes).len() + list.filter(|p: PartitionView| !goes(p)).len() == list.len(),
    decreases list.len(),
{
    reveal(Seq::filter);
    if list.len() > 0 {
        lemma_filter_counts(list.drop_last(), goes);
    }
}

/// Clearing a slot takes away the copy-on-write partitions and nothing else, and tells
/// their names, their number and the number of their extents. A preview only names
/// them.
pub proof fn law_cow_cleared(d: SuperView, dry_run: bool, s: CowSlot)
    requires
        chains_apart(d.tables.partitions, d.tables.extents),
        slot_cleared(d, dry_run, Ok(s)),
    ensures
        ({
            let t = d.tables;
            let gone = t.partitions.filter(|p: PartitionView| left_behind(t.groups, p));
            &&& s.slot == d.metadata_slot
            &&& texts(s.names@) == names_gone(t)
            &&& s.write is None <==> dry_run
            &&& dry_run ==> s.removed == 0 && s.freed == 0
            &&& s.write matches Some(w) ==> s.removed == gone.len() && s.freed == extent_count(
                gone,
            ) && exists|t2: TablesView| #[trigger]
                cow_gone(t, t2) && commits(SuperView { tables: t2, ..d }, w)
        }),
{
    let t = d.tables;
    let n = t.partitions.len() as int;
    let goes = |p: PartitionView| left_behind(t.groups, p);
    lemma_cow_names(t, n);
    assert(t.partitions.take(n) =~= t.partitions);
    if !dry_run {
        let marked = doomed(t);
        assert forall|k: int| 0 <= k < n implies #[trigger] marked[k] == goes(t.partitions[k]) by {
            law_left_behind(t, k);
        }
        lemma_cascade(t.partitions, t.extents, marked, goes);
        lemma_filter_counts(t.partitions, goes);
        let t2 = cleared(t)->Ok_0;
        assert(cow_gone(t, t2));
    }
}

/// Whether a slot has a copy-on-write partition.
pub open spec fn has_cow(d: SuperView) -> bool {
    exists|j: int|
        0 <= j < d.tables.partitions.len() && left_behind(
            d.tables.groups,
            #[trigger] d.tables.partitions[j],
        )
}

proof fn lemma_has_cow(d: SuperView)
    ensures
        doomed_names(d.tables).len() > 0 <==> has_cow(d),
{
    lemma_has_cow_among(d.tables, d.tables.partitions.len() as int);
}

proof fn lemma_has_cow_among(t: TablesView, n: int)
    requires
        0 <= n <= t.partitions.len(),
    ensures
        cow_names(t, n).len() > 0 <==> exists|j: int|
            0 <= j < n && left_behind(t.groups, #[trigger] t.partitions[j]),
    decreases n,
{
    if n > 0 {
        lemma_has_cow_among(t, n - 1);
        law_left_behind(t, n - 1);
        if cow_names(t, n).len() > 0 {
            if is_cow(t, n - 1) {
                assert(left_behind(t.groups, t.partitions[n - 1]));
            } else {
                let j = choose|j: int|
                    0 <= j < n - 1 && left_behind(t.groups, #[trigger] t.partitions[j]);
                assert(left_behind(t.groups, t.partitions[j]));
            }
        }
    }
}

proof fn lemma_pending(datas: Seq<SuperView>, i: int)
    requires
        0 <= i <= datas.len(),
    ensures
        ({
            let todo = pending(datas, i);
            &&& forall|k: int|
                0 <= k < todo.len() ==> i <= #[trigger] todo[k] < datas.len() && has_cow(
                    datas[todo[k]],
                )
            &&& forall|j: int, k: int|
                0 <= j < k < todo.len() ==> #[trigger] todo[j] < #[trigger] todo[k]
            &&& forall|m: int|
                i <= m < datas.len() && has_cow(#[trigger] datas[m]) ==> todo.contains(m)
        }),
    decreases datas.len() - i,
{
    if i < datas.len() {
        lemma_pending(datas, i + 1);
        lemma_has_cow(datas[i]);
        let rest = pending(datas, i + 1);
        let todo = pending(datas, i);
        if has_cow(datas[i]) {
            assert(todo =~= seq![i] + rest);
            assert forall|m: int| i <= m < datas.len() && has_cow(
                #[trigger] datas[m],
            ) implies todo.contains(m) by {
                if m == i {
                    assert(todo[0] == i);
                } else {
                    assert(rest.contains(m));
                    let k = rest.index_of(m);
                    assert(todo[k + 1] == m);
                }
            }
        }
    }
}

/// Whether the slots of a list were cleared in turn, all of them or up to one that
/// failed; the list has every slot with a copy-on-write partition, in order.
pub open spec fn cleared_in_turn(
    datas: Seq<SuperView>,
    dry_run: bool,
    done: CowDone,
    todo: Seq<int>,
) -> bool {
    let n = done.slots@.len() as int;
    &&& n <= todo.len()
    &&& forall|m: int|
        #[trigger] todo.contains(m) <==> 0 <= m < datas.len() && has_cow(datas[m])
    &&& forall|j: int, k: int| 0 <= j < k < todo.len() ==> #[trigger] todo[j] < #[trigger] todo[k]
    &&& forall|k: int|
        0 <= k < n ==> #[trigger] slot_cleared(datas[todo[k]], dry_run, Ok(done.slots@[k]))
    &&& done.error is None <==> n == todo.len()
    &&& done.error matches Some(e) ==> slot_cleared(datas[todo[n]], dry_run, Err(e))
}

/// Clearing works on every selected slot that has a copy-on-write partition, in order,
/// up to one that fails, and on no other; not where snapshots are in use, unless that
/// is overridden, and never on an image that is not raw.
pub proof fn law_cow_outcome(
    datas: Seq<SuperView>,
    args: CowArgs,
    mapped: bool,
    r: Result<CowDone, Error>,
)
    requires
        cow_outcome(datas, args, mapped, r),
    ensures
        ({
            let some = exists|i: int| 0 <= i < datas.len() && has_cow(#[trigger] datas[i]);
            let other = exists|i: int|
                0 <= i < datas.len() && (#[trigger] datas[i]).image_format != "raw"@;
            &&& r is Err <==> other || (some && mapped && !args.force)
            &&& r matches Ok(done) ==> exists|todo: Seq<int>| #[trigger]
                cleared_in_turn(datas, args.dry_run, done, todo)
        }),
{
    let todo = pending(datas, 0);
    lemma_pending(datas, 0);
    if exists|i: int| 0 <= i < datas.len() && has_cow(#[trigger] datas[i]) {
        let i = choose|i: int| 0 <= i < datas.len() && has_cow(#[trigger] datas[i]);
        assert(todo.contains(i));
    } else if todo.len() > 0 {
        assert(has_cow(datas[todo[0]]));
    }
    if let Ok(done) = r {
        assert forall|m: int| #[trigger] todo.contains(m) implies 0 <= m < datas.len() && has_cow(
            datas[m],
        ) by {
            let k = todo.index_of(m);
            assert(todo[k] == m);
        }
        assert forall|m: int| 0 <= m < datas.len() && has_cow(datas[m]) implies #[trigger] todo.contains(
            m,
        ) by {
            assert(has_cow(datas[m]));
        }
        assert(slots_cleared(datas, args.dry_run, done));
        assert forall|k: int| 0 <= k < done.slots@.len() implies #[trigger] slot_cleared(
            datas[todo[k]],
            args.dry_run,
            Ok(done.slots@[k]),
        ) by {
            let s = done.slots@[k];
        }
        assert(cleared_in_turn(datas, args.dry_run, done, todo));
    }
}

/// Clearing a slot fails only where a chain runs past the table, or where the tables
/// without the copy-on-write partitions cannot be stored; a preview never fails.
pub proof fn law_cow_refused(d: SuperView, dry_run: bool, e: Error)
    requires
        chains_apart(d.tables.partitions, d.tables.extents),
        slot_cleared(d, dry_run, Err(e)),
    ensures
        ({
            let t = d.tables;
            &&& !dry_run
            &&& (exists|j: int|
                0 <= j < t.partitions.len() && left_behind(
                    t.groups,
                    #[trigger] t.partitions[j],
                ) && t.partitions[j].first_extent_index + t.partitions[j].num_extents
                    > t.extents.len()) || exists|t2: TablesView| #[trigger]
                cow_gone(t, t2) && slot_bytes(d.header, t2, d.geometry.metadata_max_size) == Err::<
                    Seq<u8>,
                    Error,
                >(e)
        }),
{
    let t = d.tables;
    let n = t.partitions.len() as int;
    let goes = |p: PartitionView| left_behind(t.groups, p);
    let marked = doomed(t);
    assert forall|k: int| 0 <= k < n implies #[trigger] marked[k] == goes(t.partitions[k]) by {
        law_left_behind(t, k);
    }
    if cleared(t) is Ok {
        lemma_cascade(t.partitions, t.extents, marked, goes);
        let t2 = cleared(t)->Ok_0;
        assert(cow_gone(t, t2));
    } else if forall|j: int|
        0 <= j < n && left_behind(t.groups, #[trigger] t.partitions[j])
            ==> t.partitions[j].first_extent_index + t.partitions[j].num_extents
            <= t.extents.len() {
        assert forall|j: int| 0 <= j < n && marked[j] implies (
        #[trigger] t.partitions[j]).first_extent_index + t.partitions[j].num_extents
            <= t.extents.len() by {
            assert(goes(t.partitions[j]));
        }
        law_cascade_owed(t.partitions, t.extents, marked);
    }
}

} // verus!
