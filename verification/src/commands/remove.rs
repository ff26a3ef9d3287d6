//! Removing a partition, or a group with or without its partitions.

use crate::commands::arguments::suffix_selector;
use crate::commands::cascade::{
    cascade, cascaded, law_cascade_keeps_others, lemma_origin, origin, unmarked_count,
};
use crate::commands::commit::{commit, commits, committed, lemma_loaded, placeable, within_caps};
use crate::commands::edit::{chains_apart, drain, move_down, moved_down, windows_apart, without};
use crate::commands::split_util::{
    find_group, group_named, load_selected, resolve_named, write_source,
};
use crate::error::{lists_names, plain, with_names, Error, Fault, NameError};
use crate::format::{group_views, partition_views, Group, Partition, PartitionView, TablesView};
use crate::reader::data::{
    answering, extents_of_partition, is_ambiguous, names_of, option_view, resolved, SuperData,
    SuperView,
};
use crate::reader::load::{faithful, settled};
use crate::reader::source::{decoded, BlockSource};
use crate::text::str_eq;
use crate::writer::render::SlotWrite;
use vstd::prelude::*;

verus! {

/// The tables without a partition and its extents.
pub open spec fn without_partition(t: TablesView, i: int) -> Result<TablesView, Error> {
    let p = t.partitions[i];
    let first = p.first_extent_index as int;
    let num = p.num_extents as int;
    if first + num > t.extents.len() {
        Err(Error::Invalid(Fault::ExtentIndex))
    } else {
        Ok(
            TablesView {
                partitions: moved_down(t.partitions.remove(i), -1, first, num),
                extents: without(t.extents, first, first + num),
                ..t
            },
        )
    }
}

/// The partitions after a group left the table: those of later groups follow it.
pub open spec fn regrouped(partitions: Seq<PartitionView>, group: int) -> Seq<PartitionView> {
    Seq::new(
        partitions.len(),
        |k: int|
            {
                let p = partitions[k];
                if p.group_index > group {
                    PartitionView { group_index: (p.group_index - 1) as u32, ..p }
                } else {
                    p
                }
            },
    )
}

/// Which partitions belong to a group.
pub open spec fn members(partitions: Seq<PartitionView>, group: int) -> Seq<bool> {
    Seq::new(partitions.len(), |k: int| partitions[k].group_index == group)
}

/// How many of the first `n` partitions belong to a group.
pub open spec fn member_count(partitions: Seq<PartitionView>, group: int, n: int) -> int
    decreases n,
{
    if n <= 0 {
        0
    } else {
        member_count(partitions, group, n - 1) + if partitions[n - 1].group_index == group {
            1int
        } else {
            0int
        }
    }
}

/// The tables without a group. Its partitions, where it has any, go with it.
pub open spec fn without_group(t: TablesView, group: int) -> Result<TablesView, Error> {
    if member_count(t.partitions, group, t.partitions.len() as int) == 0 {
        Ok(
            TablesView {
                partitions: regrouped(t.partitions, group),
                groups: t.groups.remove(group),
                ..t
            },
        )
    } else {
        match cascaded(t.partitions, t.extents, members(t.partitions, group)) {
            Err(e) => Err(e),
            Ok((partitions, extents)) => Ok(
                TablesView {
                    partitions: regrouped(partitions, group),
                    extents,
                    groups: t.groups.remove(group),
                    ..t
                },
            ),
        }
    }
}

/// Takes a partition and its extents out of the tables; tells how many extents
/// were freed.
pub fn remove_partition(data: &mut SuperData, i: usize) -> (r: Result<u64, Error>)
    requires
        i < old(data).partitions@.len(),
    ensures
        match r {
            Ok(freed) => {
                &&& freed == old(data).extents@.len() - final(data).extents@.len()
                &&& without_partition(old(data)@.tables, i as int) == Ok::<TablesView, Error>(
                    final(data)@.tables,
                )
                &&& final(data)@ == (SuperView { tables: final(data)@.tables, ..old(data)@ })
            },
            Err(e) => without_partition(old(data)@.tables, i as int) == Err::<TablesView, Error>(e)
                && *final(data) == *old(data),
        },
{
    let ghost t = data@.tables;
    assert(t.partitions[i as int] == data.partitions@[i as int]@);
    let first = data.partitions[i].first_extent_index as usize;
    let num = data.partitions[i].num_extents as usize;
    let count = data.partitions[i].num_extents;
    let total = data.extents.len();
    if num > total || first > total - num {
        return Err(Error::Invalid(Fault::ExtentIndex));
    }
    data.partitions.remove(i);
    assert(partition_views(data.partitions@) =~= t.partitions.remove(i as int));
    drain(&mut data.extents, first, first + num);
    move_down(&mut data.partitions, None, first, count);
    Ok(count as u64)
}

/// Renumbers the groups of the partitions.
fn regroup(partitions: &mut Vec<Partition>, group: u32)
    ensures
        partition_views(final(partitions)@) == regrouped(
            partition_views(old(partitions)@),
            group as int,
        ),
{
    let ghost before = partition_views(partitions@);
    let ghost after = regrouped(before, group as int);
    let mut i: usize = 0;
    while i < partitions.len()
        invariant
            i <= partitions.len() == before.len(),
            after == regrouped(before, group as int),
            forall|k: int| 0 <= k < i ==> (#[trigger] partitions@[k])@ == after[k],
            forall|k: int| i <= k < before.len() ==> (#[trigger] partitions@[k])@ == before[k],
        decreases partitions.len() - i,
    {
        if partitions[i].group_index > group {
            let mut p = partitions[i].clone();
            p.group_index = p.group_index - 1;
            partitions[i] = p;
        }
        i += 1;
    }
    assert(partition_views(partitions@) =~= after);
}

/// Which partitions belong to a group, and how many.
pub fn mark_members(partitions: &Vec<Partition>, group: u32) -> (r: (Vec<bool>, u64))
    ensures
        r.0@ == members(partition_views(partitions@), group as int),
        r.1 == member_count(
            partition_views(partitions@),
            group as int,
            partitions@.len() as int,
        ),
{
    let ghost views = partition_views(partitions@);
    let mut out: Vec<bool> = Vec::new();
    let mut count: u64 = 0;
    let mut i: usize = 0;
    while i < partitions.len()
        invariant
            i <= partitions.len(),
            views == partition_views(partitions@),
            out@ == members(views, group as int).take(i as int),
            count == member_count(views, group as int, i as int) <= i,
        decreases partitions.len() - i,
    {
        let hit = partitions[i].group_index == group;
        out.push(hit);
        if hit {
            count = count + 1;
        }
        proof {
            assert(views[i as int] == partitions@[i as int]@);
            assert(out@ =~= members(views, group as int).take(i + 1));
        }
        i += 1;
    }
    assert(out@ =~= members(views, group as int));
    (out, count)
}

/// Takes a group out of the tables, with its partitions; tells how many
/// extents were freed.
pub fn remove_group(data: &mut SuperData, group: usize) -> (r: Result<u64, Error>)
    requires
        group < old(data).groups@.len(),
        group <= u32::MAX,
    ensures
        match r {
            Ok(freed) => {
                &&& without_group(old(data)@.tables, group as int) == Ok::<TablesView, Error>(
                    final(data)@.tables,
                )
                &&& final(data)@ == (SuperView { tables: final(data)@.tables, ..old(data)@ })
                &&& freed == old(data).extents@.len() - final(data).extents@.len()
            },
            Err(e) => without_group(old(data)@.tables, group as int) == Err::<TablesView, Error>(e)
                && final(data)@ == old(data)@,
        },
{
    let ghost t = data@.tables;
    let (marked, count) = mark_members(&data.partitions, group as u32);
    let mut freed: u64 = 0;
    if count > 0 {
        freed = cascade(&mut data.partitions, &mut data.extents, &marked)?;
    }
    data.groups.remove(group);
    assert(group_views(data.groups@) =~= t.groups.remove(group as int));
    regroup(&mut data.partitions, group as u32);
    Ok(freed)
}

/// Removing a partition leaves the others as they were: each holds the same
/// extents as before, and the chains lie apart.
pub proof fn law_removed_keeps_others(t: TablesView, i: int)
    requires
        0 <= i < t.partitions.len(),
        chains_apart(t.partitions, t.extents),
        without_partition(t, i) is Ok,
    ensures
        ({
            let t2 = without_partition(t, i)->Ok_0;
            &&& t2.partitions.len() == t.partitions.len() - 1
            &&& forall|m: int|
                0 <= m < t2.partitions.len() ==> {
                    let p = t.partitions[if m < i {
                        m
                    } else {
                        m + 1
                    }];
                    &&& (#[trigger] t2.partitions[m]).name == p.name
                    &&& t2.partitions[m].attributes == p.attributes
                    &&& t2.partitions[m].group_index == p.group_index
                    &&& extents_of_partition(t2.extents, t2.partitions[m])
                        == extents_of_partition(t.extents, p)
                }
            &&& chains_apart(t2.partitions, t2.extents)
            &&& t2.groups == t.groups
            &&& t2.block_devices == t.block_devices
        }),
{
    let gone = t.partitions[i];
    let first = gone.first_extent_index as int;
    let num = gone.num_extents as int;
    let t2 = without_partition(t, i)->Ok_0;
    assert forall|m: int| 0 <= m < t2.partitions.len() implies {
        let p = t.partitions[if m < i {
            m
        } else {
            m + 1
        }];
        &&& (#[trigger] t2.partitions[m]).name == p.name
        &&& t2.partitions[m].attributes == p.attributes
        &&& t2.partitions[m].group_index == p.group_index
        &&& t2.partitions[m].num_extents == p.num_extents
        &&& p.num_extents > 0 && first + num <= p.first_extent_index
            ==> t2.partitions[m].first_extent_index == p.first_extent_index - num
        &&& p.num_extents > 0 && first + num > p.first_extent_index
            ==> t2.partitions[m].first_extent_index == p.first_extent_index
        &&& p.num_extents > 0 ==> p.first_extent_index + p.num_extents <= t.extents.len()
        &&& p.num_extents > 0 && num > 0 ==> windows_apart(p, gone)
        &&& extents_of_partition(t2.extents, t2.partitions[m]) == extents_of_partition(
            t.extents,
            p,
        )
    } by {
        let k = if m < i {
            m
        } else {
            m + 1
        };
        let p = t.partitions[k];
        assert(t.partitions.remove(i)[m] == p);
        if p.num_extents > 0 && num > 0 {
            if k < i {
                assert(windows_apart(t.partitions[k], t.partitions[i]));
            } else {
                assert(windows_apart(t.partitions[i], t.partitions[k]));
            }
        }
        assert(extents_of_partition(t2.extents, t2.partitions[m]) =~= extents_of_partition(
            t.extents,
            p,
        ));
    }
    assert forall|j: int, k: int|
        0 <= j < k < t2.partitions.len() && (#[trigger] t2.partitions[j]).num_extents > 0 && (
        #[trigger] t2.partitions[k]).num_extents > 0 implies windows_apart(
        t2.partitions[j],
        t2.partitions[k],
    ) by {
        let a = if j < i {
            j
        } else {
            j + 1
        };
        let b = if k < i {
            k
        } else {
            k + 1
        };
        assert(windows_apart(t.partitions[a], t.partitions[b]));
    }
    assert forall|j: int|
        0 <= j < t2.partitions.len() && (#[trigger] t2.partitions[j]).num_extents
            > 0 implies t2.partitions[j].first_extent_index + t2.partitions[j].num_extents
        <= t2.extents.len() by {}
}

proof fn lemma_no_members(partitions: Seq<PartitionView>, group: int, n: int, k: int)
    requires
        0 <= k < n <= partitions.len(),
        member_count(partitions, group, n) == 0,
    ensures
        partitions[k].group_index != group,
    decreases n,
{
    lemma_member_count(partitions, group, n - 1);
    if k < n - 1 {
        lemma_no_members(partitions, group, n - 1, k);
    }
}

proof fn lemma_member_count(partitions: Seq<PartitionView>, group: int, n: int)
    ensures
        member_count(partitions, group, n) >= 0,
    decreases n,
{
    if n > 0 {
        lemma_member_count(partitions, group, n - 1);
    }
}

/// Whether the `m`-th partition is the `i`-th of before, which was not in the
/// group: same name, same attributes, same extents, and a group with the same entry.
pub open spec fn survives(t: TablesView, t2: TablesView, group: int, i: int, m: int) -> bool {
    let p = t.partitions[i];
    let q = t2.partitions[m];
    &&& 0 <= i < t.partitions.len()
    &&& p.group_index != group
    &&& q.name == p.name
    &&& q.attributes == p.attributes
    &&& extents_of_partition(t2.extents, q) == extents_of_partition(t.extents, p)
    &&& p.group_index < t.groups.len() ==> q.group_index < t2.groups.len()
        && t2.groups[q.group_index as int] == t.groups[p.group_index as int]
}

/// Whether a partition is one of the table that was not in the group.
pub open spec fn has_origin(t: TablesView, t2: TablesView, group: int, m: int) -> bool {
    exists|i: int| #[trigger] survives(t, t2, group, i, m)
}

/// Removing a group takes exactly its own partitions away. Every other partition
/// keeps its extents and its group.
pub proof fn law_group_removed(t: TablesView, group: int)
    requires
        0 <= group < t.groups.len(),
        chains_apart(t.partitions, t.extents),
        without_group(t, group) is Ok,
    ensures
        ({
            let t2 = without_group(t, group)->Ok_0;
            &&& t2.partitions.len() == t.partitions.len() - member_count(
                t.partitions,
                group,
                t.partitions.len() as int,
            )
            &&& forall|m: int|
                0 <= m < t2.partitions.len() ==> #[trigger] has_origin(t, t2, group, m)
            &&& chains_apart(t2.partitions, t2.extents)
        }),
{
    let t2 = without_group(t, group)->Ok_0;
    let n = t.partitions.len() as int;
    if member_count(t.partitions, group, n) == 0 {
        assert forall|m: int| 0 <= m < t2.partitions.len() implies #[trigger] has_origin(
            t,
            t2,
            group,
            m,
        ) by {
            lemma_no_members(t.partitions, group, n, m);
            assert(survives(t, t2, group, m, m));
        }
        assert forall|j: int, k: int|
            0 <= j < k < t2.partitions.len() && (#[trigger] t2.partitions[j]).num_extents > 0 && (
            #[trigger] t2.partitions[k]).num_extents > 0 implies windows_apart(
            t2.partitions[j],
            t2.partitions[k],
        ) by {
            assert(windows_apart(t.partitions[j], t.partitions[k]));
        }
        assert forall|j: int|
            0 <= j < t2.partitions.len() && (#[trigger] t2.partitions[j]).num_extents
                > 0 implies t2.partitions[j].first_extent_index + t2.partitions[j].num_extents
            <= t2.extents.len() by {
            let p = t.partitions[j];
        }
    } else {
        let marked = members(t.partitions, group);
        law_cascade_keeps_others(t.partitions, t.extents, marked);
        lemma_counts(t.partitions, group, n);
        let (p, e) = cascaded(t.partitions, t.extents, marked)->Ok_0;
        assert forall|m: int| 0 <= m < t2.partitions.len() implies #[trigger] has_origin(
            t,
            t2,
            group,
            m,
        ) by {
            let i = origin(marked, n, m);
            lemma_origin(marked, n, m);
            assert(p[m].name == t.partitions[i].name);
            assert(survives(t, t2, group, i, m));
        }
        assert forall|j: int, k: int|
            0 <= j < k < t2.partitions.len() && (#[trigger] t2.partitions[j]).num_extents > 0 && (
            #[trigger] t2.partitions[k]).num_extents > 0 implies windows_apart(
            t2.partitions[j],
            t2.partitions[k],
        ) by {
            assert(windows_apart(p[j], p[k]));
        }
        assert forall|j: int|
            0 <= j < t2.partitions.len() && (#[trigger] t2.partitions[j]).num_extents
                > 0 implies t2.partitions[j].first_extent_index + t2.partitions[j].num_extents
            <= t2.extents.len() by {
            let q = p[j];
        }
    }
}

proof fn lemma_counts(partitions: Seq<PartitionView>, group: int, n: int)
    requires
        0 <= n <= partitions.len(),
    ensures
        unmarked_count(members(partitions, group), n) == n - member_count(partitions, group, n),
    decreases n,
{
    if n > 0 {
        lemma_counts(partitions, group, n - 1);
    }
}

/// A request to remove a partition or a group.
#[derive(Debug)]
pub struct RemoveArgs {
    pub image: String,
    pub name: String,
    pub slot: String,
    pub suffix: String,
    pub group: bool,
    pub force: bool,
    pub yes: bool,
    pub dry_run: bool,
}

/// What a removal comes to.
#[derive(Debug, Clone, Copy, PartialEq, Eq, Structural)]
pub enum RemovePlan {
    /// A partition goes.
    Partition { index: usize },
    /// A group goes, with this many partitions.
    Group { index: usize, members: u64 },
}

/// A removal that was planned, and the writes that carry it out. `freed` counts
/// the extents that were removed.
pub struct RemoveDone {
    pub plan: RemovePlan,
    pub name: String,
    pub freed: u64,
    pub write: Option<SlotWrite>,
}

/// What a removal comes to.
pub open spec fn remove_plan(d: SuperView, args: RemoveArgs, suffix: Option<Seq<char>>) -> Result<
    RemovePlan,
    Error,
> {
    let t = d.tables;
    if d.image_format != "raw"@ {
        Err(Error::Invalid(Fault::NotRaw))
    } else if args.group {
        match group_named(t.groups, args.name@, 0) {
            None => Err(Error::NotFound(Fault::Group)),
            Some(g) => {
                let n = member_count(t.partitions, g, t.partitions.len() as int) as u64;
                if n > 0 && !args.force {
                    Err(Error::Invalid(Fault::GroupInUse { members: n }))
                } else {
                    Ok(RemovePlan::Group { index: g as usize, members: n })
                }
            },
        }
    } else {
        match resolved(t.partitions, args.name@, suffix) {
            Err(e) => Err(e),
            Ok(i) => Ok(RemovePlan::Partition { index: i as usize }),
        }
    }
}

/// The tables after a removal.
pub open spec fn removed(t: TablesView, plan: RemovePlan) -> Result<TablesView, Error> {
    match plan {
        RemovePlan::Partition { index } => without_partition(t, index as int),
        RemovePlan::Group { index, .. } => without_group(t, index as int),
    }
}

/// The name of what a removal takes away.
pub open spec fn removed_name(t: TablesView, plan: RemovePlan) -> Seq<char> {
    match plan {
        RemovePlan::Partition { index } => t.partitions[index as int].name,
        RemovePlan::Group { index, .. } => t.groups[index as int].name,
    }
}

/// Whether this is what a removal from `d` comes to.
pub open spec fn remove_done(
    d: SuperView,
    args: RemoveArgs,
    suffix: Option<Seq<char>>,
    r: Result<RemoveDone, Error>,
) -> bool {
    match remove_plan(d, args, suffix) {
        Err(e) => r == Err::<RemoveDone, Error>(e),
        Ok(plan) => if args.dry_run {
            r matches Ok(done) && done.plan == plan && done.name@ == removed_name(d.tables, plan)
                && done.freed == 0 && done.write is None
        } else {
            match removed(d.tables, plan) {
                Err(e) => r == Err::<RemoveDone, Error>(e),
                Ok(tables) => match r {
                    Ok(done) => {
                        &&& done.plan == plan
                        &&& done.name@ == removed_name(d.tables, plan)
                        &&& done.freed == d.tables.extents.len() - tables.extents.len()
                        &&& done.write matches Some(w) && commits(SuperView { tables, ..d }, w)
                    },
                    Err(e) => committed(SuperView { tables, ..d }, Err(e)),
                },
            }
        },
    }
}

/// Decides what a removal comes to.
pub fn decide_remove(data: &SuperData, args: &RemoveArgs, suffix: Option<&str>) -> (r: Result<
    RemovePlan,
    Error,
>)
    requires
        data.groups@.len() <= u32::MAX,
    ensures
        r == remove_plan(data@, *args, option_view(suffix)),
        r matches Ok(plan) ==> match plan {
            RemovePlan::Partition { index } => index < data.partitions@.len(),
            RemovePlan::Group { index, .. } => index < data.groups@.len(),
        },
{
    if !str_eq(data.image_format.as_str(), "raw") {
        return Err(Error::Invalid(Fault::NotRaw));
    }
    if args.group {
        let group = match find_group(data, args.name.as_str()) {
            Some(g) => g,
            None => {
                return Err(Error::NotFound(Fault::Group));
            },
        };
        let (_, count) = mark_members(&data.partitions, group as u32);
        if count > 0 && !args.force {
            return Err(Error::Invalid(Fault::GroupInUse { members: count }));
        }
        Ok(RemovePlan::Group { index: group, members: count })
    } else {
        let index = resolve_named(data, args.name.as_str(), suffix)?;
        Ok(RemovePlan::Partition { index })
    }
}

/// Removes a partition or a group from loaded data.
pub fn remove(data: SuperData, args: &RemoveArgs, suffix: Option<&str>) -> (r: Result<
    RemoveDone,
    Error,
>)
    requires
        placeable(data@),
        within_caps(data@.tables),
    ensures
        remove_done(data@, *args, option_view(suffix), r),
{
    let plan = decide_remove(&data, args, suffix)?;
    let name = match plan {
        RemovePlan::Partition { index } => data.partitions[index].name.clone(),
        RemovePlan::Group { index, .. } => data.groups[index].name.clone(),
    };
    if args.dry_run {
        return Ok(RemoveDone { plan, name, freed: 0, write: None });
    }
    let mut data = data;
    let freed = match plan {
        RemovePlan::Partition { index } => remove_partition(&mut data, index)?,
        RemovePlan::Group { index, .. } => remove_group(&mut data, index)?,
    };
    let write = commit(&data)?;
    Ok(RemoveDone { plan, name, freed, write: Some(write) })
}

/// Removes a partition or a group from the image in a file: what is to be
/// written, if anything.
pub fn run<F: BlockSource>(file: F, args: &RemoveArgs) -> (r: Result<RemoveDone, NameError>)
    ensures
        settled(&file) ==> match write_source(file.bytes(), args.slot@, args.suffix@, args.name@) {
            Err(e) => plain(r) == Err::<RemoveDone, Error>(e),
            Ok(d) => {
                let suffix = suffix_selector(args.suffix@)->Ok_0;
                let parts = d.tables.partitions;
                &&& remove_done(d, *args, suffix, plain(r))
                &&& lists_names(
                    r,
                    names_of(parts, answering(parts, args.name@, suffix, 0)),
                    is_ambiguous(parts, args.name@, suffix),
                )
            },
        },
        r is Ok ==> exists|d: SuperView|
            decoded(file.bytes()) is Ok && #[trigger] faithful(decoded(file.bytes())->Ok_0, d)
                && remove_done(d, *args, suffix_selector(args.suffix@)->Ok_0, plain(r)),
{
    let ghost f = file.bytes();
    match load_selected(file, args.slot.as_str(), args.suffix.as_str(), args.name.as_str()) {
        Err(e) => Err(NameError::Failed(e)),
        Ok((data, suffix)) => {
            let ghost d = data@;
            proof {
                lemma_loaded(decoded(f)->Ok_0, d);
            }
            let names = data.ambiguous_names(args.name.as_str(), suffix);
            with_names(remove(data, args, suffix), names)
        },
    }
}

} // verus!
