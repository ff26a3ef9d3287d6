//! What creating and adding a partition comes to.

use crate::commands::add::{
    add_done, add_plan, added, law_added_within_group, target_group, AddArgs, AddDone,
};
use crate::commands::arguments::{attributes, size_or_zero};
use crate::commands::binding_laws::law_bound_path;
use crate::commands::commit::{commits, group_used, in_sectors};
use crate::commands::create::{
    create_done, create_size, created, groups_for, law_created_is_bound, law_created_within_group,
    CreateArgs, CreateDone,
};
use crate::commands::edit::chains_apart;
use crate::commands::make_specs::text_of;
use crate::commands::name_laws::{has_tail, law_group_named, law_named, law_suffix_is_tail};
use crate::commands::place::{
    appended, bound_devices, is_split, law_appended_keeps_others, law_place_is_free, place_for,
};
use crate::commands::resize::lemma_window_push;
use crate::commands::resize_laws::sectors_hold;
use crate::commands::split_util::group_named;
use crate::error::Error;
use crate::format::{Extent, GroupView, TablesView, LP_TARGET_TYPE_LINEAR};
use crate::reader::data::{
    carries, extents_of_partition, group_for, is_group_for, preferred, vendor_rank, SuperView,
};
use crate::reader::multiblock::bindings_from;
use crate::text::{has_prefix, texts};
use crate::writer::allocation::{first_free, free_at, law_first_fit, limit_of, ranges_fit};
use crate::writer::render::slot_bytes;
use crate::writer::spanning::{disjoint, extent_of, law_any_free, law_first_allowed};
use vstd::prelude::*;

verus! {

/// Whether `t2` is `t` with one more partition, of this name and these attributes:
/// all partitions, extents and devices of before are where they were.
pub open spec fn one_more(t: TablesView, t2: TablesView, name: Seq<char>, attrs: u32) -> bool {
    let n = t.partitions.len() as int;
    &&& t2.partitions.len() == n + 1
    &&& t2.partitions.take(n) == t.partitions
    &&& t2.extents.len() >= t.extents.len()
    &&& t2.extents.take(t.extents.len() as int) == t.extents
    &&& t2.block_devices == t.block_devices
    &&& t2.partitions[n].name == name
    &&& t2.partitions[n].attributes == attrs
    &&& forall|j: int|
        0 <= j < n ==> extents_of_partition(t2.extents, #[trigger] t2.partitions[j])
            == extents_of_partition(t.extents, t.partitions[j])
    &&& chains_apart(t2.partitions, t2.extents)
    &&& disjoint(t.extents) ==> disjoint(t2.extents)
}

/// Whether the new partition of `t2` is one extent that was free before, on a bound
/// device.
pub open spec fn on_free_sectors(t: TablesView, t2: TablesView, bound: Seq<u32>) -> bool {
    let e = t2.extents.last();
    &&& t2.extents == t.extents.push(e)
    &&& extents_of_partition(t2.extents, t2.partitions.last()) == seq![e]
    &&& e.target_type == LP_TARGET_TYPE_LINEAR
    &&& e.target_source < t.block_devices.len()
    &&& bound.contains(e.target_source)
    &&& free_at(
        t.extents,
        t.block_devices[e.target_source as int],
        e.target_source,
        e.target_data as int,
        e.num_sectors as int,
    )
}

/// Whether a group is the first of its name.
pub open spec fn first_group(groups: Seq<GroupView>, name: Seq<char>, g: int) -> bool {
    &&& 0 <= g < groups.len()
    &&& groups[g].name == name
    &&& forall|j: int| 0 <= j < g ==> (#[trigger] groups[j]).name != name
}

/// Whether the groups of `t2` are those of `t`, or one more where a missing group was
/// to be created. The new one has the name and the largest size that were asked for.
pub open spec fn groups_after(
    t: TablesView,
    t2: TablesView,
    args: CreateArgs,
    new_group: Option<u64>,
) -> bool {
    if args.group_size is Some && (forall|j: int|
        0 <= j < t.groups.len() ==> (#[trigger] t.groups[j]).name != args.group@) {
        let g = t2.groups.last();
        &&& t2.groups == t.groups.push(g)
        &&& g.name == args.group@
        &&& g.flags == 0
        &&& size_or_zero(args.group_size->Some_0@) == Ok::<u64, Error>(g.maximum_size)
        &&& new_group == Some(g.maximum_size)
    } else {
        t2.groups == t.groups && new_group is None
    }
}

/// Appending a partition on free sectors, or without any, adds just that.
proof fn lemma_appended(
    t: TablesView,
    groups: Seq<GroupView>,
    name: Seq<char>,
    attrs: u32,
    g: u32,
    e: Option<Extent>,
)
    requires
        chains_apart(t.partitions, t.extents),
        t.extents.len() < u32::MAX,
        e matches Some(x) ==> x.target_type == LP_TARGET_TYPE_LINEAR && x.target_source
            < t.block_devices.len() && free_at(
            t.extents,
            t.block_devices[x.target_source as int],
            x.target_source,
            x.target_data as int,
            x.num_sectors as int,
        ),
    ensures
        ({
            let t1 = TablesView { groups, ..t };
            let t2 = appended(t1, name, attrs, g, e);
            &&& one_more(t, t2, name, attrs)
            &&& t2.groups == groups
            &&& t2.partitions.last().group_index == g
            &&& e matches Some(x) ==> t2.extents == t.extents.push(x) && extents_of_partition(
                t2.extents,
                t2.partitions.last(),
            ) == seq![x]
            &&& e is None ==> t2.extents == t.extents && extents_of_partition(
                t2.extents,
                t2.partitions.last(),
            ).len() == 0
        }),
{
    let t1 = TablesView { groups, ..t };
    let t2 = appended(t1, name, attrs, g, e);
    let n = t.partitions.len() as int;
    assert(t2.partitions.take(n) =~= t.partitions);
    assert(t2.extents.take(t.extents.len() as int) =~= t.extents);
    assert forall|j: int| 0 <= j < n implies t2.partitions[j] == t.partitions[j]
        && extents_of_partition(t2.extents, #[trigger] t2.partitions[j]) == extents_of_partition(
        t.extents,
        t.partitions[j],
    ) by {
        if let Some(x) = e {
            lemma_window_push(t.extents, x, t.partitions[j]);
        }
    }
    match e {
        Some(x) => {
            assert(x == extent_of((x.target_source, x.target_data, x.num_sectors)));
            assert(extents_of_partition(t2.extents, t2.partitions.last()) =~= seq![x]);
            if disjoint(t.extents) {
                law_appended_keeps_others(
                    t1,
                    name,
                    attrs,
                    g,
                    x.target_source,
                    x.target_data,
                    x.num_sectors,
                );
            }
        },
        None => {},
    }
    assert forall|j: int, k: int|
        0 <= j < k < t2.partitions.len() && (#[trigger] t2.partitions[j]).num_extents > 0 && (
        #[trigger] t2.partitions[k]).num_extents > 0 implies crate::commands::edit::windows_apart(
        t2.partitions[j],
        t2.partitions[k],
    ) by {
        assert(t2.partitions[j] == t.partitions[j]);
        if k < n {
            assert(t2.partitions[k] == t.partitions[k]);
        }
    }
    assert forall|j: int|
        0 <= j < t2.partitions.len() && (#[trigger] t2.partitions[j]).num_extents
            > 0 implies t2.partitions[j].first_extent_index + t2.partitions[j].num_extents
        <= t2.extents.len() by {
        if j < n {
            assert(t2.partitions[j] == t.partitions[j]);
        }
    }
}

/// Creating a partition adds one of the name, the attributes and the group asked for,
/// whose size takes as many sectors as it needs. They were free, aligned and inside a
/// bound device, so nothing overlaps that did not before. Nothing else changes but for
/// a group that was missing and is created with it.
pub proof fn law_created(
    d: SuperView,
    args: CreateArgs,
    is_primary: Seq<bool>,
    r: Result<CreateDone, Error>,
)
    requires
        chains_apart(d.tables.partitions, d.tables.extents),
        d.tables.extents.len() < u32::MAX,
        d.tables.groups.len() < u32::MAX,
        d.tables.block_devices.len() <= u32::MAX,
        create_done(d, args, is_primary, r),
        r is Ok,
    ensures
        ({
            let done = r->Ok_0;
            let t = d.tables;
            &&& d.image_format == "raw"@
            &&& forall|j: int|
                0 <= j < t.partitions.len() ==> (#[trigger] t.partitions[j]).name != args.name@
            &&& size_or_zero(args.size@) == Ok::<u64, Error>(done.size)
            &&& args.dry_run ==> done.write is None && done.new_group is None
            &&& !args.dry_run ==> exists|t2: TablesView, attrs: u32|
                {
                    let q = t2.partitions.last();
                    let max = t2.groups[q.group_index as int].maximum_size;
                    &&& #[trigger] one_more(t, t2, args.name@, attrs)
                    &&& attributes(args.attrs@, false) == Ok::<u32, Error>(attrs)
                    &&& groups_after(t, t2, args, done.new_group)
                    &&& first_group(t2.groups, args.group@, q.group_index as int)
                    &&& done.size == 0 ==> t2.extents == t.extents && q.num_extents == 0
                    &&& done.size > 0 ==> {
                        &&& bound_devices(t, texts(args.device@), is_primary) matches Ok(bound)
                            && on_free_sectors(t, t2, bound)
                        &&& sectors_hold(t2.extents.last().num_sectors, done.size)
                        &&& !args.force && max > 0 ==> 512 * group_used(t2, q.group_index, None)
                            <= max
                    }
                    &&& done.write matches Some(w) && commits(SuperView { tables: t2, ..d }, w)
                }
        }),
{
    let done = r->Ok_0;
    let t = d.tables;
    let size = done.size;
    law_named(t.partitions, args.name@, 0);
    if !args.dry_run {
        let t2 = created(t, args, size, is_primary)->Ok_0;
        let attrs = attributes(args.attrs@, false)->Ok_0;
        let groups = groups_for(t.groups, args)->Ok_0;
        let t1 = TablesView { groups, ..t };
        law_group_named(t.groups, args.group@, 0);
        law_group_named(groups, args.group@, 0);
        let g = group_named(groups, args.group@, 0)->Some_0;
        if size == 0 {
            lemma_appended(t, groups, args.name@, attrs, g as u32, None);
        } else {
            let n = in_sectors(size);
            law_place_is_free(t1, texts(args.device@), is_primary, n);
            law_created_is_bound(t, args, size, is_primary);
            let (device, sector) = place_for(t1, texts(args.device@), is_primary, n)->Ok_0;
            let e = extent_of((device, sector, n));
            lemma_appended(t, groups, args.name@, attrs, g as u32, Some(e));
            if !args.force {
                law_created_within_group(t, args, size, is_primary);
            }
        }
        assert(one_more(t, t2, args.name@, attrs));
    }
}

/// A place is owed: where a bound device of known size has free sectors, one is found.
pub proof fn law_place_owed(
    t: TablesView,
    specs: Seq<Seq<char>>,
    is_primary: Seq<bool>,
    needed: u64,
    b: u32,
    s: int,
)
    requires
        t.block_devices.len() <= u32::MAX,
        needed > 0,
        bound_devices(t, specs, is_primary) matches Ok(bound) && bound.contains(b),
        b < t.block_devices.len(),
        limit_of(t.block_devices[b as int]) > 0,
        ranges_fit(t.extents, b),
        free_at(t.extents, t.block_devices[b as int], b, s, needed as int),
    ensures
        place_for(t, specs, is_primary, needed) is Ok,
{
    let bound = bound_devices(t, specs, is_primary)->Ok_0;
    law_first_fit(t.extents, t.block_devices, b, needed);
    assert(first_free(t.extents, t.block_devices, b, needed) is Ok);
    if is_split(t, specs) {
        law_any_free(t.extents, t.block_devices, needed, bound);
    } else {
        assert(seq![0u32].contains(b));
    }
}

/// When creating is refused: only of an image that is not raw, for a name that is
/// taken, for sizes or attributes that cannot be read, for a group that is missing
/// and is not to be created, for a group without room, for want of a place, or where
/// the new tables cannot be stored.
pub proof fn law_create_refused(
    d: SuperView,
    args: CreateArgs,
    is_primary: Seq<bool>,
    r: Result<CreateDone, Error>,
)
    requires
        create_done(d, args, is_primary, r),
        r is Err,
        d.tables.groups.len() < u32::MAX,
    ensures
        ({
            let t = d.tables;
            let size = size_or_zero(args.size@)->Ok_0;
            ||| d.image_format != "raw"@
            ||| exists|j: int|
                0 <= j < t.partitions.len() && (#[trigger] t.partitions[j]).name == args.name@
            ||| size_or_zero(args.size@) is Err
            ||| !args.dry_run && args.group_size is Some && size_or_zero(
                args.group_size->Some_0@,
            ) is Err
            ||| !args.dry_run && args.group_size is None && forall|j: int|
                0 <= j < t.groups.len() ==> (#[trigger] t.groups[j]).name != args.group@
            ||| !args.dry_run && attributes(args.attrs@, false) is Err
            ||| !args.dry_run && !args.force && exists|g: int, n: u64|
                #![trigger first_group(t.groups, args.group@, g), sectors_hold(n, size)]
                first_group(t.groups, args.group@, g) && sectors_hold(n, size)
                    && t.groups[g].maximum_size > 0 && 512 * (group_used(t, g as u32, None) + n)
                    > t.groups[g].maximum_size
            ||| !args.dry_run && !args.force && args.group_size is Some && exists|n: u64| #[trigger]
                sectors_hold(n, size) && 512 * (group_used(t, t.groups.len() as u32, None) + n)
                    > size_or_zero(args.group_size->Some_0@)->Ok_0 > 0
            ||| !args.dry_run && exists|n: u64| #[trigger]
                sectors_hold(n, size) && place_for(
                    t,
                    texts(args.device@),
                    is_primary,
                    n,
                ) is Err
            ||| !args.dry_run && created(t, args, size, is_primary) is Ok && slot_bytes(
                d.header,
                created(t, args, size, is_primary)->Ok_0,
                d.geometry.metadata_max_size,
            ) is Err
        }),
{
    let t = d.tables;
    law_named(t.partitions, args.name@, 0);
    law_group_named(t.groups, args.group@, 0);
    if create_size(d, args) is Ok && !args.dry_run && groups_for(t.groups, args) is Ok {
        let size = size_or_zero(args.size@)->Ok_0;
        let groups = groups_for(t.groups, args)->Ok_0;
        let t1 = TablesView { groups, ..t };
        law_group_named(groups, args.group@, 0);
        let n = in_sectors(size);
        assert(sectors_hold(n, size));
        if group_named(t.groups, args.group@, 0) is Some {
            let g = group_named(t.groups, args.group@, 0)->Some_0;
            assert(first_group(t.groups, args.group@, g));
        } else if args.group_size is Some {
            let k = t.groups.len() as int;
            assert(groups[k].name == args.group@);
            assert(group_named(groups, args.group@, 0) == Some(k));
        }
        assert(group_used(t1, t.groups.len() as u32, None) == group_used(
            t,
            t.groups.len() as u32,
            None,
        ));
    }
}

/// The group of a partition that named none is one that carries its suffix, where any
/// does. Of those it is one of the foremost vendor, and the first of the largest there;
/// where none carries it, it is the last of the largest of all.
pub proof fn law_group_chosen(groups: Seq<GroupView>, name: Seq<char>, g: u32)
    requires
        groups.len() <= u32::MAX,
        is_group_for(groups, name, g as int),
    ensures
        g < groups.len(),
        ({
            let matching = |k: int|
                has_tail(name) && groups[k].name.len() >= 2 && groups[k].name.subrange(
                    groups[k].name.len() - 2,
                    groups[k].name.len() as int,
                ) == name.subrange(name.len() - 2, name.len() as int);
            if exists|k: int| 0 <= k < groups.len() && #[trigger] matching(k) {
                &&& matching(g as int)
                &&& forall|k: int|
                    0 <= k < groups.len() && #[trigger] matching(k) ==> vendor_rank(
                        groups[g as int].name,
                    ) <= vendor_rank(groups[k].name)
                &&& forall|k: int|
                    0 <= k < groups.len() && #[trigger] matching(k) && vendor_rank(groups[k].name)
                        == vendor_rank(groups[g as int].name) ==> groups[k].maximum_size
                        < groups[g as int].maximum_size || groups[k].maximum_size
                        == groups[g as int].maximum_size && g <= k
            } else {
                forall|k: int|
                    0 <= k < groups.len() ==> (#[trigger] groups[k]).maximum_size
                        < groups[g as int].maximum_size || groups[k].maximum_size
                        == groups[g as int].maximum_size && k <= g
            }
        }),
{
    let matching = |k: int|
        has_tail(name) && groups[k].name.len() >= 2 && groups[k].name.subrange(
            groups[k].name.len() - 2,
            groups[k].name.len() as int,
        ) == name.subrange(name.len() - 2, name.len() as int);
    assert forall|k: int| 0 <= k < groups.len() implies #[trigger] matching(k) == carries(
        groups[k].name,
        name,
    ) by {
        law_suffix_is_tail(name);
        if has_tail(name) {
            assert(name.subrange(name.len() - 2, name.len() as int) =~= seq!['_'] + seq![
                name.last(),
            ]);
        }
    }
    if exists|k: int| 0 <= k < groups.len() && #[trigger] matching(k) {
        let k = choose|k: int| 0 <= k < groups.len() && #[trigger] matching(k);
        assert(carries(groups[k].name, name));
        assert(matching(g as int));
    } else {
        assert forall|k: int| 0 <= k < groups.len() implies !#[trigger] carries(
            groups[k].name,
            name,
        ) by {
            assert(!matching(k));
        }
    }
}

/// The group of a new partition is the one that was named, the first of that name;
/// or, where none was named, the one that suits the partition.
pub proof fn law_target_group(t: TablesView, args: AddArgs)
    requires
        t.groups.len() <= u32::MAX,
    ensures
        match target_group(t, args) {
            Ok(g) => match args.group {
                Some(name) => first_group(t.groups, name@, g as int),
                None => t.groups.len() > 0 && group_for(t.groups, args.name@) == Some(g),
            },
            Err(_) => match args.group {
                Some(name) => forall|j: int|
                    0 <= j < t.groups.len() ==> (#[trigger] t.groups[j]).name != name@,
                None => t.groups.len() == 0,
            },
        },
{
    if let Some(name) = args.group {
        law_group_named(t.groups, name@, 0);
    }
}

/// Adding a partition puts one of the name and the attributes asked for into the group
/// asked for. It has as many sectors as the payload needs, which were free on a bound
/// device, and the payload goes to that very place: to the image itself for the first
/// device, else to the file that is bound to the device. Nothing else changes, and the
/// limit of that very group is kept unless it is overridden.
pub proof fn law_added(
    d: SuperView,
    args: AddArgs,
    payload_len: u64,
    is_primary: Seq<bool>,
    r: Result<AddDone, Error>,
)
    requires
        chains_apart(d.tables.partitions, d.tables.extents),
        d.tables.extents.len() < u32::MAX,
        d.tables.groups.len() <= u32::MAX,
        d.tables.block_devices.len() <= u32::MAX,
        add_done(d, args, payload_len, is_primary, r),
        r is Ok,
    ensures
        ({
            let done = r->Ok_0;
            let plan = done.plan;
            let t = d.tables;
            let max = t.groups[plan.group_index as int].maximum_size;
            let bindings = bindings_from(
                t.block_devices,
                texts(args.device@),
                is_primary,
                0,
                Seq::empty(),
            );
            &&& d.image_format == "raw"@
            &&& payload_len > 0
            &&& forall|j: int|
                0 <= j < t.partitions.len() ==> (#[trigger] t.partitions[j]).name != args.name@
            &&& attributes(args.attrs@, false) == Ok::<u32, Error>(plan.attributes)
            &&& args.group matches Some(name) ==> first_group(
                t.groups,
                name@,
                plan.group_index as int,
            )
            &&& args.group is None ==> t.groups.len() > 0 && group_for(t.groups, args.name@)
                == Some(plan.group_index)
            &&& sectors_hold(plan.sectors, payload_len)
            &&& plan.offset == plan.sector * 512
            &&& match text_of(done.path) {
                None => plan.device == 0,
                Some(p) => plan.device != 0 && (bindings matches Ok(b) && exists|m: int|
                    0 <= m < b.len() && #[trigger] b[m] == (plan.device, p)),
            }
            &&& exists|t2: TablesView|
                {
                    let e = t2.extents.last();
                    &&& #[trigger] one_more(t, t2, args.name@, plan.attributes)
                    &&& t2.groups == t.groups
                    &&& t2.partitions.last().group_index == plan.group_index
                    &&& bound_devices(t, texts(args.device@), is_primary) matches Ok(bound)
                        && on_free_sectors(t, t2, bound)
                    &&& e.target_source == plan.device
                    &&& e.target_data == plan.sector
                    &&& e.num_sectors == plan.sectors
                    &&& !args.force && max > 0 ==> 512 * group_used(t2, plan.group_index, None)
                        <= max
                    &&& commits(SuperView { tables: t2, ..d }, done.write)
                }
        }),
{
    let done = r->Ok_0;
    let plan = done.plan;
    let t = d.tables;
    let specs = texts(args.device@);
    law_named(t.partitions, args.name@, 0);
    law_target_group(t, args);
    law_place_is_free(t, specs, is_primary, plan.sectors);
    let e = extent_of((plan.device, plan.sector, plan.sectors));
    lemma_appended(t, t.groups, args.name@, plan.attributes, plan.group_index, Some(e));
    if !args.force {
        law_added_within_group(d, args, payload_len, is_primary);
    }
    crate::commands::add::law_payload_is_bound(d, args, payload_len, is_primary);
    if is_split(t, specs) {
        let b = bindings_from(t.block_devices, specs, is_primary, 0, Seq::empty())->Ok_0;
        law_bound_path(b, plan.device, 0);
    }
    let t2 = added(t, args.name@, plan);
    assert(TablesView { groups: t.groups, ..t } == t);
    assert(one_more(t, t2, args.name@, plan.attributes));
}

/// When adding is refused: only of an image that is not raw, for a name that is taken,
/// for a payload without a byte, for a group that is missing, for attributes that
/// cannot be read, for a group without room, for want of a place that can be
/// addressed, or where the new tables cannot be stored.
pub proof fn law_add_refused(
    d: SuperView,
    args: AddArgs,
    payload_len: u64,
    is_primary: Seq<bool>,
    r: Result<AddDone, Error>,
)
    requires
        d.tables.groups.len() <= u32::MAX,
        add_done(d, args, payload_len, is_primary, r),
        r is Err,
    ensures
        ({
            let t = d.tables;
            let g = target_group(t, args)->Ok_0;
            ||| d.image_format != "raw"@
            ||| exists|j: int|
                0 <= j < t.partitions.len() && (#[trigger] t.partitions[j]).name == args.name@
            ||| payload_len == 0
            ||| target_group(t, args) is Err
            ||| attributes(args.attrs@, false) is Err
            ||| exists|n: u64| #[trigger]
                sectors_hold(n, payload_len) && {
                    let place = place_for(t, texts(args.device@), is_primary, n);
                    ||| !args.force && t.groups[g as int].maximum_size > 0 && 512 * (group_used(
                        t,
                        g,
                        None,
                    ) + n) > t.groups[g as int].maximum_size
                    ||| place is Err
                    ||| place->Ok_0.1 * 512 > u64::MAX
                }
            ||| add_plan(d, args, payload_len, is_primary) matches Ok(plan) && slot_bytes(
                d.header,
                added(t, args.name@, plan),
                d.geometry.metadata_max_size,
            ) is Err
        }),
{
    law_named(d.tables.partitions, args.name@, 0);
    assert(sectors_hold(in_sectors(payload_len), payload_len));
}

/// Of the groups that carry a suffix one is preferred to all.
proof fn lemma_preferred(groups: Seq<GroupView>, name: Seq<char>, n: int) -> (b: int)
    requires
        0 <= n <= groups.len(),
        exists|k: int| 0 <= k < n && #[trigger] carries(groups[k].name, name),
    ensures
        0 <= b < n,
        carries(groups[b].name, name),
        forall|k: int|
            0 <= k < n && #[trigger] carries(groups[k].name, name) ==> preferred(groups, b, k),
    decreases n,
{
    if exists|k: int| 0 <= k < n - 1 && #[trigger] carries(groups[k].name, name) {
        let b = lemma_preferred(groups, name, n - 1);
        if carries(groups[n - 1].name, name) && !preferred(groups, b, n - 1) {
            n - 1
        } else {
            b
        }
    } else {
        n - 1
    }
}

/// One group is the last of the largest.
proof fn lemma_largest(groups: Seq<GroupView>, n: int) -> (b: int)
    requires
        0 < n <= groups.len(),
    ensures
        0 <= b < n,
        forall|k: int|
            0 <= k < n ==> (#[trigger] groups[k]).maximum_size < groups[b].maximum_size
                || groups[k].maximum_size == groups[b].maximum_size && k <= b,
    decreases n,
{
    if n == 1 {
        0
    } else {
        let b = lemma_largest(groups, n - 1);
        if groups[n - 1].maximum_size >= groups[b].maximum_size {
            n - 1
        } else {
            b
        }
    }
}

/// A partition that names no group gets one wherever there is any, and it is the one
/// that suits its name.
pub proof fn law_group_for(groups: Seq<GroupView>, name: Seq<char>)
    requires
        groups.len() <= u32::MAX,
    ensures
        match group_for(groups, name) {
            Some(g) => is_group_for(groups, name, g as int),
            None => groups.len() == 0,
        },
{
    if groups.len() > 0 {
        let n = groups.len() as int;
        if exists|k: int| 0 <= k < n && #[trigger] carries(groups[k].name, name) {
            let b = lemma_preferred(groups, name, n);
            assert(is_group_for(groups, name, b));
        } else {
            let b = lemma_largest(groups, n);
            assert(is_group_for(groups, name, b));
        }
    }
}

/// A place is the first there is: no earlier sector of its device would do, and no bound
/// device before it, of known size, has any.
pub proof fn law_place_is_first(
    t: TablesView,
    specs: Seq<Seq<char>>,
    is_primary: Seq<bool>,
    needed: u64,
)
    requires
        t.block_devices.len() <= u32::MAX,
        place_for(t, specs, is_primary, needed) is Ok,
    ensures
        ({
            let (device, sector) = place_for(t, specs, is_primary, needed)->Ok_0;
            let bound = bound_devices(t, specs, is_primary)->Ok_0;
            &&& forall|s: int|
                s < sector ==> !#[trigger] free_at(
                    t.extents,
                    t.block_devices[device as int],
                    device,
                    s,
                    needed as int,
                )
            &&& forall|b: u32, s: int|
                b < device && bound.contains(b) && limit_of(t.block_devices[b as int]) > 0
                    && ranges_fit(t.extents, b) ==> !#[trigger] free_at(
                    t.extents,
                    t.block_devices[b as int],
                    b,
                    s,
                    needed as int,
                )
        }),
{
    let (device, sector) = place_for(t, specs, is_primary, needed)->Ok_0;
    law_place_is_free(t, specs, is_primary, needed);
    let bound = bound_devices(t, specs, is_primary)->Ok_0;
    if is_split(t, specs) {
        law_first_allowed(t.extents, t.block_devices, needed, bound);
    } else {
        law_first_fit(t.extents, t.block_devices, 0, needed);
    }
}

/// The vendors rank by the start of their groups' names, in this order; all other groups
/// come behind them.
pub proof fn law_vendor_rank(rest: Seq<char>, other: Seq<char>)
    requires
        forall|tail: Seq<char>|
            #![trigger "qti_dynamic_partitions"@ + tail]
            other != "qti_dynamic_partitions"@ + tail,
        forall|tail: Seq<char>|
            #![trigger "google_dynamic_partitions"@ + tail]
            other != "google_dynamic_partitions"@ + tail,
        forall|tail: Seq<char>|
            #![trigger "samsung_dynamic_partitions"@ + tail]
            other != "samsung_dynamic_partitions"@ + tail,
        forall|tail: Seq<char>|
            #![trigger "sec_dynamic_partitions"@ + tail]
            other != "sec_dynamic_partitions"@ + tail,
        forall|tail: Seq<char>|
            #![trigger "mtk_dynamic_partitions"@ + tail]
            other != "mtk_dynamic_partitions"@ + tail,
    ensures
        ({
            let rank = |front: Seq<char>| vendor_rank(front + rest);
            &&& rank("qti_dynamic_partitions"@) < rank("google_dynamic_partitions"@)
            &&& rank("google_dynamic_partitions"@) < rank("samsung_dynamic_partitions"@)
            &&& rank("samsung_dynamic_partitions"@) == rank("sec_dynamic_partitions"@)
            &&& rank("sec_dynamic_partitions"@) < rank("mtk_dynamic_partitions"@)
            &&& rank("mtk_dynamic_partitions"@) < vendor_rank(other)
        }),
{
    reveal_strlit("qti_dynamic_partitions");
    reveal_strlit("google_dynamic_partitions");
    reveal_strlit("samsung_dynamic_partitions");
    reveal_strlit("sec_dynamic_partitions");
    reveal_strlit("mtk_dynamic_partitions");
    lemma_front("qti_dynamic_partitions"@, rest);
    lemma_front("google_dynamic_partitions"@, rest);
    lemma_front("samsung_dynamic_partitions"@, rest);
    lemma_front("sec_dynamic_partitions"@, rest);
    lemma_front("mtk_dynamic_partitions"@, rest);
    lemma_no_front("qti_dynamic_partitions"@, other);
    lemma_no_front("google_dynamic_partitions"@, other);
    lemma_no_front("samsung_dynamic_partitions"@, other);
    lemma_no_front("sec_dynamic_partitions"@, other);
    lemma_no_front("mtk_dynamic_partitions"@, other);
}

/// A text starts with the front that it was given, and shares its first two letters.
proof fn lemma_front(front: Seq<char>, rest: Seq<char>)
    requires
        front.len() >= 2,
    ensures
        has_prefix(front + rest, front),
        forall|x: Seq<char>|
            x.len() >= 2 && (x[0] != front[0] || x[1] != front[1]) ==> !#[trigger] has_prefix(
                front + rest,
                x,
            ),
{
    assert((front + rest).subrange(0, front.len() as int) =~= front);
    assert forall|x: Seq<char>|
        x.len() >= 2 && (x[0] != front[0] || x[1] != front[1]) implies !#[trigger] has_prefix(
        front + rest,
        x,
    ) by {
        if has_prefix(front + rest, x) {
            let head = (front + rest).subrange(0, x.len() as int);
            assert(head[0] == front[0] && head[1] == front[1]);
        }
    }
}

/// A text that is no front with something behind it does not start with it.
proof fn lemma_no_front(front: Seq<char>, other: Seq<char>)
    requires
        forall|tail: Seq<char>| other != #[trigger] (front + tail),
    ensures
        !has_prefix(other, front),
{
    if has_prefix(other, front) {
        let tail = other.skip(front.len() as int);
        assert(other =~= front + tail);
    }
}

} // verus!
