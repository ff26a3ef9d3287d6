//! Creating a partition without a payload.

use crate::commands::arguments::{
    attributes, parse_attrs, parse_size_or_zero, parse_slot_opt, size_or_zero, slot_selector,
};
use crate::commands::commit::{
    commit, commits, committed, group_used, in_sectors, lemma_loaded, over_limit, placeable,
    sectors_for, within_caps, without_room,
};
use crate::commands::edit::chains_apart;
use crate::commands::place::{
    append, appended, bound_devices, find_place, law_appended_counts, law_place_is_free, place_for,
};
use crate::commands::split_util::{
    find_group, group_named, lemma_group_in, load_for_slot_filter, resolve_new_slot, selected_data,
};
use crate::error::{Error, Fault};
use crate::format::{
    group_views, views, Extent, Group, GroupView, TablesView, LP_TARGET_TYPE_LINEAR,
};
use crate::reader::data::{capped, named, SuperData, SuperView};
use crate::reader::load::{container, faithful, settled};
use crate::reader::source::{decoded, BlockSource};
use crate::text::{str_eq, texts};
use crate::writer::render::SlotWrite;
use crate::writer::spanning::extent_of;
use vstd::prelude::*;

verus! {

/// A request to create a partition.
#[derive(Debug)]
pub struct CreateArgs {
    pub image: String,
    pub name: String,
    pub slot: String,
    pub group: String,
    pub size: String,
    pub attrs: String,
    pub group_size: Option<String>,
    pub device: Vec<String>,
    pub force: bool,
    pub dry_run: bool,
}

/// A partition that was created: its size, the largest size of its group where
/// that was created too, and the writes that carry it out.
pub struct CreateDone {
    pub size: u64,
    pub new_group: Option<u64>,
    pub write: Option<SlotWrite>,
}

/// The groups, with the wanted one created where it is missing and a size for
/// it was given.
pub open spec fn groups_for(groups: Seq<GroupView>, args: CreateArgs) -> Result<
    Seq<GroupView>,
    Error,
> {
    match args.group_size {
        None => Ok(groups),
        Some(text) => match size_or_zero(text@) {
            Err(e) => Err(e),
            Ok(maximum_size) => if group_named(groups, args.group@, 0) is Some {
                Ok(groups)
            } else {
                Ok(groups.push(GroupView { name: args.group@, flags: 0, maximum_size }))
            },
        },
    }
}

/// The tables after a partition of `size` bytes was created.
pub open spec fn created(
    t: TablesView,
    args: CreateArgs,
    size: u64,
    is_primary: Seq<bool>,
) -> Result<TablesView, Error> {
    match groups_for(t.groups, args) {
        Err(e) => Err(e),
        Ok(groups) => {
            let t1 = TablesView { groups, ..t };
            let attrs = attributes(args.attrs@, false);
            match group_named(groups, args.group@, 0) {
                None => Err(Error::NotFound(Fault::Group)),
                Some(g) => if attrs is Err {
                    Err(attrs->Err_0)
                } else if size == 0 {
                    Ok(appended(t1, args.name@, attrs->Ok_0, g as u32, None))
                } else {
                    let sectors = in_sectors(size);
                    let max = groups[g].maximum_size;
                    let used = group_used(t1, g as u32, None);
                    let place = place_for(t1, texts(args.device@), is_primary, sectors);
                    if !args.force && over_limit(max, used, sectors as int) {
                        Err(
                            Error::Invalid(
                                Fault::GroupLimit { max, used: capped(used), needed: sectors },
                            ),
                        )
                    } else if place is Err {
                        Err(place->Err_0)
                    } else {
                        let (device, sector) = place->Ok_0;
                        Ok(
                            appended(
                                t1,
                                args.name@,
                                attrs->Ok_0,
                                g as u32,
                                Some(extent_of((device, sector, sectors))),
                            ),
                        )
                    }
                },
            }
        },
    }
}

/// The size of the group that is created along the way.
pub open spec fn new_group_size(groups: Seq<GroupView>, args: CreateArgs) -> Option<u64> {
    if args.group_size is Some && group_named(groups, args.group@, 0) is None {
        Some(size_or_zero(args.group_size->Some_0@)->Ok_0)
    } else {
        None
    }
}

/// What stands in the way of a new partition, or its size.
pub open spec fn create_size(d: SuperView, args: CreateArgs) -> Result<u64, Error> {
    if d.image_format != "raw"@ {
        Err(Error::Invalid(Fault::NotRaw))
    } else if named(d.tables.partitions, args.name@, 0) is Some {
        Err(Error::Invalid(Fault::PartitionExists))
    } else {
        size_or_zero(args.size@)
    }
}

/// Whether this is what creating a partition in `d` comes to.
pub open spec fn create_done(
    d: SuperView,
    args: CreateArgs,
    is_primary: Seq<bool>,
    r: Result<CreateDone, Error>,
) -> bool {
    match create_size(d, args) {
        Err(e) => r == Err::<CreateDone, Error>(e),
        Ok(size) => if args.dry_run {
            r matches Ok(done) && done.size == size && done.new_group is None && done.write is None
        } else {
            match created(d.tables, args, size, is_primary) {
                Err(e) => r == Err::<CreateDone, Error>(e),
                Ok(tables) => match r {
                    Ok(done) => {
                        &&& done.size == size
                        &&& done.new_group == new_group_size(d.tables.groups, args)
                        &&& done.write matches Some(w) && commits(SuperView { tables, ..d }, w)
                    },
                    Err(e) => committed(SuperView { tables, ..d }, Err(e)),
                },
            }
        },
    }
}

/// Creates the wanted group where it is missing; tells its size if it did.
fn ensure_group(data: &mut SuperData, args: &CreateArgs) -> (r: Result<Option<u64>, Error>)
    ensures
        match r {
            Ok(made) => {
                &&& groups_for(old(data)@.tables.groups, *args) == Ok::<Seq<GroupView>, Error>(
                    final(data)@.tables.groups,
                )
                &&& made == new_group_size(old(data)@.tables.groups, *args)
                &&& final(data)@ == (SuperView {
                    tables: TablesView {
                        groups: final(data)@.tables.groups,
                        ..old(data)@.tables
                    },
                    ..old(data)@
                })
                &&& final(data).groups@.len() <= old(data).groups@.len() + 1
            },
            Err(e) => groups_for(old(data)@.tables.groups, *args) == Err::<Seq<GroupView>, Error>(
                e,
            ),
        },
{
    match &args.group_size {
        None => Ok(None),
        Some(text) => {
            let maximum_size = parse_size_or_zero(text.as_str())?;
            if find_group(data, args.group.as_str()).is_some() {
                return Ok(None);
            }
            let g = Group { name: args.group.clone(), flags: 0, maximum_size };
            let ghost v = g@;
            data.groups.push(g);
            assert(group_views(data.groups@) =~= group_views(old(data).groups@).push(v));
            Ok(Some(maximum_size))
        },
    }
}

/// Creates a partition in loaded data.
pub fn create(data: SuperData, args: &CreateArgs, is_primary: &Vec<bool>) -> (r: Result<
    CreateDone,
    Error,
>)
    requires
        placeable(data@),
        within_caps(data@.tables),
        is_primary@.len() == args.device@.len(),
    ensures
        create_done(data@, *args, is_primary@, r),
{
    if !str_eq(data.image_format.as_str(), "raw") {
        return Err(Error::Invalid(Fault::NotRaw));
    }
    if data.position(args.name.as_str()).is_some() {
        return Err(Error::Invalid(Fault::PartitionExists));
    }
    let size = parse_size_or_zero(args.size.as_str())?;
    if args.dry_run {
        return Ok(CreateDone { size, new_group: None, write: None });
    }
    let mut data = data;
    let new_group = ensure_group(&mut data, args)?;
    let group_index = match find_group(&data, args.group.as_str()) {
        Some(g) => g as u32,
        None => {
            return Err(Error::NotFound(Fault::Group));
        },
    };
    let attrs = parse_attrs(args.attrs.as_str(), false)?;
    let mut extent: Option<Extent> = None;
    if size > 0 {
        let sectors = sectors_for(size);
        let max = data.groups[group_index as usize].maximum_size;
        assert(data@.tables.groups[group_index as int].maximum_size == max);
        if !args.force {
            if let Some(used) = without_room(&data, group_index, None, max, sectors) {
                return Err(Error::Invalid(Fault::GroupLimit { max, used, needed: sectors }));
            }
        }
        let (device, sector, _) = find_place(&data, &args.device, is_primary, sectors)?;
        extent =
        Some(
            Extent {
                num_sectors: sectors,
                target_type: LP_TARGET_TYPE_LINEAR,
                target_data: sector,
                target_source: device,
            },
        );
    }
    append(&mut data, args.name.clone(), attrs, group_index, extent);
    let write = commit(&data)?;
    Ok(CreateDone { size, new_group, write: Some(write) })
}

/// The slot of a file that a partition is created in: the only valid one of those that a
/// selector leaves.
pub open spec fn create_source(f: Seq<u8>, slot: Seq<char>) -> Result<SuperView, Error> {
    match slot_selector(slot) {
        Err(e) => Err(e),
        Ok(n) => match decoded(f) {
            Err(e) => Err(e),
            Ok(c) => match selected_data(c, container(f), n) {
                Err(e) => Err(e),
                Ok(datas) => if datas.len() == 1 {
                    Ok(datas[0])
                } else {
                    Err(Error::Invalid(Fault::SlotAmbiguous))
                },
            },
        },
    }
}

/// Creates a partition in the image in a file: what is to be written, if
/// anything. The selector has to leave exactly one valid slot.
pub fn run<F: BlockSource>(file: F, args: &CreateArgs, is_primary: &Vec<bool>) -> (r: Result<
    CreateDone,
    Error,
>)
    requires
        is_primary@.len() == args.device@.len(),
    ensures
        settled(&file) ==> match create_source(file.bytes(), args.slot@) {
            Err(e) => r == Err::<CreateDone, Error>(e),
            Ok(d) => create_done(d, *args, is_primary@, r),
        },
        r is Ok ==> exists|d: SuperView|
            decoded(file.bytes()) is Ok && #[trigger] faithful(decoded(file.bytes())->Ok_0, d)
                && create_done(d, *args, is_primary@, r),
{
    let ghost f = file.bytes();
    let slot = parse_slot_opt(args.slot.as_str())?;
    let mut datas = load_for_slot_filter(file, slot)?;
    let at = resolve_new_slot(&datas)?;
    assert(views(datas@)[0] == datas@[0]@);
    let ghost d = datas@[0]@;
    let data = datas.remove(at);
    proof {
        lemma_loaded(decoded(f)->Ok_0, d);
    }
    create(data, args, is_primary)
}

/// A partition whose creation was not forced leaves its group within the group's
/// largest size.
pub proof fn law_created_within_group(
    t: TablesView,
    args: CreateArgs,
    size: u64,
    is_primary: Seq<bool>,
)
    requires
        chains_apart(t.partitions, t.extents),
        t.extents.len() < u32::MAX,
        t.groups.len() < u32::MAX,
        !args.force,
        size > 0,
        created(t, args, size, is_primary) is Ok,
    ensures
        ({
            let t2 = created(t, args, size, is_primary)->Ok_0;
            let g = t2.partitions.last().group_index;
            let max = t2.groups[g as int].maximum_size;
            max > 0 ==> group_used(t2, g, None) <= max as int / 512
        }),
{
    let groups = groups_for(t.groups, args)->Ok_0;
    let t1 = TablesView { groups, ..t };
    let g = group_named(groups, args.group@, 0)->Some_0;
    let sectors = in_sectors(size);
    let (device, sector) = place_for(t1, texts(args.device@), is_primary, sectors)->Ok_0;
    lemma_group_in(groups, args.group@, 0);
    law_appended_counts(
        t1,
        args.name@,
        attributes(args.attrs@, false)->Ok_0,
        g as u32,
        extent_of((device, sector, sectors)),
        g as u32,
    );
}

/// A created partition has its sectors on a bound device.
pub proof fn law_created_is_bound(
    t: TablesView,
    args: CreateArgs,
    size: u64,
    is_primary: Seq<bool>,
)
    requires
        t.block_devices.len() <= u32::MAX,
        size > 0,
        created(t, args, size, is_primary) is Ok,
    ensures
        ({
            let t2 = created(t, args, size, is_primary)->Ok_0;
            let e = t2.extents.last();
            &&& t2.extents == t.extents.push(e)
            &&& t2.partitions.last().num_extents == 1
            &&& e.num_sectors == in_sectors(size)
            &&& bound_devices(t, texts(args.device@), is_primary) matches Ok(bound)
                && bound.contains(e.target_source)
        }),
{
    let t1 = TablesView { groups: groups_for(t.groups, args)->Ok_0, ..t };
    law_place_is_free(t1, texts(args.device@), is_primary, in_sectors(size));
}

} // verus!
