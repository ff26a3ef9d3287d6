//! Adding a partition with a payload.

use crate::commands::arguments::{attributes, parse_attrs};
use crate::commands::commit::{
    commit, commits, committed, group_used, in_sectors, lemma_loaded, over_limit, placeable,
    sectors_for, within_caps, without_room,
};
use crate::commands::edit::chains_apart;
use crate::commands::make_specs::text_of;
use crate::commands::place::{
    append, appended, bound_indices, find_place, is_split, law_appended_counts, law_place_is_free,
    place_for,
};
use crate::commands::split_util::{
    bound_path, data_for_write, find_group, group_named, load_for_write, path_of_device,
};
use crate::error::{Error, Fault};
use crate::format::{Extent, TablesView, LP_SECTOR_SIZE, LP_TARGET_TYPE_LINEAR};
use crate::reader::data::{capped, group_for, named, SuperData, SuperView};
use crate::reader::load::{container, faithful, settled};
use crate::reader::multiblock::bindings_from;
use crate::reader::source::{decoded, BlockSource};
use crate::text::{str_eq, texts};
use crate::writer::render::SlotWrite;
use crate::writer::spanning::extent_of;
use vstd::prelude::*;
use vstd::string::*;

verus! {

/// A request to add a partition.
#[derive(Debug)]
pub struct AddArgs {
    pub image: String,
    pub name: String,
    pub payload: String,
    pub group: Option<String>,
    pub device: Vec<String>,
    pub attrs: String,
    pub force: bool,
}

/// Where the payload of a new partition goes.
#[derive(Debug, Clone, Copy, PartialEq, Eq, Structural)]
pub struct AddPlan {
    pub attributes: u32,
    pub group_index: u32,
    pub sectors: u64,
    pub device: u32,
    pub sector: u64,
    pub offset: u64,
}

/// A partition to be added: where its payload goes, the path of the device that
/// takes it where that is not the primary image, and the metadata to be written
/// behind it.
pub struct AddDone {
    pub plan: AddPlan,
    pub path: Option<String>,
    pub write: SlotWrite,
}

/// The group of a new partition: the one that was named, or the one that suits
/// its name.
pub open spec fn target_group(t: TablesView, args: AddArgs) -> Result<u32, Error> {
    match args.group {
        Some(name) => match group_named(t.groups, name@, 0) {
            Some(g) => Ok(g as u32),
            None => Err(Error::NotFound(Fault::Group)),
        },
        None => match group_for(t.groups, args.name@) {
            Some(g) => Ok(g),
            None => Err(Error::NotFound(Fault::NoGroups)),
        },
    }
}

/// Where the payload of a new partition goes.
pub open spec fn add_plan(
    d: SuperView,
    args: AddArgs,
    payload_len: u64,
    is_primary: Seq<bool>,
) -> Result<AddPlan, Error> {
    let t = d.tables;
    let sectors = in_sectors(payload_len);
    let group = target_group(t, args);
    let attrs = attributes(args.attrs@, false);
    let place = place_for(t, texts(args.device@), is_primary, sectors);
    if d.image_format != "raw"@ {
        Err(Error::Invalid(Fault::NotRaw))
    } else if named(t.partitions, args.name@, 0) is Some {
        Err(Error::Invalid(Fault::PartitionExists))
    } else if payload_len == 0 {
        Err(Error::Invalid(Fault::PayloadEmpty))
    } else if group is Err {
        Err(group->Err_0)
    } else if attrs is Err {
        Err(attrs->Err_0)
    } else {
        let g = group->Ok_0;
        let max = t.groups[g as int].maximum_size;
        let used = group_used(t, g, None);
        if !args.force && over_limit(max, used, sectors as int) {
            Err(Error::Invalid(Fault::GroupLimit { max, used: capped(used), needed: sectors }))
        } else if place is Err {
            Err(place->Err_0)
        } else if place->Ok_0.1 * 512 > u64::MAX {
            Err(Error::Invalid(Fault::PhysicalOffset))
        } else {
            Ok(
                AddPlan {
                    attributes: attrs->Ok_0,
                    group_index: g,
                    sectors,
                    device: place->Ok_0.0,
                    sector: place->Ok_0.1,
                    offset: (place->Ok_0.1 * 512) as u64,
                },
            )
        }
    }
}

/// The tables after a partition was added.
pub open spec fn added(t: TablesView, name: Seq<char>, p: AddPlan) -> TablesView {
    appended(
        t,
        name,
        p.attributes,
        p.group_index,
        Some(extent_of((p.device, p.sector, p.sectors))),
    )
}

/// The path of the device that takes the payload.
pub open spec fn payload_path(t: TablesView, args: AddArgs, is_primary: Seq<bool>, p: AddPlan) -> Option<
    Seq<char>,
> {
    let bindings = bindings_from(
        t.block_devices,
        texts(args.device@),
        is_primary,
        0,
        Seq::empty(),
    );
    if p.device == 0 || !is_split(t, texts(args.device@)) {
        None
    } else {
        bound_path(bindings->Ok_0, p.device, 0)
    }
}

/// Whether this is what adding a partition to `d` comes to.
pub open spec fn add_done(
    d: SuperView,
    args: AddArgs,
    payload_len: u64,
    is_primary: Seq<bool>,
    r: Result<AddDone, Error>,
) -> bool {
    match add_plan(d, args, payload_len, is_primary) {
        Err(e) => r == Err::<AddDone, Error>(e),
        Ok(plan) => {
            let after = SuperView { tables: added(d.tables, args.name@, plan), ..d };
            match r {
                Ok(done) => {
                    &&& done.plan == plan
                    &&& text_of(done.path) == payload_path(d.tables, args, is_primary, plan)
                    &&& commits(after, done.write)
                },
                Err(e) => committed(after, Err(e)),
            }
        },
    }
}

/// Finds the group of a new partition.
fn find_target_group(data: &SuperData, args: &AddArgs) -> (r: Result<u32, Error>)
    requires
        data.groups@.len() <= u32::MAX,
    ensures
        r == target_group(data@.tables, *args),
        r matches Ok(g) ==> g < data.groups@.len(),
{
    match &args.group {
        Some(name) => match find_group(data, name.as_str()) {
            Some(g) => Ok(g as u32),
            None => Err(Error::NotFound(Fault::Group)),
        },
        None => match data.select_group_for_name(args.name.as_str()) {
            Some(g) => Ok(g),
            None => Err(Error::NotFound(Fault::NoGroups)),
        },
    }
}

/// Adds a partition to loaded data.
pub fn add_partition(data: SuperData, args: &AddArgs, payload_len: u64, is_primary: &Vec<bool>) -> (r: Result<
    AddDone,
    Error,
>)
    requires
        placeable(data@),
        within_caps(data@.tables),
        is_primary@.len() == args.device@.len(),
    ensures
        add_done(data@, *args, payload_len, is_primary@, r),
{
    if !str_eq(data.image_format.as_str(), "raw") {
        return Err(Error::Invalid(Fault::NotRaw));
    }
    if data.position(args.name.as_str()).is_some() {
        return Err(Error::Invalid(Fault::PartitionExists));
    }
    if payload_len == 0 {
        return Err(Error::Invalid(Fault::PayloadEmpty));
    }
    let sectors = sectors_for(payload_len);
    let group_index = find_target_group(&data, args)?;
    let attrs = parse_attrs(args.attrs.as_str(), false)?;
    let max = data.groups[group_index as usize].maximum_size;
    assert(data@.tables.groups[group_index as int].maximum_size == max);
    if !args.force {
        if let Some(used) = without_room(&data, group_index, None, max, sectors) {
            return Err(Error::Invalid(Fault::GroupLimit { max, used, needed: sectors }));
        }
    }
    let (device, sector, bindings) = find_place(&data, &args.device, is_primary, sectors)?;
    let offset = match sector.checked_mul(LP_SECTOR_SIZE) {
        Some(v) => v,
        None => {
            return Err(Error::Invalid(Fault::PhysicalOffset));
        },
    };
    let plan = AddPlan { attributes: attrs, group_index, sectors, device, sector, offset };
    let path = if device == 0 {
        None
    } else {
        match path_of_device(&bindings, device) {
            Some(p) => Some(String::from_str(p)),
            None => None,
        }
    };
    let mut data = data;
    append(
        &mut data,
        args.name.clone(),
        attrs,
        group_index,
        Some(
            Extent {
                num_sectors: sectors,
                target_type: LP_TARGET_TYPE_LINEAR,
                target_data: sector,
                target_source: device,
            },
        ),
    );
    let write = commit(&data)?;
    Ok(AddDone { plan, path, write })
}

/// The slot of a file that a partition of this name is added to.
pub open spec fn add_source(f: Seq<u8>, name: Seq<char>) -> Result<SuperView, Error> {
    match decoded(f) {
        Err(e) => Err(e),
        Ok(c) => data_for_write(c, container(f), name, None, None),
    }
}

/// Adds a partition to the image in a file: where its payload goes, and what is
/// to be written. The slot is the one that the partition's name hints at.
pub fn run<F: BlockSource>(
    file: F,
    args: &AddArgs,
    payload_len: u64,
    is_primary: &Vec<bool>,
) -> (r: Result<AddDone, Error>)
    requires
        is_primary@.len() == args.device@.len(),
    ensures
        settled(&file) ==> match add_source(file.bytes(), args.name@) {
            Err(e) => r == Err::<AddDone, Error>(e),
            Ok(d) => add_done(d, *args, payload_len, is_primary@, r),
        },
        r is Ok ==> exists|d: SuperView|
            decoded(file.bytes()) is Ok && #[trigger] faithful(decoded(file.bytes())->Ok_0, d)
                && add_done(d, *args, payload_len, is_primary@, r),
{
    let ghost f = file.bytes();
    let data = load_for_write(file, args.name.as_str(), None, None)?;
    let ghost d = data@;
    proof {
        lemma_loaded(decoded(f)->Ok_0, d);
    }
    add_partition(data, args, payload_len, is_primary)
}

proof fn lemma_bound_path(bindings: Seq<(u32, Seq<char>)>, index: u32, k: int, m: int)
    requires
        0 <= k <= m < bindings.len(),
        bindings[m].0 == index,
    ensures
        bound_path(bindings, index, k) is Some,
    decreases bindings.len() - k,
{
    if k < m && bindings[k].0 != index {
        lemma_bound_path(bindings, index, k + 1, m);
    }
}

/// A payload never goes to a device whose file was not given.
pub proof fn law_payload_is_bound(
    d: SuperView,
    args: AddArgs,
    payload_len: u64,
    is_primary: Seq<bool>,
)
    requires
        d.tables.block_devices.len() <= u32::MAX,
        add_plan(d, args, payload_len, is_primary) is Ok,
    ensures
        ({
            let plan = add_plan(d, args, payload_len, is_primary)->Ok_0;
            plan.device != 0 ==> payload_path(d.tables, args, is_primary, plan) is Some
        }),
{
    let t = d.tables;
    let specs = texts(args.device@);
    let plan = add_plan(d, args, payload_len, is_primary)->Ok_0;
    law_place_is_free(t, specs, is_primary, plan.sectors);
    if plan.device != 0 {
        let b = bindings_from(t.block_devices, specs, is_primary, 0, Seq::empty())->Ok_0;
        let all = bound_indices(b);
        let i = all.index_of(plan.device);
        assert(all[i] == plan.device);
        lemma_bound_path(b, plan.device, 0, i - 1);
    }
}

/// A partition whose addition was not forced leaves its group within the group's
/// largest size.
pub proof fn law_added_within_group(
    d: SuperView,
    args: AddArgs,
    payload_len: u64,
    is_primary: Seq<bool>,
)
    requires
        chains_apart(d.tables.partitions, d.tables.extents),
        d.tables.extents.len() < u32::MAX,
        !args.force,
        add_plan(d, args, payload_len, is_primary) is Ok,
    ensures
        ({
            let plan = add_plan(d, args, payload_len, is_primary)->Ok_0;
            let max = d.tables.groups[plan.group_index as int].maximum_size;
            max > 0 ==> group_used(added(d.tables, args.name@, plan), plan.group_index, None)
                <= max as int / 512
        }),
{
    let plan = add_plan(d, args, payload_len, is_primary)->Ok_0;
    law_appended_counts(
        d.tables,
        args.name@,
        plan.attributes,
        plan.group_index,
        extent_of((plan.device, plan.sector, plan.sectors)),
        plan.group_index,
    );
}

} // verus!
