//! Renaming a partition or a group.

use crate::commands::arguments::{parse_slot_opt, parse_suffix_opt, slot_selector, suffix_selector};
use crate::commands::commit::{commit, commits, committed, lemma_loaded, placeable};
use crate::commands::make_specs::fits;
use crate::commands::split_util::{
    base_matches, bases_across, find_group, group_named, group_owners, list_names_across,
    load_for_slot_filter, names_across, only, owner, resolve_named, resolve_write_slot,
    select_group_slot, selected_data,
};
use crate::entry::name_fits;
use crate::error::{lists_names, plain, with_names, Error, Fault, NameError};
use crate::format::{
    group_views, partition_views, views, Group, GroupView, PartitionView, TablesView,
};
use crate::reader::data::{named, option_view, resolved, SuperData, SuperView};
use crate::reader::load::{container, faithful, settled};
use crate::reader::source::{decoded, BlockSource};
use crate::text::str_eq;
use crate::writer::render::SlotWrite;
use vstd::prelude::*;

verus! {

/// A request to rename a partition or a group.
#[derive(Debug)]
pub struct RenameArgs {
    pub image: String,
    pub old_name: String,
    pub new_name: String,
    pub group: bool,
    pub slot: String,
    pub suffix: String,
    pub dry_run: bool,
}

/// A renaming: the name before, and the writes that carry it out.
pub struct RenameDone {
    pub name: String,
    pub write: Option<SlotWrite>,
}

/// The index of what is renamed.
pub open spec fn rename_target(d: SuperView, args: RenameArgs, suffix: Option<Seq<char>>) -> Result<
    int,
    Error,
> {
    let t = d.tables;
    if d.image_format != "raw"@ {
        Err(Error::Invalid(Fault::NotRaw))
    } else if !name_fits(args.new_name@) {
        Err(Error::Invalid(Fault::NameLength))
    } else if args.group {
        if group_named(t.groups, args.new_name@, 0) is Some {
            Err(Error::Invalid(Fault::GroupExists))
        } else {
            match group_named(t.groups, args.old_name@, 0) {
                Some(g) => Ok(g),
                None => Err(Error::NotFound(Fault::Group)),
            }
        }
    } else {
        if named(t.partitions, args.new_name@, 0) is Some {
            Err(Error::Invalid(Fault::PartitionExists))
        } else {
            resolved(t.partitions, args.old_name@, suffix)
        }
    }
}

/// The name of what is renamed.
pub open spec fn target_name(t: TablesView, group: bool, i: int) -> Seq<char> {
    if group {
        t.groups[i].name
    } else {
        t.partitions[i].name
    }
}

/// The tables after a renaming: nothing but one name differs.
pub open spec fn renamed(t: TablesView, group: bool, i: int, name: Seq<char>) -> TablesView {
    if group {
        TablesView { groups: t.groups.update(i, GroupView { name, ..t.groups[i] }), ..t }
    } else {
        TablesView {
            partitions: t.partitions.update(i, PartitionView { name, ..t.partitions[i] }),
            ..t
        }
    }
}

/// Whether this is what a renaming in `d` comes to.
pub open spec fn rename_done(
    d: SuperView,
    args: RenameArgs,
    suffix: Option<Seq<char>>,
    r: Result<RenameDone, Error>,
) -> bool {
    match rename_target(d, args, suffix) {
        Err(e) => r == Err::<RenameDone, Error>(e),
        Ok(i) => {
            let tables = renamed(d.tables, args.group, i, args.new_name@);
            let after = SuperView { tables, ..d };
            if args.dry_run {
                r matches Ok(done) && done.name@ == target_name(d.tables, args.group, i)
                    && done.write is None
            } else {
                match r {
                    Ok(done) => done.name@ == target_name(d.tables, args.group, i) && (
                    done.write matches Some(w) && commits(after, w)),
                    Err(e) => committed(after, Err(e)),
                }
            }
        },
    }
}

/// Finds what is renamed.
fn find_target(data: &SuperData, args: &RenameArgs, suffix: Option<&str>) -> (r: Result<
    usize,
    Error,
>)
    ensures
        match r {
            Ok(i) => rename_target(data@, *args, option_view(suffix)) == Ok::<int, Error>(i as int)
                && (if args.group {
                i < data.groups@.len()
            } else {
                i < data.partitions@.len()
            }),
            Err(e) => rename_target(data@, *args, option_view(suffix)) == Err::<int, Error>(e),
        },
{
    if !str_eq(data.image_format.as_str(), "raw") {
        return Err(Error::Invalid(Fault::NotRaw));
    }
    if !fits(args.new_name.as_str()) {
        return Err(Error::Invalid(Fault::NameLength));
    }
    if args.group {
        if find_group(data, args.new_name.as_str()).is_some() {
            return Err(Error::Invalid(Fault::GroupExists));
        }
        match find_group(data, args.old_name.as_str()) {
            Some(g) => Ok(g),
            None => Err(Error::NotFound(Fault::Group)),
        }
    } else {
        if data.position(args.new_name.as_str()).is_some() {
            return Err(Error::Invalid(Fault::PartitionExists));
        }
        resolve_named(data, args.old_name.as_str(), suffix)
    }
}

/// Renames a partition or a group of loaded data.
pub fn rename(data: SuperData, args: &RenameArgs, suffix: Option<&str>) -> (r: Result<
    RenameDone,
    Error,
>)
    requires
        placeable(data@),
    ensures
        rename_done(data@, *args, option_view(suffix), r),
{
    let i = find_target(&data, args, suffix)?;
    let ghost t = data@.tables;
    let mut data = data;
    let name;
    if args.group {
        assert(t.groups[i as int] == data.groups@[i as int]@);
        name = data.groups[i].name.clone();
        let mut g = data.groups[i].clone();
        g.name = args.new_name.clone();
        let ghost v = g@;
        if !args.dry_run {
            data.groups[i] = g;
            assert(group_views(data.groups@) =~= t.groups.update(i as int, v));
        }
    } else {
        assert(t.partitions[i as int] == data.partitions@[i as int]@);
        name = data.partitions[i].name.clone();
        let mut p = data.partitions[i].clone();
        p.name = args.new_name.clone();
        let ghost v = p@;
        if !args.dry_run {
            data.partitions[i] = p;
            assert(partition_views(data.partitions@) =~= t.partitions.update(i as int, v));
        }
    }
    if args.dry_run {
        return Ok(RenameDone { name, write: None });
    }
    let write = commit(&data)?;
    Ok(RenameDone { name, write: Some(write) })
}

/// The slot that holds what is renamed: exactly one of those selected.
pub open spec fn rename_owner(
    datas: Seq<SuperView>,
    args: RenameArgs,
    suffix: Option<Seq<char>>,
) -> Result<int, Error> {
    if args.group {
        only(group_owners(datas, args.old_name@, 0), Error::NotFound(Fault::Group))
    } else {
        owner(datas, args.old_name@, suffix)
    }
}

/// Renames a partition or a group in the image in a file: what is to be written,
/// if anything.
pub fn run<F: BlockSource>(file: F, args: &RenameArgs) -> (r: Result<RenameDone, NameError>)
    ensures
        settled(&file) ==> match slot_selector(args.slot@) {
            Err(e) => plain(r) == Err::<RenameDone, Error>(e),
            Ok(slot) => match suffix_selector(args.suffix@) {
                Err(e) => plain(r) == Err::<RenameDone, Error>(e),
                Ok(suffix) => match decoded(file.bytes()) {
                    Err(e) => plain(r) == Err::<RenameDone, Error>(e),
                    Ok(c) => match selected_data(c, container(file.bytes()), slot) {
                        Err(e) => plain(r) == Err::<RenameDone, Error>(e),
                        Ok(datas) => match rename_owner(datas, *args, suffix) {
                            Err(e) => plain(r) == Err::<RenameDone, Error>(e) && lists_names(
                                r,
                                names_across(
                                    datas,
                                    bases_across(datas, args.old_name@, suffix, 0),
                                ),
                                true,
                            ),
                            Ok(i) => rename_done(datas[i], *args, suffix, plain(r)),
                        },
                    },
                },
            },
        },
        r is Ok ==> exists|d: SuperView|
            decoded(file.bytes()) is Ok && #[trigger] faithful(decoded(file.bytes())->Ok_0, d)
                && rename_done(d, *args, suffix_selector(args.suffix@)->Ok_0, plain(r)),
{
    let ghost f = file.bytes();
    let (mut datas, suffix) = match load_datas(file, args) {
        Ok(v) => v,
        Err(e) => {
            return Err(NameError::Failed(e));
        },
    };
    let owner = if args.group {
        select_group_slot(&datas, args.old_name.as_str())
    } else {
        resolve_write_slot(&datas, args.old_name.as_str(), suffix)
    };
    let at = match owner {
        Ok(at) => at,
        Err(e) => {
            let found = base_matches(&datas, args.old_name.as_str(), suffix);
            let names = list_names_across(&datas, &found);
            return with_names(Err(e), Some(names));
        },
    };
    assert(views(datas@)[at as int] == datas@[at as int]@);
    let ghost d = datas@[at as int]@;
    let data = datas.remove(at);
    proof {
        lemma_loaded(decoded(f)->Ok_0, d);
    }
    with_names(rename(data, args, suffix), None)
}

/// Loads the slots that a request selects, and reads the suffix filter.
fn load_datas<F: BlockSource>(file: F, args: &RenameArgs) -> (r: Result<
    (Vec<SuperData>, Option<&'static str>),
    Error,
>)
    ensures
        settled(&file) ==> match slot_selector(args.slot@) {
            Err(e) => r == Err::<(Vec<SuperData>, Option<&'static str>), Error>(e),
            Ok(slot) => match suffix_selector(args.suffix@) {
                Err(e) => r == Err::<(Vec<SuperData>, Option<&'static str>), Error>(e),
                Ok(_) => match decoded(file.bytes()) {
                    Err(e) => r == Err::<(Vec<SuperData>, Option<&'static str>), Error>(e),
                    Ok(c) => match r {
                        Ok((v, _)) => selected_data(c, container(file.bytes()), slot) == Ok::<
                            Seq<SuperView>,
                            Error,
                        >(views(v@)),
                        Err(e) => selected_data(c, container(file.bytes()), slot) == Err::<
                            Seq<SuperView>,
                            Error,
                        >(e),
                    },
                },
            },
        },
        r matches Ok((v, s)) ==> {
            &&& suffix_selector(args.suffix@) == Ok::<Option<Seq<char>>, Error>(option_view(s))
            &&& decoded(file.bytes()) matches Ok(c) && forall|i: int|
                0 <= i < v@.len() ==> faithful(c, (#[trigger] v@[i])@)
        },
{
    let slot = parse_slot_opt(args.slot.as_str())?;
    let suffix = parse_suffix_opt(args.suffix.as_str())?;
    let datas = load_for_slot_filter(file, slot)?;
    Ok((datas, suffix))
}

} // verus!
