//! Clearing the copy-on-write partitions that an update left behind.

use crate::commands::arguments::{parse_slot_opt, slot_selector};
use crate::commands::cascade::{
    cascade, cascaded, descending, drained, lemma_unmarked_len, marked_ranges,
};
use crate::commands::commit::{commit, commits, committed, lemma_loaded, placeable};
use crate::commands::split_util::{load_for_slot_filter, selected_data};
use crate::error::{Error, Fault};
use crate::format::{views, TablesView};
use crate::reader::data::{SuperData, SuperView};
use crate::reader::load::{container, faithful, settled};
use crate::reader::source::{decoded, BlockSource};
use crate::text::{ends_with, has_suffix, str_eq, texts};
use crate::writer::render::SlotWrite;
use vstd::prelude::*;

verus! {

/// A request to clear copy-on-write partitions.
#[derive(Debug)]
pub struct CowArgs {
    pub image: String,
    pub slot: String,
    pub dry_run: bool,
    pub force: bool,
}

/// Whether a name is that of a copy-on-write device.
pub open spec fn is_cow_name(name: Seq<char>) -> bool {
    has_suffix(name, "-cow"@)
}

/// Whether a partition is a member of the group `cow` with the name of a
/// copy-on-write device.
pub open spec fn is_cow(t: TablesView, i: int) -> bool {
    let p = t.partitions[i];
    &&& p.group_index < t.groups.len()
    &&& t.groups[p.group_index as int].name == "cow"@
    &&& is_cow_name(p.name)
}

/// The names of the copy-on-write partitions among the first `n`.
pub open spec fn cow_names(t: TablesView, n: int) -> Seq<Seq<char>>
    decreases n,
{
    if n <= 0 {
        Seq::empty()
    } else {
        let rest = cow_names(t, n - 1);
        if is_cow(t, n - 1) {
            rest.push(t.partitions[n - 1].name)
        } else {
            rest
        }
    }
}

/// The names of all copy-on-write partitions.
pub open spec fn doomed_names(t: TablesView) -> Seq<Seq<char>> {
    cow_names(t, t.partitions.len() as int)
}

/// Which partitions go: the copy-on-write partitions, and no others.
pub open spec fn doomed(t: TablesView) -> Seq<bool> {
    Seq::new(t.partitions.len(), |i: int| is_cow(t, i))
}

/// The slots from the `i`-th on that have copy-on-write partitions.
pub open spec fn pending(datas: Seq<SuperView>, i: int) -> Seq<int>
    decreases datas.len() - i,
{
    if i < 0 || i >= datas.len() {
        Seq::empty()
    } else if doomed_names(datas[i].tables).len() > 0 {
        seq![i] + pending(datas, i + 1)
    } else {
        pending(datas, i + 1)
    }
}

/// A slot that was cleared: the names that go, how many partitions and extents
/// these are, and the writes that carry it out.
pub struct CowSlot {
    pub slot: u64,
    pub names: Vec<String>,
    pub removed: u64,
    pub freed: u64,
    pub write: Option<SlotWrite>,
}

/// What was cleared, slot by slot, and the error that stopped it, if any.
pub struct CowDone {
    pub slots: Vec<CowSlot>,
    pub error: Option<Error>,
}

/// The tables without the copy-on-write partitions.
pub open spec fn cleared(t: TablesView) -> Result<TablesView, Error> {
    match cascaded(t.partitions, t.extents, doomed(t)) {
        Err(e) => Err(e),
        Ok((partitions, extents)) => Ok(TablesView { partitions, extents, ..t }),
    }
}

/// Whether this is what clearing a slot comes to.
pub open spec fn slot_cleared(d: SuperView, dry_run: bool, r: Result<CowSlot, Error>) -> bool {
    let t = d.tables;
    if dry_run {
        r matches Ok(s) && s.slot == d.metadata_slot && texts(s.names@) == doomed_names(t)
            && s.removed == 0 && s.freed == 0 && s.write is None
    } else {
        match cleared(t) {
            Err(e) => r == Err::<CowSlot, Error>(e),
            Ok(tables) => match r {
                Ok(s) => {
                    &&& s.slot == d.metadata_slot
                    &&& texts(s.names@) == doomed_names(t)
                    &&& s.removed == t.partitions.len() - tables.partitions.len()
                    &&& s.freed == t.extents.len() - tables.extents.len()
                    &&& s.write matches Some(w) && commits(SuperView { tables, ..d }, w)
                },
                Err(e) => committed(SuperView { tables, ..d }, Err(e)),
            },
        }
    }
}

/// Whether this is what clearing the slots comes to: each in turn, up to the
/// first that fails.
pub open spec fn slots_cleared(datas: Seq<SuperView>, dry_run: bool, r: CowDone) -> bool {
    let todo = pending(datas, 0);
    let n = r.slots@.len() as int;
    &&& n <= todo.len()
    &&& forall|k: int|
        0 <= k < n ==> slot_cleared(datas[todo[k]], dry_run, Ok(#[trigger] r.slots@[k]))
    &&& match r.error {
        None => n == todo.len(),
        Some(e) => n < todo.len() && slot_cleared(datas[todo[n]], dry_run, Err(e)),
    }
}

/// Whether a name is that of a copy-on-write device.
pub fn cow_name(name: &str) -> (r: bool)
    ensures
        r == is_cow_name(name@),
{
    ends_with(name, "-cow")
}

/// Whether a partition is a copy-on-write partition.
pub fn is_doomed(data: &SuperData, i: usize) -> (r: bool)
    requires
        i < data.partitions@.len(),
    ensures
        r == is_cow(data@.tables, i as int),
{
    let ghost t = data@.tables;
    let p = &data.partitions[i];
    assert(t.partitions[i as int] == p@);
    let g = p.group_index as usize;
    if g >= data.groups.len() {
        return false;
    }
    assert(t.groups[g as int] == data.groups@[g as int]@);
    str_eq(data.groups[g].name.as_str(), "cow") && cow_name(p.name.as_str())
}

/// The names of the copy-on-write partitions.
pub fn list_doomed(data: &SuperData) -> (r: Vec<String>)
    ensures
        texts(r@) == doomed_names(data@.tables),
{
    let ghost t = data@.tables;
    let mut out: Vec<String> = Vec::new();
    let mut i: usize = 0;
    assert(texts(out@) =~= Seq::<Seq<char>>::empty());
    while i < data.partitions.len()
        invariant
            i <= data.partitions.len(),
            t == data@.tables,
            texts(out@) == cow_names(t, i as int),
        decreases data.partitions.len() - i,
    {
        if is_doomed(data, i) {
            let p = &data.partitions[i];
            assert(t.partitions[i as int] == p@);
            let ghost before = texts(out@);
            out.push(p.name.clone());
            assert(texts(out@) =~= before.push(p.name@));
        }
        i += 1;
    }
    out
}

/// Marks the copy-on-write partitions.
fn mark_doomed(data: &SuperData) -> (r: Vec<bool>)
    ensures
        r@ == doomed(data@.tables),
{
    let ghost t = data@.tables;
    let mut out: Vec<bool> = Vec::new();
    let mut i: usize = 0;
    while i < data.partitions.len()
        invariant
            i <= data.partitions.len(),
            t == data@.tables,
            out@.len() == i,
            forall|k: int| 0 <= k < i ==> #[trigger] out@[k] == doomed(t)[k],
        decreases data.partitions.len() - i,
    {
        out.push(is_doomed(data, i));
        i += 1;
    }
    assert(out@ =~= doomed(t));
    out
}

/// Clears the copy-on-write partitions of a slot.
pub fn clear_slot(slot_data: &SuperData, names: Vec<String>, dry_run: bool) -> (r: Result<
    CowSlot,
    Error,
>)
    requires
        placeable(slot_data@),
        texts(names@) == doomed_names(slot_data@.tables),
    ensures
        slot_cleared(slot_data@, dry_run, r),
{
    let mut data = slot_data.clone();
    let slot = data.metadata_slot;
    if dry_run {
        return Ok(CowSlot { slot, names, removed: 0, freed: 0, write: None });
    }
    let marked = mark_doomed(&data);
    let before = data.partitions.len();
    let freed = cascade(&mut data.partitions, &mut data.extents, &marked)?;
    proof {
        lemma_unmarked_shorter(slot_data@.tables);
    }
    let removed = (before - data.partitions.len()) as u64;
    let write = commit(&data)?;
    Ok(CowSlot { slot, names, removed, freed, write: Some(write) })
}

/// Clearing adds no partition.
proof fn lemma_unmarked_shorter(t: TablesView)
    ensures
        cleared(t) matches Ok(t2) ==> t2.partitions.len() <= t.partitions.len(),
{
    let n = t.partitions.len() as int;
    let ranges = descending(marked_ranges(t.partitions, doomed(t), n));
    match drained(t.partitions, t.extents, ranges, 0) {
        Err(_) => {},
        Ok((p, _)) => {
            lemma_unmarked_len(p, doomed(t), n);
        },
    }
}

/// Clears the copy-on-write partitions of loaded slots, in order.
pub fn clear_all(datas: Vec<SuperData>, dry_run: bool) -> (r: CowDone)
    requires
        forall|i: int| 0 <= i < datas@.len() ==> placeable((#[trigger] datas@[i])@),
    ensures
        slots_cleared(views(datas@), dry_run, r),
{
    let ghost all = views(datas@);
    let ghost todo = pending(all, 0);
    let ghost mut seen: Seq<int> = Seq::empty();
    let mut slots: Vec<CowSlot> = Vec::new();
    let mut i: usize = 0;
    assert(seen + todo =~= todo);
    while i < datas.len()
        invariant
            i <= datas@.len() == all.len(),
            all == views(datas@),
            forall|k: int| 0 <= k < datas@.len() ==> placeable((#[trigger] datas@[k])@),
            todo == pending(all, 0),
            todo == seen + pending(all, i as int),
            seen.len() == slots@.len(),
            forall|k: int|
                0 <= k < slots@.len() ==> slot_cleared(
                    all[todo[k]],
                    dry_run,
                    Ok(#[trigger] slots@[k]),
                ),
        decreases datas.len() - i,
    {
        assert(datas@[i as int]@ == all[i as int]);
        let names = list_doomed(&datas[i]);
        let count = names.len();
        assert(texts(names@).len() == count);
        if count > 0 {
            proof {
                let rest = pending(all, i + 1);
                assert(seen + (seq![i as int] + rest) =~= seen.push(i as int) + rest);
                assert(todo[seen.len() as int] == i as int);
            }
            match clear_slot(&datas[i], names, dry_run) {
                Ok(s) => {
                    slots.push(s);
                    proof {
                        seen = seen.push(i as int);
                    }
                },
                Err(e) => {
                    return CowDone { slots, error: Some(e) };
                },
            }
        }
        i += 1;
    }
    assert(seen + Seq::<int>::empty() =~= seen);
    CowDone { slots, error: None }
}

/// Clears the copy-on-write partitions of the image in a file: what is to be
/// written, slot by slot. `mapped` tells whether snapshot devices are in use;
/// unless it is forced, nothing is cleared then.
pub fn run<F: BlockSource>(file: F, args: &CowArgs, mapped: bool) -> (r: Result<CowDone, Error>)
    ensures
        settled(&file) ==> match slot_selector(args.slot@) {
            Err(e) => r == Err::<CowDone, Error>(e),
            Ok(slot) => match decoded(file.bytes()) {
                Err(e) => r == Err::<CowDone, Error>(e),
                Ok(c) => match selected_data(c, container(file.bytes()), slot) {
                    Err(e) => r == Err::<CowDone, Error>(e),
                    Ok(datas) => cow_outcome(datas, *args, mapped, r),
                },
            },
        },
        r is Ok ==> exists|datas: Seq<SuperView>|
            decoded(file.bytes()) is Ok && (forall|i: int|
                0 <= i < datas.len() ==> faithful(
                    decoded(file.bytes())->Ok_0,
                    #[trigger] datas[i],
                )) && #[trigger] cow_outcome(datas, *args, mapped, r),
{
    let ghost f = file.bytes();
    let slot = parse_slot_opt(args.slot.as_str())?;
    let datas = load_for_slot_filter(file, slot)?;
    let ghost all = views(datas@);
    let mut i: usize = 0;
    let mut any = false;
    while i < datas.len()
        invariant
            i <= datas.len(),
            all == views(datas@),
            forall|k: int| 0 <= k < i ==> (#[trigger] all[k]).image_format == "raw"@,
            pending(all, 0).len() == 0 <==> (!any && pending(all, i as int).len() == 0),
            settled(&file) ==> match slot_selector(args.slot@) {
                Err(e) => false,
                Ok(s) => match decoded(f) {
                    Err(e) => false,
                    Ok(c) => selected_data(c, container(f), s) == Ok::<Seq<SuperView>, Error>(all),
                },
            },
            f == file.bytes(),
        decreases datas.len() - i,
    {
        assert(all[i as int] == datas@[i as int]@);
        if !str_eq(datas[i].image_format.as_str(), "raw") {
            return Err(Error::Invalid(Fault::NotRaw));
        }
        let names = list_doomed(&datas[i]);
        let count = names.len();
        assert(texts(names@).len() == count);
        if count > 0 {
            any = true;
        }
        i += 1;
    }
    if any && mapped && !args.force {
        return Err(Error::Invalid(Fault::SnapshotsMapped));
    }
    proof {
        assert forall|k: int| 0 <= k < datas@.len() implies placeable(
            (#[trigger] datas@[k])@,
        ) by {
            lemma_loaded(decoded(f)->Ok_0, datas@[k]@);
        }
        assert forall|k: int| 0 <= k < all.len() implies faithful(
            decoded(f)->Ok_0,
            #[trigger] all[k],
        ) by {
            assert(all[k] == datas@[k]@);
        }
    }
    let done = clear_all(datas, args.dry_run);
    assert(cow_outcome(all, *args, mapped, Ok(done)));
    Ok(done)
}

/// Whether this is what clearing loaded slots comes to.
pub open spec fn cow_outcome(
    datas: Seq<SuperView>,
    args: CowArgs,
    mapped: bool,
    r: Result<CowDone, Error>,
) -> bool {
    if exists|i: int| 0 <= i < datas.len() && (#[trigger] datas[i]).image_format != "raw"@ {
        r == Err::<CowDone, Error>(Error::Invalid(Fault::NotRaw))
    } else if pending(datas, 0).len() > 0 && mapped && !args.force {
        r == Err::<CowDone, Error>(Error::Invalid(Fault::SnapshotsMapped))
    } else {
        r matches Ok(done) && slots_cleared(datas, args.dry_run, done)
    }
}

} // verus!
