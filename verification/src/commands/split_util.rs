//! Choosing the metadata slot and the partition that a command works on.

use crate::commands::arguments::{parse_slot_opt, parse_suffix_opt, slot_selector, suffix_selector};
use crate::error::{Error, Fault, NameError};
use crate::format::{device_views, views, Extent, GroupView};
use crate::reader::data::{
    answering, extents_of_partition, named, option_view, resolved, slot_of_suffix, suffix_of,
    suffix_to_slot, SuperData, SuperView,
};
use crate::reader::load::{
    all_data, container, faithful, first_data, load_all, load_first, load_slot, settled, slot_data,
};
use crate::reader::multiblock::{binding_views, bindings_from, resolve_device_bindings};
use crate::reader::source::{decoded, BlockSource, Image};
use crate::text::{concat, decimal, str_eq, texts, to_decimal};
use vstd::prelude::*;
use vstd::string::*;

verus! {

/// The slots that a selector picks out of an image.
pub open spec fn selected_data(c: Seq<u8>, format: Seq<char>, slot: Option<u64>) -> Result<
    Seq<SuperView>,
    Error,
> {
    match slot {
        Some(n) => match slot_data(c, format, n) {
            Ok(d) => Ok(seq![d]),
            Err(e) => Err(e),
        },
        None => all_data(c, format),
    }
}

/// Loads the selected metadata slot, or every valid one.
pub fn load_for_slot_filter<F: BlockSource>(file: F, slot: Option<u64>) -> (r: Result<
    Vec<SuperData>,
    Error,
>)
    ensures
        settled(&file) ==> match decoded(file.bytes()) {
            Err(e) => r == Err::<Vec<SuperData>, Error>(e),
            Ok(c) => match r {
                Ok(v) => selected_data(c, container(file.bytes()), slot) == Ok::<
                    Seq<SuperView>,
                    Error,
                >(views(v@)),
                Err(e) => selected_data(c, container(file.bytes()), slot) == Err::<
                    Seq<SuperView>,
                    Error,
                >(e),
            },
        },
        r matches Ok(v) ==> v@.len() > 0 && (slot matches Some(n) ==> v@.len() == 1
            && v@[0].metadata_slot == n) && (decoded(file.bytes()) matches Ok(c) && forall|i: int|
            0 <= i < v@.len() ==> faithful(c, (#[trigger] v@[i])@)),
{
    let image = Image::open(file)?;
    match slot {
        Some(n) => {
            let d = load_slot(&image, n)?;
            let ghost dv = d@;
            let mut out: Vec<SuperData> = Vec::new();
            out.push(d);
            assert(views(out@) =~= seq![dv]);
            Ok(out)
        },
        None => load_all(&image),
    }
}

/// The slot that a partition name hints at: by its own suffix, else by the
/// suffix filter.
pub open spec fn hinted_slot(name: Seq<char>, suffix: Option<Seq<char>>) -> Option<u64> {
    match suffix_of(name) {
        Some(s) => slot_of_suffix(s),
        None => match suffix {
            Some(s) => slot_of_suffix(s),
            None => None,
        },
    }
}

/// The slot that a change goes to: the selected one; else the one that the name
/// hints at, where that is valid; else the first valid one.
pub open spec fn data_for_write(
    c: Seq<u8>,
    format: Seq<char>,
    name: Seq<char>,
    suffix: Option<Seq<char>>,
    slot: Option<u64>,
) -> Result<SuperView, Error> {
    match slot {
        Some(n) => slot_data(c, format, n),
        None => match hinted_slot(name, suffix) {
            Some(n) => if slot_data(c, format, n) is Ok {
                slot_data(c, format, n)
            } else {
                first_data(c, format)
            },
            None => first_data(c, format),
        },
    }
}

/// The slot that a partition name hints at.
pub fn hint(name: &str, suffix: Option<&str>) -> (r: Option<u64>)
    ensures
        r == hinted_slot(name@, option_view(suffix)),
{
    match SuperData::find_suffix(name) {
        Some(s) => suffix_to_slot(s),
        None => match suffix {
            Some(s) => suffix_to_slot(s),
            None => None,
        },
    }
}

/// Loads the slot that a change goes to.
pub fn load_for_write<F: BlockSource>(
    file: F,
    name_hint: &str,
    suffix: Option<&str>,
    slot: Option<u64>,
) -> (r: Result<SuperData, Error>)
    ensures
        settled(&file) ==> match decoded(file.bytes()) {
            Err(e) => r == Err::<SuperData, Error>(e),
            Ok(c) => {
                let wanted = data_for_write(
                    c,
                    container(file.bytes()),
                    name_hint@,
                    option_view(suffix),
                    slot,
                );
                match r {
                    Ok(d) => wanted == Ok::<SuperView, Error>(d@),
                    Err(e) => wanted == Err::<SuperView, Error>(e),
                }
            },
        },
        r matches Ok(d) ==> (slot matches Some(n) ==> d.metadata_slot == n) && (decoded(
            file.bytes(),
        ) matches Ok(c) && faithful(c, d@)),
{
    let image = Image::open(file)?;
    if let Some(n) = slot {
        return load_slot(&image, n);
    }
    if let Some(n) = hint(name_hint, suffix) {
        if let Ok(d) = load_slot(&image, n) {
            return Ok(d);
        }
    }
    load_first(&image)
}

/// The slot of a file that a change goes to, by the text of the selectors.
pub open spec fn write_source(
    f: Seq<u8>,
    slot: Seq<char>,
    suffix: Seq<char>,
    name: Seq<char>,
) -> Result<SuperView, Error> {
    match slot_selector(slot) {
        Err(e) => Err(e),
        Ok(n) => match suffix_selector(suffix) {
            Err(e) => Err(e),
            Ok(s) => match decoded(f) {
                Err(e) => Err(e),
                Ok(c) => data_for_write(c, container(f), name, s, n),
            },
        },
    }
}

/// Loads the slot of a file that a change goes to, and reads the suffix filter.
pub fn load_selected<F: BlockSource>(file: F, slot: &str, suffix: &str, name: &str) -> (r: Result<
    (SuperData, Option<&'static str>),
    Error,
>)
    ensures
        settled(&file) ==> match r {
            Ok((d, _)) => write_source(file.bytes(), slot@, suffix@, name@) == Ok::<
                SuperView,
                Error,
            >(d@),
            Err(e) => write_source(file.bytes(), slot@, suffix@, name@) == Err::<
                SuperView,
                Error,
            >(e),
        },
        r matches Ok((d, s)) ==> suffix_selector(suffix@) == Ok::<Option<Seq<char>>, Error>(
            option_view(s),
        ) && (decoded(file.bytes()) matches Ok(c) && faithful(c, d@)),
{
    let n = parse_slot_opt(slot)?;
    let s = parse_suffix_opt(suffix)?;
    let data = load_for_write(file, name, s, n)?;
    Ok((data, s))
}

/// Collects the extents of a partition.
pub fn partition_extents(data: &SuperData, part_idx: usize) -> (r: Result<Vec<Extent>, Error>)
    ensures
        match r {
            Ok(v) => {
                let p = data.partitions@[part_idx as int];
                &&& part_idx < data.partitions@.len()
                &&& p.num_extents > 0 ==> p.first_extent_index + p.num_extents
                    <= data.extents@.len()
                &&& v@ == extents_of_partition(data.extents@, p@)
                &&& v@.len() == p.num_extents
            },
            Err(e) => if part_idx >= data.partitions@.len() {
                e == Error::Invalid(Fault::PartitionIndex)
            } else {
                let p = data.partitions@[part_idx as int];
                &&& p.num_extents > 0
                &&& p.first_extent_index + p.num_extents > data.extents@.len()
                &&& e == Error::Invalid(Fault::ExtentIndex)
            },
        },
{
    if part_idx >= data.partitions.len() {
        return Err(Error::Invalid(Fault::PartitionIndex));
    }
    let p = &data.partitions[part_idx];
    let first = p.first_extent_index as usize;
    let num = p.num_extents as usize;
    let mut out: Vec<Extent> = Vec::new();
    if num == 0 {
        assert(out@ =~= extents_of_partition(data.extents@, p@));
        return Ok(out);
    }
    let total = data.extents.len();
    if num > total || first > total - num {
        return Err(Error::Invalid(Fault::ExtentIndex));
    }
    let mut i: usize = 0;
    while i < num
        invariant
            first + num <= total == data.extents@.len(),
            i <= num,
            out@ == data.extents@.subrange(first as int, first + i),
        decreases num - i,
    {
        out.push(data.extents[first + i]);
        assert(data.extents@.subrange(first as int, first + i).push(data.extents@[first + i])
            =~= data.extents@.subrange(first as int, first + i + 1));
        i += 1;
    }
    Ok(out)
}

/// Whether a suffix filter lets an exact match of this name through.
pub open spec fn exact_allowed(name: Seq<char>, suffix: Option<Seq<char>>) -> bool {
    suffix is None || suffix_of(name) is None || suffix_of(name) == suffix
}

/// The first slot from the `i`-th on that holds a partition of this very name.
pub open spec fn exact_across(datas: Seq<SuperView>, name: Seq<char>, i: int) -> Option<(int, int)>
    decreases datas.len() - i,
{
    if i < 0 || i >= datas.len() {
        None
    } else {
        match named(datas[i].tables.partitions, name, 0) {
            Some(k) => Some((i, k)),
            None => exact_across(datas, name, i + 1),
        }
    }
}

/// The partitions of the slots from the `i`-th on that answer to a base name; a
/// slot with a partition of that very name has none.
pub open spec fn bases_across(
    datas: Seq<SuperView>,
    name: Seq<char>,
    suffix: Option<Seq<char>>,
    i: int,
) -> Seq<(int, int)>
    decreases datas.len() - i,
{
    if i < 0 || i >= datas.len() {
        Seq::empty()
    } else {
        let rest = bases_across(datas, name, suffix, i + 1);
        let parts = datas[i].tables.partitions;
        if named(parts, name, 0) is None {
            in_slot(i, answering(parts, name, suffix, 0)) + rest
        } else {
            rest
        }
    }
}

/// Partitions of one slot, by slot and index.
pub open spec fn in_slot(slot: int, indices: Seq<int>) -> Seq<(int, int)> {
    indices.map_values(|k: int| (slot, k))
}

/// The names of partitions, by slot and index.
pub open spec fn names_across(datas: Seq<SuperView>, found: Seq<(int, int)>) -> Seq<Seq<char>> {
    found.map_values(|m: (int, int)| datas[m.0].tables.partitions[m.1].name)
}

/// The slot and the partition that a name stands for among loaded slots.
pub open spec fn found_across(
    datas: Seq<SuperView>,
    name: Seq<char>,
    suffix: Option<Seq<char>>,
) -> Result<(int, int), Error> {
    let exact = exact_across(datas, name, 0);
    if exact is Some && exact_allowed(name, suffix) {
        Ok(exact->Some_0)
    } else {
        let bases = bases_across(datas, name, suffix, 0);
        if bases.len() == 0 {
            Err(Error::NotFound(Fault::Partition))
        } else if bases.len() == 1 {
            Ok(bases[0])
        } else {
            Err(Error::Invalid(Fault::Ambiguous))
        }
    }
}

/// Resolves a partition of one slot, without the names of an ambiguous one.
pub fn resolve_named(data: &SuperData, name: &str, suffix: Option<&str>) -> (r: Result<usize, Error>)
    ensures
        match r {
            Ok(i) => resolved(data@.tables.partitions, name@, option_view(suffix)) == Ok::<
                int,
                Error,
            >(i as int) && i < data.partitions@.len(),
            Err(e) => resolved(data@.tables.partitions, name@, option_view(suffix)) == Err::<
                int,
                Error,
            >(e),
        },
{
    match data.resolve_partition(name, suffix) {
        Ok(i) => Ok(i),
        Err(e) => Err(e.to_error()),
    }
}

/// Partitions by slot and index, as mathematical values.
pub open spec fn match_views(v: Seq<(usize, usize)>) -> Seq<(int, int)> {
    v.map_values(|m: (usize, usize)| (m.0 as int, m.1 as int))
}

/// The partitions of all slots that answer to a base name.
pub fn base_matches(datas: &Vec<SuperData>, name: &str, slot: Option<&str>) -> (r: Vec<
    (usize, usize),
>)
    ensures
        match_views(r@) == bases_across(views(datas@), name@, option_view(slot), 0),
        forall|k: int|
            0 <= k < r@.len() ==> (#[trigger] r@[k]).0 < datas@.len() && r@[k].1
                < datas@[r@[k].0 as int].partitions@.len(),
{
    let ghost all = views(datas@);
    let ghost wanted = option_view(slot);
    let mut out: Vec<(usize, usize)> = Vec::new();
    let mut i: usize = 0;
    assert(match_views(out@) + bases_across(all, name@, wanted, 0) =~= bases_across(
        all,
        name@,
        wanted,
        0,
    ));
    while i < datas.len()
        invariant
            i <= datas.len(),
            all == views(datas@),
            wanted == option_view(slot),
            bases_across(all, name@, wanted, 0) == match_views(out@) + bases_across(
                all,
                name@,
                wanted,
                i as int,
            ),
            forall|k: int|
                0 <= k < out@.len() ==> (#[trigger] out@[k]).0 < datas@.len() && out@[k].1
                    < datas@[out@[k].0 as int].partitions@.len(),
        decreases datas.len() - i,
    {
        assert(all[i as int] == datas@[i as int]@);
        if datas[i].position(name).is_none() {
            let found = datas[i].matching_partitions(name, slot);
            let ghost before = out@;
            let mut k: usize = 0;
            while k < found.len()
                invariant
                    i < datas.len(),
                    k <= found.len(),
                    out@.len() == before.len() + k,
                    forall|m: int| 0 <= m < before.len() ==> #[trigger] out@[m] == before[m],
                    forall|m: int|
                        before.len() <= m < out@.len() ==> #[trigger] out@[m] == (
                        i,
                        found@[m - before.len()],
                    ),
                    forall|m: int|
                        0 <= m < found@.len() ==> #[trigger] found@[m]
                            < datas@[i as int].partitions@.len(),
                decreases found.len() - k,
            {
                out.push((i, found[k]));
                k += 1;
            }
            proof {
                let rest = bases_across(all, name@, wanted, i + 1);
                let indices = found@.map_values(|i: usize| i as int);
                let here = in_slot(i as int, indices);
                assert(match_views(out@) =~= match_views(before) + here);
                assert(match_views(before) + (here + rest) =~= match_views(out@) + rest);
            }
        }
        i += 1;
    }
    assert(match_views(out@) + Seq::<(int, int)>::empty() =~= match_views(out@));
    out
}

/// Lists the names of partitions.
pub fn list_names_across(datas: &Vec<SuperData>, found: &Vec<(usize, usize)>) -> (r: Vec<String>)
    requires
        forall|k: int|
            0 <= k < found@.len() ==> (#[trigger] found@[k]).0 < datas@.len() && found@[k].1
                < datas@[found@[k].0 as int].partitions@.len(),
    ensures
        texts(r@) == names_across(views(datas@), match_views(found@)),
{
    let ghost all = names_across(views(datas@), match_views(found@));
    let mut out: Vec<String> = Vec::new();
    let mut k: usize = 0;
    while k < found.len()
        invariant
            k <= found.len(),
            out@.len() == k,
            forall|m: int|
                0 <= m < found@.len() ==> (#[trigger] found@[m]).0 < datas@.len() && found@[m].1
                    < datas@[found@[m].0 as int].partitions@.len(),
            all == names_across(views(datas@), match_views(found@)),
            forall|m: int| 0 <= m < k ==> (#[trigger] out@[m])@ == all[m],
        decreases found.len() - k,
    {
        let (d, p) = found[k];
        assert(found@[k as int] == (d, p));
        assert(match_views(found@)[k as int] == (d as int, p as int));
        assert(views(datas@)[d as int] == datas@[d as int]@);
        out.push(datas[d].partitions[p].name.clone());
        k += 1;
    }
    assert(texts(out@) =~= all);
    out
}

/// Finds a partition among loaded slots: by its very name in any of them, where
/// the suffix filter allows, else by its base name. A base name that several
/// partitions answer to, in one slot or in several, is refused with the names of
/// them all.
pub fn find_partition_across(datas: &Vec<SuperData>, name: &str, slot: Option<&str>) -> (r: Result<
    (usize, usize),
    NameError,
>)
    ensures
        match r {
            Ok((d, p)) => {
                &&& found_across(views(datas@), name@, option_view(slot)) == Ok::<
                    (int, int),
                    Error,
                >((d as int, p as int))
                &&& d < datas@.len()
                &&& p < datas@[d as int].partitions@.len()
            },
            Err(e) => {
                &&& found_across(views(datas@), name@, option_view(slot)) == Err::<
                    (int, int),
                    Error,
                >(e.fault())
                &&& e.lists(
                    names_across(
                        views(datas@),
                        bases_across(views(datas@), name@, option_view(slot), 0),
                    ),
                )
            },
        },
{
    let ghost all = views(datas@);
    let allowed = match slot {
        None => true,
        Some(wanted) => match SuperData::find_suffix(name) {
            None => true,
            Some(s) => str_eq(s, wanted),
        },
    };
    if allowed {
        let mut i: usize = 0;
        while i < datas.len()
            invariant
                i <= datas.len(),
                all == views(datas@),
                exact_allowed(name@, option_view(slot)),
                exact_across(all, name@, 0) == exact_across(all, name@, i as int),
            decreases datas.len() - i,
        {
            assert(all[i as int] == datas@[i as int]@);
            if let Some(k) = datas[i].position(name) {
                return Ok((i, k));
            }
            i += 1;
        }
    }
    let found = base_matches(datas, name, slot);
    let ghost mapped = match_views(found@);
    assert(mapped.len() == found@.len());
    if found.len() == 0 {
        return Err(NameError::Failed(Error::NotFound(Fault::Partition)));
    }
    if found.len() > 1 {
        return Err(NameError::Ambiguous { names: list_names_across(datas, &found) });
    }
    assert(mapped[0] == (found@[0].0 as int, found@[0].1 as int));
    Ok(found[0])
}

/// The slots from the `i`-th on in which a name resolves.
pub open spec fn owners(
    datas: Seq<SuperView>,
    name: Seq<char>,
    suffix: Option<Seq<char>>,
    i: int,
) -> Seq<int>
    decreases datas.len() - i,
{
    if i < 0 || i >= datas.len() {
        Seq::empty()
    } else {
        let rest = owners(datas, name, suffix, i + 1);
        if resolved(datas[i].tables.partitions, name, suffix) is Ok {
            seq![i] + rest
        } else {
            rest
        }
    }
}

/// The only slot of a list: none is missing, several are ambiguous.
pub open spec fn only(found: Seq<int>, missing: Error) -> Result<int, Error> {
    if found.len() == 0 {
        Err(missing)
    } else if found.len() == 1 {
        Ok(found[0])
    } else {
        Err(Error::Invalid(Fault::SlotAmbiguous))
    }
}

/// Whether a name is ambiguous in one of the slots.
pub open spec fn ambiguous_somewhere(
    datas: Seq<SuperView>,
    name: Seq<char>,
    suffix: Option<Seq<char>>,
) -> bool {
    exists|i: int|
        0 <= i < datas.len() && #[trigger] resolved(datas[i].tables.partitions, name, suffix)
            == Err::<int, Error>(Error::Invalid(Fault::Ambiguous))
}

/// The slot that owns a partition: the name has to resolve in exactly one.
pub open spec fn owner(datas: Seq<SuperView>, name: Seq<char>, suffix: Option<Seq<char>>) -> Result<
    int,
    Error,
> {
    only(
        owners(datas, name, suffix, 0),
        if ambiguous_somewhere(datas, name, suffix) {
            Error::Invalid(Fault::Ambiguous)
        } else {
            Error::NotFound(Fault::Partition)
        },
    )
}

/// Finds the slot that owns a partition.
pub fn resolve_write_slot(datas: &Vec<SuperData>, name: &str, suffix: Option<&str>) -> (r: Result<
    usize,
    Error,
>)
    ensures
        match r {
            Ok(i) => owner(views(datas@), name@, option_view(suffix)) == Ok::<int, Error>(i as int)
                && i < datas@.len(),
            Err(e) => owner(views(datas@), name@, option_view(suffix)) == Err::<int, Error>(e),
        },
{
    let ghost all = views(datas@);
    let ghost wanted = option_view(suffix);
    let mut count: usize = 0;
    let mut at: usize = 0;
    let mut ambiguous = false;
    let ghost mut seen: Seq<int> = Seq::empty();
    let mut i: usize = 0;
    assert(seen + owners(all, name@, wanted, 0) =~= owners(all, name@, wanted, 0));
    while i < datas.len()
        invariant
            i <= datas.len(),
            all == views(datas@),
            wanted == option_view(suffix),
            owners(all, name@, wanted, 0) == seen + owners(all, name@, wanted, i as int),
            seen.len() == count <= i,
            count > 0 ==> seen[0] == at && at < datas@.len(),
            ambiguous == exists|k: int|
                0 <= k < i && #[trigger] resolved(all[k].tables.partitions, name@, wanted) == Err::<
                    int,
                    Error,
                >(Error::Invalid(Fault::Ambiguous)),
        decreases datas.len() - i,
    {
        assert(all[i as int] == datas@[i as int]@);
        let ghost here = resolved(all[i as int].tables.partitions, name@, wanted);
        match datas[i].resolve_partition(name, suffix) {
            Ok(_) => {
                if count == 0 {
                    at = i;
                }
                count += 1;
                proof {
                    let rest = owners(all, name@, wanted, i + 1);
                    assert(seen + (seq![i as int] + rest) =~= seen.push(i as int) + rest);
                    seen = seen.push(i as int);
                }
            },
            Err(failure) => {
                let e = failure.to_error();
                assert(here == Err::<int, Error>(e));
                if e == Error::Invalid(Fault::Ambiguous) {
                    ambiguous = true;
                }
            },
        }
        i += 1;
    }
    assert(seen + Seq::<int>::empty() =~= seen);
    if count == 1 {
        Ok(at)
    } else if count > 1 {
        Err(Error::Invalid(Fault::SlotAmbiguous))
    } else if ambiguous {
        Err(Error::Invalid(Fault::Ambiguous))
    } else {
        Err(Error::NotFound(Fault::Partition))
    }
}

/// The index of the first group of this name, from `i` on.
pub open spec fn group_named(groups: Seq<GroupView>, name: Seq<char>, i: int) -> Option<int>
    decreases groups.len() - i,
{
    if i < 0 || i >= groups.len() {
        None
    } else if groups[i].name == name {
        Some(i)
    } else {
        group_named(groups, name, i + 1)
    }
}

/// A group that was found is in the table.
pub proof fn lemma_group_in(groups: Seq<GroupView>, name: Seq<char>, i: int)
    requires
        0 <= i,
    ensures
        group_named(groups, name, i) matches Some(g) ==> i <= g < groups.len(),
    decreases groups.len() - i,
{
    if i < groups.len() {
        lemma_group_in(groups, name, i + 1);
    }
}

/// The index of the first group of this name.
pub fn find_group(data: &SuperData, name: &str) -> (r: Option<usize>)
    ensures
        match r {
            Some(i) => group_named(data@.tables.groups, name@, 0) == Some(i as int) && i
                < data.groups@.len() && data.groups@[i as int].name@ == name@,
            None => group_named(data@.tables.groups, name@, 0) is None,
        },
{
    let ghost groups = data@.tables.groups;
    let mut i: usize = 0;
    while i < data.groups.len()
        invariant
            i <= data.groups.len(),
            groups == data@.tables.groups,
            group_named(groups, name@, 0) == group_named(groups, name@, i as int),
        decreases data.groups.len() - i,
    {
        assert(groups[i as int] == data.groups@[i as int]@);
        if str_eq(data.groups[i].name.as_str(), name) {
            return Some(i);
        }
        i += 1;
    }
    None
}

/// The slots from the `i`-th on that hold a group of this name.
pub open spec fn group_owners(datas: Seq<SuperView>, name: Seq<char>, i: int) -> Seq<int>
    decreases datas.len() - i,
{
    if i < 0 || i >= datas.len() {
        Seq::empty()
    } else {
        let rest = group_owners(datas, name, i + 1);
        if group_named(datas[i].tables.groups, name, 0) is Some {
            seq![i] + rest
        } else {
            rest
        }
    }
}

/// Finds the only slot that holds a group.
pub fn select_group_slot(datas: &Vec<SuperData>, name: &str) -> (r: Result<usize, Error>)
    ensures
        ({
            let wanted = only(
                group_owners(views(datas@), name@, 0),
                Error::NotFound(Fault::Group),
            );
            match r {
                Ok(i) => wanted == Ok::<int, Error>(i as int) && i < datas@.len(),
                Err(e) => wanted == Err::<int, Error>(e),
            }
        }),
{
    let ghost all = views(datas@);
    let mut count: usize = 0;
    let mut at: usize = 0;
    let ghost mut seen: Seq<int> = Seq::empty();
    let mut i: usize = 0;
    assert(seen + group_owners(all, name@, 0) =~= group_owners(all, name@, 0));
    while i < datas.len()
        invariant
            i <= datas.len(),
            all == views(datas@),
            group_owners(all, name@, 0) == seen + group_owners(all, name@, i as int),
            seen.len() == count <= i,
            count > 0 ==> seen[0] == at && at < datas@.len(),
        decreases datas.len() - i,
    {
        assert(all[i as int] == datas@[i as int]@);
        if find_group(&datas[i], name).is_some() {
            if count == 0 {
                at = i;
            }
            count += 1;
            proof {
                let rest = group_owners(all, name@, i + 1);
                assert(seen + (seq![i as int] + rest) =~= seen.push(i as int) + rest);
                seen = seen.push(i as int);
            }
        }
        i += 1;
    }
    assert(seen + Seq::<int>::empty() =~= seen);
    if count == 1 {
        Ok(at)
    } else if count > 1 {
        Err(Error::Invalid(Fault::SlotAmbiguous))
    } else {
        Err(Error::NotFound(Fault::Group))
    }
}

/// The slot that a new partition goes to: the only one that was loaded.
pub fn resolve_new_slot(datas: &Vec<SuperData>) -> (r: Result<usize, Error>)
    ensures
        r == (if datas@.len() == 1 {
            Ok(0usize)
        } else if datas@.len() == 0 {
            Err(Error::NotFound(Fault::Metadata))
        } else {
            Err(Error::Invalid(Fault::SlotAmbiguous))
        }),
{
    if datas.len() == 1 {
        Ok(0)
    } else if datas.len() == 0 {
        Err(Error::NotFound(Fault::Metadata))
    } else {
        Err(Error::Invalid(Fault::SlotAmbiguous))
    }
}

/// The path that a device is bound to, from the `k`-th binding on.
pub open spec fn bound_path(bindings: Seq<(u32, Seq<char>)>, index: u32, k: int) -> Option<
    Seq<char>,
>
    decreases bindings.len() - k,
{
    if k < 0 || k >= bindings.len() {
        None
    } else if bindings[k].0 == index {
        Some(bindings[k].1)
    } else {
        bound_path(bindings, index, k + 1)
    }
}

/// The line of a device in the binding report.
pub open spec fn binding_line(index: nat, name: Seq<char>, target: Seq<char>) -> Seq<char> {
    "  ["@ + decimal(index) + "] "@ + name + " -> "@ + target
}

/// The file of a device in the binding report.
pub open spec fn binding_target(
    bindings: Seq<(u32, Seq<char>)>,
    index: int,
    primary: Seq<char>,
) -> Seq<char> {
    if index == 0 {
        primary
    } else {
        match bound_path(bindings, index as u32, 0) {
            Some(p) => p,
            None => "(not bound)"@,
        }
    }
}

/// The path that a device is bound to.
pub fn path_of_device(bindings: &Vec<(u32, String)>, index: u32) -> (r: Option<&str>)
    ensures
        option_view(r) == bound_path(binding_views(bindings@), index, 0),
{
    let ghost all = binding_views(bindings@);
    let mut k: usize = 0;
    while k < bindings.len()
        invariant
            k <= bindings.len(),
            all == binding_views(bindings@),
            bound_path(all, index, 0) == bound_path(all, index, k as int),
        decreases bindings.len() - k,
    {
        assert(all[k as int] == (bindings@[k as int].0, bindings@[k as int].1@));
        if bindings[k].0 == index {
            return Some(bindings[k].1.as_str());
        }
        k += 1;
    }
    None
}

/// Reports which file each block device of a split image is bound to: one line
/// for each device. There is nothing to report of a single device without
/// bindings.
pub fn binding_report(
    data: &SuperData,
    specs: &Vec<String>,
    is_primary: &Vec<bool>,
    primary: &str,
) -> (r: Result<Vec<String>, Error>)
    requires
        data.devices@.len() <= u32::MAX,
        is_primary@.len() == specs@.len(),
    ensures
        ({
            let bindings = bindings_from(
                device_views(data.devices@),
                texts(specs@),
                is_primary@,
                0,
                Seq::empty(),
            );
            if data.devices@.len() <= 1 && specs@.len() == 0 {
                r matches Ok(lines) && lines@.len() == 0
            } else {
                match r {
                    Ok(lines) => bindings matches Ok(b) && lines@.len() == data.devices@.len()
                        && forall|i: int|
                        0 <= i < lines@.len() ==> (#[trigger] lines@[i])@ == binding_line(
                            i as nat,
                            data.devices@[i].partition_name@,
                            binding_target(b, i, primary@),
                        ),
                    Err(e) => bindings == Err::<Seq<(u32, Seq<char>)>, Error>(e),
                }
            }
        }),
{
    let mut lines: Vec<String> = Vec::new();
    if data.devices.len() <= 1 && specs.len() == 0 {
        return Ok(lines);
    }
    let bindings = resolve_device_bindings(data.devices.as_slice(), specs, is_primary)?;
    let ghost b = binding_views(bindings@);
    let mut i: usize = 0;
    while i < data.devices.len()
        invariant
            i <= data.devices.len() <= u32::MAX,
            b == binding_views(bindings@),
            lines@.len() == i,
            forall|k: int|
                0 <= k < i ==> (#[trigger] lines@[k])@ == binding_line(
                    k as nat,
                    data.devices@[k].partition_name@,
                    binding_target(b, k, primary@),
                ),
        decreases data.devices.len() - i,
    {
        let target = if i == 0 {
            primary
        } else {
            match path_of_device(&bindings, i as u32) {
                Some(p) => p,
                None => "(not bound)",
            }
        };
        let mut line = concat("  [", to_decimal(i as u64).as_str());
        line.append("] ");
        line.append(data.devices[i].partition_name.as_str());
        line.append(" -> ");
        line.append(target);
        lines.push(line);
        i += 1;
    }
    Ok(lines)
}

} // verus!
