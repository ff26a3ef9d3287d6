//! Extracting partitions to files.

use crate::commands::split_util::{
    bases_across, find_partition_across, found_across, names_across, partition_extents,
};
use crate::error::{Error, Fault, NameError};
use crate::format::{views, Extent, PartitionView};
use crate::reader::data::{extents_of_partition, named, option_view, passes, SuperData, SuperView};
use crate::text::concat;
use vstd::prelude::*;
use vstd::string::*;

verus! {

/// A request to extract partitions.
#[derive(Debug)]
pub struct ExtractArgs {
    pub image: String,
    pub output: String,
    pub partition: Option<String>,
    pub slot: String,
    pub suffix: String,
    pub device: Vec<String>,
    pub force: bool,
    pub dry_run: bool,
}

/// The partitions of a slot from the `i`-th on that pass a suffix filter, each by
/// the first entry of its name.
pub open spec fn picks_in(
    parts: Seq<PartitionView>,
    slot: int,
    suffix: Option<Seq<char>>,
    i: int,
) -> Seq<(int, int)>
    decreases parts.len() - i,
{
    if i < 0 || i >= parts.len() {
        Seq::empty()
    } else {
        let rest = picks_in(parts, slot, suffix, i + 1);
        if passes(parts[i].name, suffix) {
            seq![(slot, named(parts, parts[i].name, 0)->Some_0)] + rest
        } else {
            rest
        }
    }
}

/// The same for all slots from the `d`-th on.
pub open spec fn picks_from(datas: Seq<SuperView>, suffix: Option<Seq<char>>, d: int) -> Seq<
    (int, int),
>
    decreases datas.len() - d,
{
    if d < 0 || d >= datas.len() {
        Seq::empty()
    } else {
        picks_in(datas[d].tables.partitions, d, suffix, 0) + picks_from(datas, suffix, d + 1)
    }
}

/// The partitions to extract: the one that is named, or all that pass the filter.
pub open spec fn picked(
    datas: Seq<SuperView>,
    partition: Option<Seq<char>>,
    suffix: Option<Seq<char>>,
) -> Result<Seq<(int, int)>, Error> {
    match partition {
        Some(name) => match found_across(datas, name, suffix) {
            Err(e) => Err(e),
            Ok((d, p)) => {
                let parts = datas[d].tables.partitions;
                Ok(seq![(d, named(parts, parts[p].name, 0)->Some_0)])
            },
        },
        None => {
            let all = picks_from(datas, suffix, 0);
            if all.len() == 0 {
                Err(Error::NotFound(Fault::NothingSelected))
            } else {
                Ok(all)
            }
        },
    }
}

/// Chosen partitions as mathematical values: slot and index.
pub open spec fn pick_views(v: Seq<(usize, usize)>) -> Seq<(int, int)> {
    v.map_values(|p: (usize, usize)| (p.0 as int, p.1 as int))
}

/// Whether chosen partitions are in the tables.
pub open spec fn picks_valid(datas: Seq<SuperData>, v: Seq<(usize, usize)>) -> bool {
    forall|k: int|
        0 <= k < v.len() ==> (#[trigger] v[k]).0 < datas.len() && v[k].1
            < datas[v[k].0 as int].partitions@.len()
}

/// An entry of a table has a first entry of its name.
proof fn lemma_named(parts: Seq<PartitionView>, name: Seq<char>, i: int, m: int)
    requires
        0 <= i <= m < parts.len(),
        parts[m].name == name,
    ensures
        named(parts, name, i) matches Some(k) && i <= k <= m,
    decreases parts.len() - i,
{
    if parts[i].name != name {
        lemma_named(parts, name, i + 1, m);
    }
}

/// Adds the partitions of a slot that pass a suffix filter.
fn pick_slot(data: &SuperData, slot: usize, suffix: Option<&str>, out: &mut Vec<(usize, usize)>)
    ensures
        pick_views(final(out)@) == pick_views(old(out)@) + picks_in(
            data@.tables.partitions,
            slot as int,
            option_view(suffix),
            0,
        ),
        forall|k: int|
            old(out)@.len() <= k < final(out)@.len() ==> (#[trigger] final(out)@[k]).0 == slot
                && final(out)@[k].1 < data.partitions@.len(),
        forall|k: int| 0 <= k < old(out)@.len() ==> final(out)@[k] == old(out)@[k],
        final(out)@.len() >= old(out)@.len(),
{
    let ghost parts = data@.tables.partitions;
    let ghost filter = option_view(suffix);
    let ghost all = picks_in(parts, slot as int, filter, 0);
    let mut i: usize = 0;
    while i < data.partitions.len()
        invariant
            i <= data.partitions.len(),
            parts == data@.tables.partitions,
            filter == option_view(suffix),
            pick_views(old(out)@) + all == pick_views(out@) + picks_in(
                parts,
                slot as int,
                filter,
                i as int,
            ),
            out@.len() >= old(out)@.len(),
            forall|k: int|
                old(out)@.len() <= k < out@.len() ==> (#[trigger] out@[k]).0 == slot && out@[k].1
                    < data.partitions@.len(),
            forall|k: int| 0 <= k < old(out)@.len() ==> out@[k] == old(out)@[k],
        decreases data.partitions.len() - i,
    {
        let p = &data.partitions[i];
        assert(parts[i as int] == p@);
        if SuperData::passes_suffix(p.name.as_str(), suffix) {
            proof {
                lemma_named(parts, p.name@, 0, i as int);
            }
            if let Some(k) = data.position(p.name.as_str()) {
                let ghost before = pick_views(out@);
                out.push((slot, k));
                proof {
                    let rest = picks_in(parts, slot as int, filter, i + 1);
                    assert(pick_views(out@) =~= before.push((slot as int, k as int)));
                    assert(before + (seq![(slot as int, k as int)] + rest) =~= pick_views(out@)
                        + rest);
                }
            }
        }
        i += 1;
    }
    assert(pick_views(out@) + Seq::<(int, int)>::empty() =~= pick_views(out@));
}

/// Chooses the partitions to extract.
pub fn pick(datas: &Vec<SuperData>, partition: Option<&str>, suffix: Option<&str>) -> (r: Result<
    Vec<(usize, usize)>,
    NameError,
>)
    ensures
        match r {
            Ok(v) => picked(views(datas@), option_view(partition), option_view(suffix)) == Ok::<
                Seq<(int, int)>,
                Error,
            >(pick_views(v@)) && picks_valid(datas@, v@),
            Err(e) => {
                &&& picked(views(datas@), option_view(partition), option_view(suffix)) == Err::<
                    Seq<(int, int)>,
                    Error,
                >(e.fault())
                &&& partition matches Some(name) ==> e.lists(
                    names_across(
                        views(datas@),
                        bases_across(views(datas@), name@, option_view(suffix), 0),
                    ),
                )
            },
        },
{
    let ghost all = views(datas@);
    let mut out: Vec<(usize, usize)> = Vec::new();
    if let Some(name) = partition {
        let (d, p) = find_partition_across(datas, name, suffix)?;
        let data = &datas[d];
        let ghost parts = all[d as int].tables.partitions;
        assert(all[d as int] == data@);
        assert(parts[p as int] == data.partitions@[p as int]@);
        proof {
            lemma_named(parts, data.partitions@[p as int].name@, 0, p as int);
        }
        if let Some(k) = data.position(data.partitions[p].name.as_str()) {
            out.push((d, k));
            assert(pick_views(out@) =~= seq![(d as int, k as int)]);
        }
        return Ok(out);
    }
    let ghost filter = option_view(suffix);
    let mut d: usize = 0;
    assert(pick_views(out@) + picks_from(all, filter, 0) =~= picks_from(all, filter, 0));
    while d < datas.len()
        invariant
            d <= datas.len(),
            all == views(datas@),
            filter == option_view(suffix),
            picks_from(all, filter, 0) == pick_views(out@) + picks_from(all, filter, d as int),
            picks_valid(datas@, out@),
        decreases datas.len() - d,
    {
        assert(all[d as int] == datas@[d as int]@);
        let ghost before = out@;
        pick_slot(&datas[d], d, suffix, &mut out);
        proof {
            let here = picks_in(all[d as int].tables.partitions, d as int, filter, 0);
            let rest = picks_from(all, filter, d + 1);
            assert(pick_views(before) + (here + rest) =~= pick_views(out@) + rest);
            assert forall|k: int| 0 <= k < out@.len() implies (#[trigger] out@[k]).0 < datas@.len()
                && out@[k].1 < datas@[out@[k].0 as int].partitions@.len() by {
                if k < before.len() {
                    assert(out@[k] == before[k]);
                }
            }
        }
        d += 1;
    }
    assert(pick_views(out@) + Seq::<(int, int)>::empty() =~= pick_views(out@));
    assert(pick_views(out@).len() == out@.len());
    if out.len() == 0 {
        return Err(NameError::Failed(Error::NotFound(Fault::NothingSelected)));
    }
    Ok(out)
}

/// The file that a partition is extracted to, in the output directory.
pub fn file_name(partition: &str) -> (r: String)
    ensures
        r@ == partition@ + ".img"@,
{
    concat(partition, ".img")
}

/// A partition to be extracted.
#[derive(Debug)]
pub struct ExtractJob {
    pub name: String,
    pub extents: Vec<Extent>,
}

/// The partitions to be extracted, and the error that stopped the planning.
pub struct ExtractPlan {
    pub jobs: Vec<ExtractJob>,
    pub error: Option<Error>,
}

/// The chosen partitions from the `k`-th on that are to be written: those whose
/// file is not there yet, or all where that does not matter.
pub open spec fn wanted(picks: Seq<(int, int)>, exists_already: Seq<bool>, force: bool, k: int) -> Seq<
    (int, int),
>
    decreases picks.len() - k,
{
    if k < 0 || k >= picks.len() {
        Seq::empty()
    } else if exists_already[k] && !force {
        wanted(picks, exists_already, force, k + 1)
    } else {
        seq![picks[k]] + wanted(picks, exists_already, force, k + 1)
    }
}

/// Whether a chain of extents runs past the table.
pub open spec fn chain_broken(d: SuperView, i: int) -> bool {
    let p = d.tables.partitions[i];
    p.num_extents > 0 && p.first_extent_index + p.num_extents > d.tables.extents.len()
}

/// Whether a job extracts this partition.
pub open spec fn job_for(job: ExtractJob, d: SuperView, i: int) -> bool {
    let p = d.tables.partitions[i];
    &&& job.name@ == p.name
    &&& job.extents@ == extents_of_partition(d.tables.extents, p)
    &&& job.extents@.len() == p.num_extents
}

/// Whether these are the jobs for partitions: one for each, up to the first whose
/// chain of extents is broken.
pub open spec fn jobs_for(plan: ExtractPlan, datas: Seq<SuperView>, todo: Seq<(int, int)>) -> bool {
    let n = plan.jobs@.len() as int;
    &&& n <= todo.len()
    &&& forall|k: int|
        0 <= k < n ==> job_for(#[trigger] plan.jobs@[k], datas[todo[k].0], todo[k].1)
    &&& match plan.error {
        None => n == todo.len(),
        Some(e) => n < todo.len() && chain_broken(datas[todo[n].0], todo[n].1) && e
            == Error::Invalid(Fault::ExtentIndex),
    }
}

/// Plans the extraction. `exists_already` tells of each chosen partition whether
/// its file is there.
pub fn plan_extract(
    datas: &Vec<SuperData>,
    picks: &Vec<(usize, usize)>,
    exists_already: &Vec<bool>,
    force: bool,
) -> (r: ExtractPlan)
    requires
        picks_valid(datas@, picks@),
        exists_already@.len() == picks@.len(),
    ensures
        jobs_for(r, views(datas@), wanted(pick_views(picks@), exists_already@, force, 0)),
{
    let ghost all = views(datas@);
    let ghost pv = pick_views(picks@);
    let ghost todo = wanted(pv, exists_already@, force, 0);
    let ghost mut seen: Seq<(int, int)> = Seq::empty();
    let mut jobs: Vec<ExtractJob> = Vec::new();
    let mut k: usize = 0;
    assert(seen + todo =~= todo);
    while k < picks.len()
        invariant
            k <= picks.len() == exists_already@.len(),
            all == views(datas@),
            pv == pick_views(picks@),
            picks_valid(datas@, picks@),
            todo == wanted(pv, exists_already@, force, 0),
            todo == seen + wanted(pv, exists_already@, force, k as int),
            seen.len() == jobs@.len(),
            forall|m: int|
                0 <= m < jobs@.len() ==> job_for(
                    #[trigger] jobs@[m],
                    all[todo[m].0],
                    todo[m].1,
                ),
        decreases picks.len() - k,
    {
        if force || !exists_already[k] {
            let (d, i) = picks[k];
            let data = &datas[d];
            proof {
                assert(picks@[k as int] == (d, i));
                assert(pv[k as int] == (d as int, i as int));
                assert(all[d as int] == data@);
                assert(data@.tables.partitions[i as int] == data.partitions@[i as int]@);
                let rest = wanted(pv, exists_already@, force, k + 1);
                assert(seen + (seq![pv[k as int]] + rest) =~= seen.push(pv[k as int]) + rest);
                assert(todo[seen.len() as int] == pv[k as int]);
            }
            match partition_extents(data, i) {
                Err(e) => {
                    return ExtractPlan { jobs, error: Some(e) };
                },
                Ok(extents) => {
                    let name = data.partitions[i].name.clone();
                    jobs.push(ExtractJob { name, extents });
                    proof {
                        seen = seen.push(pv[k as int]);
                    }
                },
            }
        }
        k += 1;
    }
    assert(seen + Seq::<(int, int)>::empty() =~= seen);
    ExtractPlan { jobs, error: None }
}

/// Whether the extents may lie on several files.
pub fn needs_bindings(datas: &Vec<SuperData>, specs: &Vec<String>) -> (r: bool)
    ensures
        r == (specs@.len() > 0 || exists|i: int|
            0 <= i < datas@.len() && (#[trigger] datas@[i]).devices@.len() > 1),
{
    if specs.len() > 0 {
        return true;
    }
    let mut i: usize = 0;
    while i < datas.len()
        invariant
            i <= datas.len(),
            forall|k: int| 0 <= k < i ==> (#[trigger] datas@[k]).devices@.len() <= 1,
        decreases datas.len() - i,
    {
        if datas[i].devices.len() > 1 {
            return true;
        }
        i += 1;
    }
    false
}

} // verus!
