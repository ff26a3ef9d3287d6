//! What commands choose to work on: slots, partitions, files, loop devices.

use crate::commands::add::add_source;
use crate::commands::argument_laws::law_requested_range;
use crate::commands::arguments::{size_or_zero, slot_selector, suffix_selector};
use crate::commands::binding_laws::law_bound_path;
use crate::commands::connect::{
    candidate, candidates, first_idle, is_backed_by, loop_choice, loop_record, named_window,
    record_matches, window_of, LoopNode,
};
use crate::commands::create::create_source;
use crate::commands::extract::{
    chain_broken, job_for, jobs_for, picked, picks_from, picks_in, wanted, ExtractJob, ExtractPlan,
};
use crate::commands::name_laws::{
    has_tail, law_answers, law_group_named, law_named, law_resolved, law_suffix_is_tail, names_it,
    stands_under,
};
use crate::commands::read::{law_range_streams, lemma_chain_bytes, range_of, read_planned, ReadPlan};
use crate::commands::rename::{rename_owner, RenameArgs};
use crate::commands::resize_laws::{lemma_data_one, lemma_total_one};
use crate::commands::split_util::{
    bases_across, binding_target, data_for_write, exact_across, found_across, group_named,
    group_owners, hinted_slot, in_slot, names_across, only, owner, owners, selected_data,
    write_source,
};
use crate::encoding::{lemma_u32_stored, lemma_u64_stored, lemma_widths, u32_at, u64_at};
use crate::error::{Error, Fault};
use crate::format::{
    copy_offset, Extent, Geometry, PartitionView, TablesView, LP_TARGET_TYPE_LINEAR,
};
use crate::reader::data::{
    answering, answers, capped, extents_of_partition, lemma_sector_total, named, names_of, passes,
    resolved, sector_total, slot_of_suffix, SuperView,
};
use crate::reader::extent_stream::{
    chain_data, extent_data, extent_len, law_chain_size, pieces_from, skip_end, ExtentSource,
};
use crate::reader::load::{container, first_data, law_all_slots, slot_data};
use crate::reader::parser::geometry_of;
use crate::reader::source::{decoded, is_sparse};
use crate::text::{is_white, trim_back, trim_front, trimmed};
use crate::text_laws::law_trimmed_stays;
use vstd::bytes::*;
use vstd::prelude::*;

verus! {

/// The chain of a partition is the run of the extent table that it names; what would
/// lie behind the table is cut off.
pub proof fn law_chain_entries(extents: Seq<Extent>, p: PartitionView)
    ensures
        ({
            let chain = extents_of_partition(extents, p);
            let first = p.first_extent_index as int;
            &&& first + p.num_extents <= extents.len() ==> chain.len() == p.num_extents
            &&& first + p.num_extents > extents.len() && first <= extents.len() ==> chain.len()
                == extents.len() - first
            &&& first > extents.len() ==> chain.len() == 0
            &&& forall|k: int| 0 <= k < chain.len() ==> #[trigger] chain[k] == extents[first + k]
        }),
{
}

/// A filter lets a name through that has no tail of a slot, or the tail of its own.
pub proof fn law_passes(name: Seq<char>, filter: Option<Seq<char>>)
    ensures
        passes(name, filter) <==> filter is None || !has_tail(name) || filter == Some(
            seq![name.last()],
        ),
{
    law_suffix_is_tail(name);
}

proof fn lemma_exact_across(datas: Seq<SuperView>, name: Seq<char>, i: int)
    requires
        0 <= i <= datas.len(),
    ensures
        match exact_across(datas, name, i) {
            Some((s, k)) => {
                let parts = datas[s].tables.partitions;
                &&& i <= s < datas.len()
                &&& 0 <= k < parts.len()
                &&& parts[k].name == name
                &&& forall|j: int| 0 <= j < k ==> (#[trigger] parts[j]).name != name
                &&& forall|m: int, j: int|
                    i <= m < s && 0 <= j < datas[m].tables.partitions.len()
                        ==> (#[trigger] datas[m].tables.partitions[j]).name != name
            },
            None => forall|m: int, j: int|
                i <= m < datas.len() && 0 <= j < datas[m].tables.partitions.len()
                    ==> (#[trigger] datas[m].tables.partitions[j]).name != name,
        },
    decreases datas.len() - i,
{
    if i < datas.len() {
        law_named(datas[i].tables.partitions, name, 0);
        lemma_exact_across(datas, name, i + 1);
    }
}

/// Whether a partition stands under a base name, in a slot without a partition of that
/// very name.
pub open spec fn stands_in(
    datas: Seq<SuperView>,
    name: Seq<char>,
    filter: Option<Seq<char>>,
    s: int,
    k: int,
) -> bool {
    let parts = datas[s].tables.partitions;
    &&& 0 <= s < datas.len()
    &&& 0 <= k < parts.len()
    &&& stands_under(parts[k].name, name, filter)
    &&& forall|j: int| 0 <= j < parts.len() ==> (#[trigger] parts[j]).name != name
}

proof fn lemma_in_answering(
    parts: Seq<PartitionView>,
    name: Seq<char>,
    filter: Option<Seq<char>>,
    i: int,
)
    requires
        0 <= i,
    ensures
        forall|k: int|
            #[trigger] answering(parts, name, filter, i).contains(k) <==> i <= k < parts.len()
                && stands_under(parts[k].name, name, filter),
        forall|a: int, b: int|
            0 <= a < b < answering(parts, name, filter, i).len() ==> #[trigger] answering(
                parts,
                name,
                filter,
                i,
            )[a] < #[trigger] answering(parts, name, filter, i)[b],
    decreases parts.len() - i,
{
    let all = answering(parts, name, filter, i);
    if i < parts.len() {
        lemma_in_answering(parts, name, filter, i + 1);
        law_answers(parts[i].name, name, filter);
        let rest = answering(parts, name, filter, i + 1);
        if answers(parts[i].name, name, filter) {
            assert(all =~= seq![i] + rest);
            assert forall|k: int| #[trigger] all.contains(k) <==> i <= k < parts.len()
                && stands_under(parts[k].name, name, filter) by {
                if all.contains(k) && k != i {
                    let m = all.index_of(k);
                    assert(rest[m - 1] == k);
                    assert(rest.contains(k));
                }
                if i < k < parts.len() && stands_under(parts[k].name, name, filter) {
                    assert(rest.contains(k));
                    let m = rest.index_of(k);
                    assert(all[m + 1] == k);
                }
                if k == i {
                    assert(all[0] == i);
                }
            }
            assert forall|a: int, b: int| 0 <= a < b < all.len() implies #[trigger] all[a]
                < #[trigger] all[b] by {
                assert(all[b] == rest[b - 1]);
                if a > 0 {
                    assert(all[a] == rest[a - 1]);
                } else {
                    assert(rest.contains(rest[b - 1]));
                }
            }
        } else {
            assert(all == rest);
        }
    }
}

/// Whether a pair comes before another, by slot and then by index.
pub open spec fn before(a: (int, int), b: (int, int)) -> bool {
    a.0 < b.0 || a.0 == b.0 && a.1 < b.1
}

proof fn lemma_bases(datas: Seq<SuperView>, name: Seq<char>, filter: Option<Seq<char>>, i: int)
    requires
        0 <= i <= datas.len(),
    ensures
        ({
            let all = bases_across(datas, name, filter, i);
            &&& forall|s: int, k: int|
                #[trigger] all.contains((s, k)) <==> i <= s && stands_in(datas, name, filter, s, k)
            &&& forall|a: int, b: int|
                0 <= a < b < all.len() ==> before(#[trigger] all[a], #[trigger] all[b])
        }),
    decreases datas.len() - i,
{
    let all = bases_across(datas, name, filter, i);
    if i < datas.len() {
        lemma_bases(datas, name, filter, i + 1);
        let parts = datas[i].tables.partitions;
        law_named(parts, name, 0);
        lemma_in_answering(parts, name, filter, 0);
        let here = answering(parts, name, filter, 0);
        let rest = bases_across(datas, name, filter, i + 1);
        if named(parts, name, 0) is None {
            let front = in_slot(i, here);
            assert(all == front + rest);
            assert forall|s: int, k: int| #[trigger] all.contains((s, k)) <==> i <= s && stands_in(
                datas,
                name,
                filter,
                s,
                k,
            ) by {
                if all.contains((s, k)) {
                    let m = all.index_of((s, k));
                    if m < front.len() {
                        assert(front[m] == (i, here[m]));
                        assert(here.contains(here[m]));
                    } else {
                        assert(rest[m - front.len()] == (s, k));
                        assert(rest.contains((s, k)));
                    }
                }
                if i <= s && stands_in(datas, name, filter, s, k) {
                    if s == i {
                        assert(here.contains(k));
                        let m = here.index_of(k);
                        assert(front[m] == (i, k));
                        assert(all[m] == (s, k));
                    } else {
                        assert(rest.contains((s, k)));
                        let m = rest.index_of((s, k));
                        assert(all[front.len() + m] == (s, k));
                    }
                }
            }
            assert forall|a: int, b: int| 0 <= a < b < all.len() implies before(
                #[trigger] all[a],
                #[trigger] all[b],
            ) by {
                if b < front.len() {
                    assert(front[a] == (i, here[a]) && front[b] == (i, here[b]));
                } else if a < front.len() {
                    assert(front[a] == (i, here[a]));
                    let m = b - front.len();
                    assert(all[b] == rest[m]);
                    assert(rest.contains((rest[m].0, rest[m].1)));
                } else {
                    assert(all[a] == rest[a - front.len()] && all[b] == rest[b - front.len()]);
                }
            }
        } else {
            assert(all == rest);
            assert forall|s: int, k: int| #[trigger] all.contains((s, k)) <==> i <= s && stands_in(
                datas,
                name,
                filter,
                s,
                k,
            ) by {
                let m = named(parts, name, 0)->Some_0;
                assert(parts[m].name == name);
            }
        }
    }
}

/// A name among several slots: the first partition of that very name, in the first slot
/// that has one and where the filter lets the name through; else the only partition
/// that stands under it in any slot. It is not found where there is none, and ambiguous
/// where there are several.
pub proof fn law_found_across(datas: Seq<SuperView>, name: Seq<char>, filter: Option<Seq<char>>)
    ensures
        ({
            let allowed = filter is None || !has_tail(name) || filter == Some(seq![name.last()]);
            let has_it = allowed && exists|s: int, j: int|
                0 <= s < datas.len() && 0 <= j < datas[s].tables.partitions.len()
                    && (#[trigger] datas[s].tables.partitions[j]).name == name;
            match found_across(datas, name, filter) {
                Ok((s, k)) => {
                    let parts = datas[s].tables.partitions;
                    &&& 0 <= s < datas.len()
                    &&& 0 <= k < parts.len()
                    &&& if has_it {
                        &&& parts[k].name == name
                        &&& forall|j: int| 0 <= j < k ==> (#[trigger] parts[j]).name != name
                        &&& forall|m: int, j: int|
                            0 <= m < s && 0 <= j < datas[m].tables.partitions.len()
                                ==> (#[trigger] datas[m].tables.partitions[j]).name != name
                    } else {
                        &&& stands_in(datas, name, filter, s, k)
                        &&& forall|m: int, j: int|
                            #[trigger] stands_in(datas, name, filter, m, j) ==> m == s && j == k
                    }
                },
                Err(e) => {
                    &&& !has_it
                    &&& e == Error::NotFound(Fault::Partition) || e == Error::Invalid(
                        Fault::Ambiguous,
                    )
                    &&& e == Error::NotFound(Fault::Partition) <==> forall|m: int, j: int|
                        !#[trigger] stands_in(datas, name, filter, m, j)
                },
            }
        }),
{
    law_suffix_is_tail(name);
    lemma_exact_across(datas, name, 0);
    lemma_bases(datas, name, filter, 0);
    let bases = bases_across(datas, name, filter, 0);
    if let Some((s, k)) = exact_across(datas, name, 0) {
        assert(datas[s].tables.partitions[k].name == name);
    }
    if bases.len() > 0 {
        assert(bases.contains((bases[0].0, bases[0].1)));
    }
    if bases.len() == 1 {
        assert forall|m: int, j: int| #[trigger] stands_in(datas, name, filter, m, j) implies m
            == bases[0].0 && j == bases[0].1 by {
            assert(bases.contains((m, j)));
            let x = bases.index_of((m, j));
        }
    }
    if bases.len() == 0 {
        assert forall|m: int, j: int| !#[trigger] stands_in(datas, name, filter, m, j) by {
            if stands_in(datas, name, filter, m, j) {
                assert(bases.contains((m, j)));
            }
        }
    }
}

proof fn lemma_owners(datas: Seq<SuperView>, name: Seq<char>, filter: Option<Seq<char>>, i: int)
    requires
        0 <= i <= datas.len(),
    ensures
        forall|s: int|
            #[trigger] owners(datas, name, filter, i).contains(s) <==> i <= s < datas.len()
                && resolved(datas[s].tables.partitions, name, filter) is Ok,
    decreases datas.len() - i,
{
    if i < datas.len() {
        lemma_owners(datas, name, filter, i + 1);
        let all = owners(datas, name, filter, i);
        let rest = owners(datas, name, filter, i + 1);
        if resolved(datas[i].tables.partitions, name, filter) is Ok {
            assert(all == seq![i] + rest);
            assert forall|s: int| #[trigger] all.contains(s) <==> i <= s < datas.len() && resolved(
                datas[s].tables.partitions,
                name,
                filter,
            ) is Ok by {
                if s == i {
                    assert(all[0] == i);
                }
                if all.contains(s) && s != i {
                    let m = all.index_of(s);
                    assert(rest[m - 1] == s);
                    assert(rest.contains(s));
                }
                if rest.contains(s) {
                    let m = rest.index_of(s);
                    assert(all[m + 1] == s);
                }
            }
        }
    }
}

proof fn lemma_group_owners(datas: Seq<SuperView>, name: Seq<char>, i: int)
    requires
        0 <= i <= datas.len(),
    ensures
        forall|s: int|
            #[trigger] group_owners(datas, name, i).contains(s) <==> i <= s < datas.len()
                && group_named(datas[s].tables.groups, name, 0) is Some,
    decreases datas.len() - i,
{
    if i < datas.len() {
        lemma_group_owners(datas, name, i + 1);
        let all = group_owners(datas, name, i);
        let rest = group_owners(datas, name, i + 1);
        if group_named(datas[i].tables.groups, name, 0) is Some {
            assert(all == seq![i] + rest);
            assert forall|s: int| #[trigger] all.contains(s) <==> i <= s < datas.len()
                && group_named(datas[s].tables.groups, name, 0) is Some by {
                if s == i {
                    assert(all[0] == i);
                }
                if all.contains(s) && s != i {
                    let m = all.index_of(s);
                    assert(rest[m - 1] == s);
                    assert(rest.contains(s));
                }
                if rest.contains(s) {
                    let m = rest.index_of(s);
                    assert(all[m + 1] == s);
                }
            }
        }
    }
}

/// Whether a name stands for a partition of a slot.
pub open spec fn stands_for_one(d: SuperView, name: Seq<char>, filter: Option<Seq<char>>) -> bool {
    exists|i: int| names_it(d.tables.partitions, name, filter, i)
}

/// A change goes to the slot in which the name stands for a partition, and only where
/// that is one slot.
pub proof fn law_owner(datas: Seq<SuperView>, name: Seq<char>, filter: Option<Seq<char>>)
    ensures
        match owner(datas, name, filter) {
            Ok(s) => 0 <= s < datas.len() && stands_for_one(datas[s], name, filter) && forall|m: int|
                0 <= m < datas.len() && m != s ==> !stands_for_one(
                    #[trigger] datas[m],
                    name,
                    filter,
                ),
            Err(e) => e == Error::Invalid(Fault::SlotAmbiguous) || forall|m: int|
                0 <= m < datas.len() ==> !stands_for_one(#[trigger] datas[m], name, filter),
        },
{
    lemma_owners(datas, name, filter, 0);
    let found = owners(datas, name, filter, 0);
    assert forall|m: int| 0 <= m < datas.len() implies resolved(
        (#[trigger] datas[m]).tables.partitions,
        name,
        filter,
    ) is Ok == stands_for_one(datas[m], name, filter) by {
        let parts = datas[m].tables.partitions;
        law_resolved(parts, name, filter);
        if let Ok(i) = resolved(parts, name, filter) {
            assert(names_it(parts, name, filter, i));
        }
    }
    if found.len() > 0 {
        assert(found.contains(found[0]));
    }
    assert forall|m: int| 0 <= m < datas.len() && stands_for_one(
        #[trigger] datas[m],
        name,
        filter,
    ) implies found.contains(m) by {}
    if found.len() == 1 {
        assert forall|m: int| 0 <= m < datas.len() && m != found[0] implies !stands_for_one(
            #[trigger] datas[m],
            name,
            filter,
        ) by {
            if found.contains(m) {
                let k = found.index_of(m);
            }
        }
    }
}

/// The rename of a group goes to the slot that has the group, and only where that is
/// one slot.
pub proof fn law_group_owner(datas: Seq<SuperView>, name: Seq<char>, missing: Error)
    ensures
        ({
            let has_it = |d: SuperView|
                exists|j: int|
                    0 <= j < d.tables.groups.len() && (#[trigger] d.tables.groups[j]).name == name;
            match only(group_owners(datas, name, 0), missing) {
                Ok(s) => 0 <= s < datas.len() && has_it(datas[s]) && forall|m: int|
                    0 <= m < datas.len() && m != s ==> !has_it(#[trigger] datas[m]),
                Err(e) => e == Error::Invalid(Fault::SlotAmbiguous) || forall|m: int|
                    0 <= m < datas.len() ==> !has_it(#[trigger] datas[m]),
            }
        }),
{
    let has_it = |d: SuperView|
        exists|j: int|
            0 <= j < d.tables.groups.len() && (#[trigger] d.tables.groups[j]).name == name;
    lemma_group_owners(datas, name, 0);
    let found = group_owners(datas, name, 0);
    assert forall|m: int| 0 <= m < datas.len() implies group_named(
        (#[trigger] datas[m]).tables.groups,
        name,
        0,
    ) is Some == has_it(datas[m]) by {
        let groups = datas[m].tables.groups;
        law_group_named(groups, name, 0);
        if let Some(g) = group_named(groups, name, 0) {
            assert(groups[g].name == name);
        }
    }
    if found.len() > 0 {
        assert(found.contains(found[0]));
    }
    assert forall|m: int| 0 <= m < datas.len() && has_it(
        #[trigger] datas[m],
    ) implies found.contains(m) by {}
    if found.len() == 1 {
        assert forall|m: int| 0 <= m < datas.len() && m != found[0] implies !has_it(
            #[trigger] datas[m],
        ) by {
            if found.contains(m) {
                let k = found.index_of(m);
            }
        }
    }
}

/// The slot that a name hints at is the one of its own tail, `a` the first and `b` the
/// second; a name without a tail leaves it to the filter.
pub proof fn law_hinted_slot(name: Seq<char>, filter: Option<Seq<char>>)
    ensures
        has_tail(name) ==> hinted_slot(name, filter) == Some(
            if name.last() == 'a' {
                0u64
            } else {
                1u64
            },
        ),
        !has_tail(name) && filter is None ==> hinted_slot(name, filter) is None,
        !has_tail(name) && filter is Some ==> hinted_slot(name, filter) == slot_of_suffix(
            filter->Some_0,
        ),
{
    law_suffix_is_tail(name);
    assert(seq!['a'][0] == 'a' && seq!['b'][0] == 'b');
    assert(seq!['A'][0] == 'A' && seq!['B'][0] == 'B');
    if has_tail(name) {
        assert(seq![name.last()][0] == name.last());
    }
}

/// A change goes to the slot that was selected. Where none was, it goes to the one that
/// the name hints at if that loads, and else to the first that is valid.
pub proof fn law_data_for_write(
    c: Seq<u8>,
    format: Seq<char>,
    name: Seq<char>,
    filter: Option<Seq<char>>,
    slot: Option<u64>,
)
    ensures
        slot matches Some(n) ==> data_for_write(c, format, name, filter, slot) == slot_data(
            c,
            format,
            n,
        ),
        slot is None ==> match hinted_slot(name, filter) {
            Some(n) => slot_data(c, format, n) is Ok ==> data_for_write(
                c,
                format,
                name,
                filter,
                slot,
            ) == slot_data(c, format, n),
            None => data_for_write(c, format, name, filter, slot) == first_data(c, format),
        },
        slot is None && (hinted_slot(name, filter) matches Some(n) && slot_data(c, format, n)
            is Err) ==> data_for_write(c, format, name, filter, slot) == first_data(c, format),
{
}

/// Whether an entry stands for one that passes a filter: it is the first of its name.
pub open spec fn picks_one(
    datas: Seq<SuperView>,
    filter: Option<Seq<char>>,
    pick: (int, int),
) -> bool {
    let parts = datas[pick.0].tables.partitions;
    &&& 0 <= pick.0 < datas.len()
    &&& 0 <= pick.1 < parts.len()
    &&& passes(parts[pick.1].name, filter)
    &&& forall|j: int| 0 <= j < pick.1 ==> (#[trigger] parts[j]).name != parts[pick.1].name
}

/// Whether a partition is among those chosen, by the first entry of its name.
pub open spec fn has_pick(datas: Seq<SuperView>, all: Seq<(int, int)>, m: int, k: int) -> bool {
    exists|x: int|
        0 <= x < all.len() && (#[trigger] all[x]).0 == m
            && datas[m].tables.partitions[all[x].1].name == datas[m].tables.partitions[k].name
}

/// Whether the `k`-th partition of a slot passes a filter.
pub open spec fn passes_at(
    datas: Seq<SuperView>,
    filter: Option<Seq<char>>,
    m: int,
    k: int,
) -> bool {
    &&& 0 <= m < datas.len()
    &&& 0 <= k < datas[m].tables.partitions.len()
    &&& passes(datas[m].tables.partitions[k].name, filter)
}

/// What was chosen before or after is chosen together.
proof fn lemma_pick_kept(
    datas: Seq<SuperView>,
    here: Seq<(int, int)>,
    rest: Seq<(int, int)>,
    m: int,
    k: int,
)
    requires
        has_pick(datas, here, m, k) || has_pick(datas, rest, m, k),
    ensures
        has_pick(datas, here + rest, m, k),
{
    let all = here + rest;
    let parts = datas[m].tables.partitions;
    if has_pick(datas, here, m, k) {
        let x = choose|x: int|
            0 <= x < here.len() && (#[trigger] here[x]).0 == m && parts[here[x].1].name
                == parts[k].name;
        assert(all[x] == here[x]);
    } else {
        let x = choose|x: int|
            0 <= x < rest.len() && (#[trigger] rest[x]).0 == m && parts[rest[x].1].name
                == parts[k].name;
        assert(all[here.len() + x] == rest[x]);
    }
}

/// The number of entries from the `i`-th on that pass a filter.
pub open spec fn passing_count(parts: Seq<PartitionView>, filter: Option<Seq<char>>, i: int) -> int
    decreases parts.len() - i,
{
    if i < 0 || i >= parts.len() {
        0
    } else {
        passing_count(parts, filter, i + 1) + if passes(parts[i].name, filter) {
            1int
        } else {
            0int
        }
    }
}

proof fn lemma_picks_in(datas: Seq<SuperView>, s: int, filter: Option<Seq<char>>, i: int)
    requires
        0 <= s < datas.len(),
        0 <= i <= datas[s].tables.partitions.len(),
    ensures
        ({
            let parts = datas[s].tables.partitions;
            let all = picks_in(parts, s, filter, i);
            &&& all.len() == passing_count(parts, filter, i)
            &&& forall|x: int|
                0 <= x < all.len() ==> (#[trigger] all[x]).0 == s && picks_one(
                    datas,
                    filter,
                    all[x],
                )
            &&& forall|k: int|
                i <= k && passes_at(datas, filter, s, k) ==> #[trigger] has_pick(datas, all, s, k)
        }),
    decreases datas[s].tables.partitions.len() - i,
{
    let parts = datas[s].tables.partitions;
    let all = picks_in(parts, s, filter, i);
    if i < parts.len() {
        lemma_picks_in(datas, s, filter, i + 1);
        let rest = picks_in(parts, s, filter, i + 1);
        if passes(parts[i].name, filter) {
            law_named(parts, parts[i].name, 0);
            let head = (s, named(parts, parts[i].name, 0)->Some_0);
            assert(parts[i].name == parts[i].name);
            assert(all == seq![head] + rest);
            assert forall|x: int| 0 <= x < all.len() implies (#[trigger] all[x]).0 == s
                && picks_one(datas, filter, all[x]) by {
                if x > 0 {
                    assert(all[x] == rest[x - 1]);
                }
            }
            assert forall|k: int| i <= k && passes_at(datas, filter, s, k) implies #[trigger] has_pick(
                datas,
                all,
                s,
                k,
            ) by {
                if k == i {
                    assert(all[0] == head);
                } else {
                    assert(has_pick(datas, rest, s, k));
                    lemma_pick_kept(datas, seq![head], rest, s, k);
                }
            }
        } else {
            assert(all == rest);
        }
    }
}

proof fn lemma_picks_from(datas: Seq<SuperView>, filter: Option<Seq<char>>, s: int)
    requires
        0 <= s <= datas.len(),
    ensures
        ({
            let all = picks_from(datas, filter, s);
            &&& forall|x: int|
                0 <= x < all.len() ==> (#[trigger] all[x]).0 >= s && picks_one(
                    datas,
                    filter,
                    all[x],
                )
            &&& forall|x: int, y: int|
                0 <= x < y < all.len() ==> (#[trigger] all[x]).0 <= (#[trigger] all[y]).0
            &&& forall|m: int, k: int|
                s <= m && passes_at(datas, filter, m, k) ==> #[trigger] has_pick(datas, all, m, k)
        }),
    decreases datas.len() - s,
{
    let all = picks_from(datas, filter, s);
    if s < datas.len() {
        lemma_picks_from(datas, filter, s + 1);
        lemma_picks_in(datas, s, filter, 0);
        let here = picks_in(datas[s].tables.partitions, s, filter, 0);
        let rest = picks_from(datas, filter, s + 1);
        assert(all == here + rest);
        assert forall|x: int| 0 <= x < all.len() implies (#[trigger] all[x]).0 >= s && picks_one(
            datas,
            filter,
            all[x],
        ) by {
            if x < here.len() {
                assert(all[x] == here[x]);
            } else {
                assert(all[x] == rest[x - here.len()]);
            }
        }
        assert forall|x: int, y: int| 0 <= x < y < all.len() implies (#[trigger] all[x]).0 <= (
        #[trigger] all[y]).0 by {
            if y < here.len() {
                assert(all[x] == here[x] && all[y] == here[y]);
            } else if x < here.len() {
                assert(all[x] == here[x] && all[y] == rest[y - here.len()]);
            } else {
                assert(all[x] == rest[x - here.len()] && all[y] == rest[y - here.len()]);
            }
        }
        assert forall|m: int, k: int| s <= m && passes_at(datas, filter, m, k) implies #[trigger] has_pick(
            datas,
            all,
            m,
            k,
        ) by {
            if m == s {
                assert(has_pick(datas, here, m, k));
            } else {
                assert(has_pick(datas, rest, m, k));
            }
            lemma_pick_kept(datas, here, rest, m, k);
        }
    }
}

/// Without a name, every partition that the filter lets through is extracted, slot by
/// slot, and no other; nothing being there to extract is an error. With a name, the one
/// partition that it stands for is extracted.
pub proof fn law_picked(
    datas: Seq<SuperView>,
    partition: Option<Seq<char>>,
    filter: Option<Seq<char>>,
)
    ensures
        partition is None ==> match picked(datas, partition, filter) {
            Ok(all) => {
                &&& all.len() > 0
                &&& forall|x: int| 0 <= x < all.len() ==> picks_one(datas, filter, #[trigger] all[x])
                &&& forall|x: int, y: int|
                    0 <= x < y < all.len() ==> (#[trigger] all[x]).0 <= (#[trigger] all[y]).0
                &&& forall|m: int, k: int|
                    passes_at(datas, filter, m, k) ==> #[trigger] has_pick(datas, all, m, k)
            },
            Err(e) => e == Error::NotFound(Fault::NothingSelected) && forall|m: int, k: int|
                !#[trigger] passes_at(datas, filter, m, k),
        },
        partition matches Some(name) ==> match found_across(datas, name, filter) {
            Ok((s, k)) => picked(datas, partition, filter) matches Ok(all) && all.len() == 1
                && all[0].0 == s && datas[s].tables.partitions[all[0].1].name
                == datas[s].tables.partitions[k].name,
            Err(e) => picked(datas, partition, filter) == Err::<Seq<(int, int)>, Error>(e),
        },
{
    match partition {
        None => {
            lemma_picks_from(datas, filter, 0);
            let all = picks_from(datas, filter, 0);
            if all.len() == 0 {
                assert forall|m: int, k: int| !#[trigger] passes_at(datas, filter, m, k) by {
                    if passes_at(datas, filter, m, k) {
                        assert(has_pick(datas, all, m, k));
                    }
                }
            }
        },
        Some(name) => {
            law_found_across(datas, name, filter);
            if let Ok((s, k)) = found_across(datas, name, filter) {
                let parts = datas[s].tables.partitions;
                law_named(parts, parts[k].name, 0);
            }
        },
    }
}

/// What is chosen is extracted in order, all of it where that is forced; else what has
/// no file yet, and only that.
pub proof fn law_wanted(picks: Seq<(int, int)>, there: Seq<bool>, force: bool, k: int)
    requires
        0 <= k <= picks.len() == there.len(),
    ensures
        force ==> wanted(picks, there, force, k) == picks.skip(k),
        (forall|m: int| k <= m < picks.len() ==> !#[trigger] there[m]) ==> wanted(
            picks,
            there,
            force,
            k,
        ) == picks.skip(k),
        !force && (forall|m: int| k <= m < picks.len() ==> #[trigger] there[m]) ==> wanted(
            picks,
            there,
            force,
            k,
        ).len() == 0,
        k < picks.len() && !force && there[k] ==> wanted(picks, there, force, k) == wanted(
            picks,
            there,
            force,
            k + 1,
        ),
        k < picks.len() && (force || !there[k]) ==> wanted(picks, there, force, k) == seq![picks[k]]
            + wanted(picks, there, force, k + 1),
    decreases picks.len() - k,
{
    if k < picks.len() {
        law_wanted(picks, there, force, k + 1);
        assert(seq![picks[k]] + picks.skip(k + 1) =~= picks.skip(k));
    } else {
        assert(picks.skip(k) =~= Seq::<(int, int)>::empty());
    }
}

/// What is extracted is the partition: under its name, its extents from the first to
/// the last, so its whole content.
pub proof fn law_job_extracts<D: ExtentSource>(src: &D, job: ExtractJob, d: SuperView, i: int)
    requires
        0 <= i < d.tables.partitions.len(),
        job_for(job, d, i),
    ensures
        ({
            let p = d.tables.partitions[i];
            &&& job.name@ == p.name
            &&& job.extents@.len() == p.num_extents
            &&& forall|k: int|
                0 <= k < p.num_extents ==> #[trigger] job.extents@[k]
                    == d.tables.extents[p.first_extent_index + k]
            &&& chain_data(src, job.extents@) == chain_data(
                src,
                extents_of_partition(d.tables.extents, p),
            )
        }),
{
    law_chain_entries(d.tables.extents, d.tables.partitions[i]);
}

/// Whether a partition goes by a name for a loop device: it has it, or stands under it,
/// and the filter lets it through.
pub open spec fn goes_by(p: PartitionView, name: Seq<char>, filter: Option<Seq<char>>) -> bool {
    p.name == name && passes(name, filter) || stands_under(p.name, name, filter)
}

proof fn lemma_candidates(
    parts: Seq<PartitionView>,
    name: Seq<char>,
    filter: Option<Seq<char>>,
    i: int,
)
    requires
        0 <= i <= parts.len(),
    ensures
        forall|k: int|
            #[trigger] candidates(parts, name, filter, i).contains(k) <==> i <= k < parts.len()
                && goes_by(parts[k], name, filter),
        forall|a: int, b: int|
            0 <= a < b < candidates(parts, name, filter, i).len() ==> #[trigger] candidates(
                parts,
                name,
                filter,
                i,
            )[a] < #[trigger] candidates(parts, name, filter, i)[b],
    decreases parts.len() - i,
{
    if i < parts.len() {
        lemma_candidates(parts, name, filter, i + 1);
        law_answers(parts[i].name, name, filter);
        let all = candidates(parts, name, filter, i);
        let rest = candidates(parts, name, filter, i + 1);
        if candidate(parts[i], name, filter) {
            assert(all == seq![i] + rest);
            assert forall|k: int| #[trigger] all.contains(k) <==> i <= k < parts.len() && goes_by(
                parts[k],
                name,
                filter,
            ) by {
                if k == i {
                    assert(all[0] == i);
                }
                if all.contains(k) && k != i {
                    let m = all.index_of(k);
                    assert(rest[m - 1] == k);
                    assert(rest.contains(k));
                }
                if rest.contains(k) {
                    let m = rest.index_of(k);
                    assert(all[m + 1] == k);
                }
            }
            assert forall|a: int, b: int| 0 <= a < b < all.len() implies #[trigger] all[a]
                < #[trigger] all[b] by {
                assert(all[b] == rest[b - 1]);
                assert(rest.contains(rest[b - 1]));
                if a > 0 {
                    assert(all[a] == rest[a - 1]);
                }
            }
        }
    }
}

/// A loop device covers the one extent of the only partition that goes by the name: it
/// starts where the extent does and is as long, so what is read of it is what is read of
/// the partition. It is refused exactly where no partition or several go by the name,
/// where it does not have one extent, where that is none that can be connected, or where
/// it cannot be addressed.
pub proof fn law_loop_window<D: ExtentSource>(
    src: &D,
    c: Seq<u8>,
    t: TablesView,
    name: Seq<char>,
    filter: Option<Seq<char>>,
    linear: bool,
)
    requires
        t.partitions.len() <= usize::MAX,
    ensures
        match named_window(t, name, filter, linear) {
            Ok(w) => {
                let i = w.index as int;
                let p = t.partitions[i];
                let e = t.extents[p.first_extent_index as int];
                &&& 0 <= i < t.partitions.len()
                &&& goes_by(p, name, filter)
                &&& forall|k: int|
                    0 <= k < t.partitions.len() && k != i ==> !goes_by(
                        #[trigger] t.partitions[k],
                        name,
                        filter,
                    )
                &&& p.num_extents == 1
                &&& p.first_extent_index < t.extents.len()
                &&& linear ==> e.target_type == LP_TARGET_TYPE_LINEAR
                &&& w.offset == 512 * e.target_data
                &&& w.size == capped(512 * e.num_sectors)
                &&& e.target_type == LP_TARGET_TYPE_LINEAR && src.device(e.target_source) == Some(c)
                    && w.offset + w.size <= c.len() && 512 * e.num_sectors <= u64::MAX
                    ==> chain_data(src, extents_of_partition(t.extents, p)) == c.subrange(
                    w.offset as int,
                    w.offset + w.size,
                )
            },
            Err(_) => {
                ||| forall|k: int|
                    0 <= k < t.partitions.len() ==> !goes_by(
                        #[trigger] t.partitions[k],
                        name,
                        filter,
                    )
                ||| exists|j: int, k: int|
                    0 <= j < k < t.partitions.len() && goes_by(
                        #[trigger] t.partitions[j],
                        name,
                        filter,
                    ) && goes_by(#[trigger] t.partitions[k], name, filter)
                ||| exists|k: int|
                    {
                        let p = #[trigger] t.partitions[k];
                        let e = t.extents[p.first_extent_index as int];
                        &&& 0 <= k < t.partitions.len()
                        &&& goes_by(p, name, filter)
                        &&& p.num_extents != 1 || p.first_extent_index >= t.extents.len() || linear
                            && e.target_type != LP_TARGET_TYPE_LINEAR || 512 * e.target_data
                            > u64::MAX
                    }
            },
        },
{
    lemma_candidates(t.partitions, name, filter, 0);
    let found = candidates(t.partitions, name, filter, 0);
    if found.len() == 0 {
        assert forall|k: int| 0 <= k < t.partitions.len() implies !goes_by(
            #[trigger] t.partitions[k],
            name,
            filter,
        ) by {
            if goes_by(t.partitions[k], name, filter) {
                assert(found.contains(k));
            }
        }
    } else if found.len() > 1 {
        assert(found.contains(found[0]) && found.contains(found[1]));
        let a = found[0];
        let b = found[1];
        assert(goes_by(t.partitions[a], name, filter) && goes_by(t.partitions[b], name, filter));
    } else {
        let i = found[0];
        assert(found.contains(i));
        let p = t.partitions[i];
        assert forall|k: int| 0 <= k < t.partitions.len() && k != i implies !goes_by(
            #[trigger] t.partitions[k],
            name,
            filter,
        ) by {
            if goes_by(t.partitions[k], name, filter) {
                assert(found.contains(k));
                let m = found.index_of(k);
            }
        }
        if let Ok(w) = window_of(t, i, linear) {
            let e = t.extents[p.first_extent_index as int];
            let chain = extents_of_partition(t.extents, p);
            assert(chain =~= seq![e]);
            lemma_total_one(e);
            lemma_data_one(src, e);
            if e.target_type == LP_TARGET_TYPE_LINEAR && src.device(e.target_source) == Some(c)
                && w.offset + w.size <= c.len() && 512 * e.num_sectors <= u64::MAX {
                assert(extent_len(e) == 512 * e.num_sectors);
                assert(extent_data(src, e) =~= c.subrange(w.offset as int, w.offset + w.size));
            }
        } else {
            assert(goes_by(t.partitions[i], name, filter));
        }
    }
}

/// The loop driver's record holds offset, size and flags in their places, and nothing
/// else.
pub proof fn law_loop_record(offset: u64, size: u64, flags: u32)
    ensures
        ({
            let record = loop_record(offset, size, flags);
            &&& record.len() == 232
            &&& u64_at(record, 24) == offset
            &&& u64_at(record, 32) == size
            &&& u32_at(record, 52) == flags
            &&& forall|i: int|
                0 <= i < 232 && !(24 <= i < 40) && !(52 <= i < 56) ==> #[trigger] record[i] == 0
        }),
{
    lemma_widths();
    let record = loop_record(offset, size, flags);
    assert(record.subrange(24, 32) =~= spec_u64_to_le_bytes(offset));
    lemma_u64_stored(record, 24, offset);
    assert(record.subrange(32, 40) =~= spec_u64_to_le_bytes(size));
    lemma_u64_stored(record, 32, size);
    assert(record.subrange(52, 56) =~= spec_u32_to_le_bytes(flags));
    lemma_u32_stored(record, 52, flags);
}

/// The loop device that is used is the first that is there and not busy.
pub proof fn law_first_idle(nodes: Seq<LoopNode>, i: int)
    requires
        0 <= i <= nodes.len(),
    ensures
        match first_idle(nodes, i) {
            Some(k) => i <= k < nodes.len() && nodes[k].exists_here && !nodes[k].busy && forall|
                j: int,
            |
                i <= j < k ==> !(#[trigger] nodes[j]).exists_here || nodes[j].busy,
            None => forall|j: int|
                i <= j < nodes.len() ==> !(#[trigger] nodes[j]).exists_here || nodes[j].busy,
        },
    decreases nodes.len() - i,
{
    if i < nodes.len() {
        law_first_idle(nodes, i + 1);
    }
}

/// A read gives the part of the partition that was asked for: what is streamed out of
/// the planned extents, past what is skipped, are the bytes of the partition from there
/// on, as many as were asked for or as there are. Nothing is read of an empty partition
/// or from the end on. Chains of more bytes than 64 bits count are left out.
pub proof fn law_read_planned<D: ExtentSource>(
    src: &D,
    t: TablesView,
    i: int,
    skip: Option<Seq<char>>,
    size: Option<Seq<char>>,
    r: Result<Option<ReadPlan>, Error>,
)
    requires
        0 <= i < t.partitions.len(),
        512 * sector_total(extents_of_partition(t.extents, t.partitions[i])) <= u64::MAX,
        read_planned(t, i, skip, size, r),
    ensures
        ({
            let p = t.partitions[i];
            let chain = extents_of_partition(t.extents, p);
            let whole = chain_data(src, chain);
            let from = match skip {
                Some(s) => size_or_zero(s)->Ok_0 as int,
                None => 0,
            };
            match r {
                Ok(Some(plan)) => {
                    &&& plan.skip == from
                    &&& plan.skip + plan.len <= whole.len()
                    &&& size is None ==> plan.skip + plan.len == whole.len()
                    &&& size matches Some(s) ==> plan.len == size_or_zero(s)->Ok_0 || plan.skip
                        + plan.len == whole.len() && plan.len < size_or_zero(s)->Ok_0
                    &&& pieces_from(
                        src,
                        plan.extents@,
                        skip_end(plan.extents@, 0, plan.skip as int),
                        plan.len as int,
                    ) == whole.subrange(plan.skip as int, plan.skip + plan.len)
                },
                Ok(None) => whole.len() == 0 || from >= whole.len(),
                Err(_) => {
                    ||| p.first_extent_index + p.num_extents > t.extents.len()
                    ||| skip matches Some(s) && size_or_zero(s) is Err
                    ||| size matches Some(s) && size_or_zero(s) is Err
                },
            }
        }),
{
    let p = t.partitions[i];
    let chain = extents_of_partition(t.extents, p);
    lemma_sector_total(chain);
    let total = capped(512 * sector_total(chain));
    law_requested_range(total, skip, size);
    law_chain_size(src, chain);
    lemma_chain_bytes(chain);
    if let Ok(Some(plan)) = r {
        let s = match skip {
            Some(s) => size_or_zero(s)->Ok_0,
            None => 0,
        };
        let n = match size {
            Some(s) => size_or_zero(s)->Ok_0,
            None => total,
        };
        assert(range_of(total, s, n) == Some((plan.skip, plan.len)));
        law_range_streams(src, chain, s, n);
    } else if p.num_extents == 0 {
        assert(chain =~= Seq::<Extent>::empty());
    }
}

/// What a change of a file starts from: the slot that was selected, or where all were,
/// the one that the tail of the name or the filter hints at, if it loads, and else the
/// first that is valid. Faults of the selectors come before those of the file.
pub proof fn law_write_source(f: Seq<u8>, slot: Seq<char>, suffix: Seq<char>, name: Seq<char>)
    ensures
        ({
            let source = write_source(f, slot, suffix, name);
            &&& source is Ok ==> slot_selector(slot) is Ok && suffix_selector(suffix) is Ok
                && decoded(f) is Ok
            &&& slot_selector(slot) matches Err(e) ==> source == Err::<SuperView, Error>(e)
            &&& slot_selector(slot) is Ok ==> (suffix_selector(suffix) matches Err(e) ==> source
                == Err::<SuperView, Error>(e))
            &&& slot_selector(slot) is Ok && suffix_selector(suffix) is Ok ==> match decoded(f) {
                Err(e) => source == Err::<SuperView, Error>(e),
                Ok(c) => match slot_selector(slot)->Ok_0 {
                    Some(n) => source == slot_data(c, container(f), n),
                    None => {
                        &&& has_tail(name) && name.last() == 'a' && slot_data(c, container(f), 0)
                            is Ok ==> source == slot_data(c, container(f), 0)
                        &&& has_tail(name) && name.last() == 'b' && slot_data(c, container(f), 1)
                            is Ok ==> source == slot_data(c, container(f), 1)
                        &&& !has_tail(name) && suffix_selector(suffix)->Ok_0 is None ==> source
                            == first_data(c, container(f))
                    },
                },
            }
        }),
{
    if slot_selector(slot) is Ok && suffix_selector(suffix) is Ok && decoded(f) is Ok {
        let c = decoded(f)->Ok_0;
        let s = suffix_selector(suffix)->Ok_0;
        law_hinted_slot(name, s);
        law_data_for_write(c, container(f), name, s, slot_selector(slot)->Ok_0);
    }
}

/// A selector that names a slot picks that slot alone; one that names none picks every
/// slot that loads.
pub proof fn law_selected(c: Seq<u8>, format: Seq<char>, slot: Option<u64>)
    ensures
        match slot {
            Some(n) => match slot_data(c, format, n) {
                Ok(d) => selected_data(c, format, slot) matches Ok(all) && all.len() == 1 && all[0]
                    == d,
                Err(e) => selected_data(c, format, slot) == Err::<Seq<SuperView>, Error>(e),
            },
            None => match selected_data(c, format, slot) {
                Ok(all) => {
                    &&& all.len() > 0
                    &&& forall|i: int|
                        0 <= i < all.len() ==> slot_data(
                            c,
                            format,
                            (#[trigger] all[i]).metadata_slot,
                        ) == Ok::<SuperView, Error>(all[i])
                    &&& forall|i: int, j: int|
                        0 <= i < j < all.len() ==> (#[trigger] all[i]).metadata_slot < (
                        #[trigger] all[j]).metadata_slot
                    &&& forall|s: u64|
                        (#[trigger] slot_data(c, format, s)) is Ok ==> all.contains(
                            slot_data(c, format, s)->Ok_0,
                        )
                },
                Err(_) => geometry_of(c) is Err || forall|s: u64|
                    (#[trigger] slot_data(c, format, s)) is Err,
            },
        },
{
    law_all_slots(c, format);
}

/// What is loaded knows where it came from: the format and the size of the image, and
/// its slot.
pub proof fn law_loaded_from(c: Seq<u8>, format: Seq<char>, slot: u64)
    requires
        c.len() <= u64::MAX,
    ensures
        slot_data(c, format, slot) matches Ok(d) ==> {
            &&& d.image_format == format
            &&& d.image_size == c.len()
            &&& d.metadata_slot == slot
            &&& slot < d.geometry.metadata_slot_count
            &&& geometry_of(c) == Ok::<(Geometry, u64), Error>((d.geometry, d.geometry_offset))
            &&& d.metadata_offset == copy_offset(
                slot as int,
                d.geometry.metadata_max_size as int,
            ) || d.metadata_offset == copy_offset(
                d.geometry.metadata_slot_count + slot,
                d.geometry.metadata_max_size as int,
            )
        },
{
}

/// Only an image that is no sparse container counts as raw.
pub proof fn law_container(f: Seq<u8>)
    ensures
        container(f) == "raw"@ <==> !is_sparse(f),
        !is_sparse(f) && f.len() >= 4 ==> decoded(f) == Ok::<Seq<u8>, Error>(f),
{
    reveal_strlit("raw");
    reveal_strlit("android-sparse");
    assert("raw"@.len() == 3 && "android-sparse"@.len() == 14);
}

/// A renaming goes to the only slot with the group, or the only one in which the name
/// stands for a partition.
pub proof fn law_rename_owner(
    datas: Seq<SuperView>,
    args: RenameArgs,
    filter: Option<Seq<char>>,
)
    ensures
        rename_owner(datas, args, filter) matches Ok(s) ==> {
            &&& 0 <= s < datas.len()
            &&& !args.group ==> stands_for_one(datas[s], args.old_name@, filter) && forall|m: int|
                0 <= m < datas.len() && m != s ==> !stands_for_one(
                    #[trigger] datas[m],
                    args.old_name@,
                    filter,
                )
            &&& args.group ==> (exists|j: int|
                0 <= j < datas[s].tables.groups.len()
                    && (#[trigger] datas[s].tables.groups[j]).name == args.old_name@) && forall|
                m: int,
                j: int,
            |
                0 <= m < datas.len() && m != s && 0 <= j < datas[m].tables.groups.len()
                    ==> (#[trigger] datas[m].tables.groups[j]).name != args.old_name@
        },
{
    law_owner(datas, args.old_name@, filter);
    law_group_owner(datas, args.old_name@, Error::NotFound(Fault::Group));
}

/// A device of the report is at the primary file, at the path that it is bound to, or
/// told not to be bound.
pub proof fn law_binding_target(
    bindings: Seq<(u32, Seq<char>)>,
    index: int,
    primary: Seq<char>,
)
    requires
        0 <= index <= u32::MAX,
    ensures
        index == 0 ==> binding_target(bindings, index, primary) == primary,
        index > 0 ==> (exists|m: int|
            0 <= m < bindings.len() && #[trigger] bindings[m] == (
                index as u32,
                binding_target(bindings, index, primary),
            )) || (binding_target(bindings, index, primary) == "(not bound)"@ && forall|m: int|
            0 <= m < bindings.len() ==> (#[trigger] bindings[m]).0 != index),
{
    law_bound_path(bindings, index as u32, 0);
}

/// A record that was made for a window is found again by that window and no other.
pub proof fn law_record_found(offset: u64, size: u64, flags: u32, other: u64, length: u64)
    ensures
        record_matches(loop_record(offset, size, flags), other, length) <==> offset == other
            && size == length,
{
    law_loop_record(offset, size, flags);
}

/// A device is known by the path of its file, whatever white space the system puts around
/// it and though the file was deleted since; by no other path of a file that is there.
pub proof fn law_backed_by(content: Seq<char>, path: Seq<char>, other: Seq<char>)
    requires
        path.len() > 0 && !is_white(path[0]) && !is_white(path.last()),
    ensures
        is_backed_by(path, path),
        is_backed_by(path + seq![' ', '(', 'd', 'e', 'l', 'e', 't', 'e', 'd', ')'], path),
        is_backed_by(path.push('\n'), path),
        is_backed_by(content, path) && is_backed_by(content, other) ==> path == other || path
            == other + seq![' ', '(', 'd', 'e', 'l', 'e', 't', 'e', 'd', ')'] || other == path
            + seq![' ', '(', 'd', 'e', 'l', 'e', 't', 'e', 'd', ')'],
{
    let mark = seq![' ', '(', 'd', 'e', 'l', 'e', 't', 'e', 'd', ')'];
    reveal_strlit(" (deleted)");
    assert(" (deleted)"@ =~= mark);
    law_trimmed_stays(path);
    let gone = path + mark;
    assert(gone[0] == path[0] && gone.last() == ')');
    law_trimmed_stays(gone);
    let line = path.push('\n');
    assert(line[0] == path[0]);
    assert(trim_front(line) == line);
    assert(line.drop_last() =~= path);
    assert(trim_back(line) == trim_back(path));
    if is_backed_by(content, path) && is_backed_by(content, other) && trimmed(content) == path
        + mark && trimmed(content) == other + mark {
        assert(path =~= (path + mark).take(path.len() as int));
        assert(other =~= (other + mark).take(other.len() as int));
    }
}

/// The loop device that is used is there and not busy, unless none such is known; then it
/// is the one that was offered.
pub proof fn law_loop_choice(offered: u32, nodes: Seq<LoopNode>)
    requires
        nodes.len() <= u32::MAX,
    ensures
        ({
            let n = loop_choice(offered, nodes);
            if exists|j: int|
                0 <= j < nodes.len() && (#[trigger] nodes[j]).exists_here && !nodes[j].busy {
                n < nodes.len() && nodes[n as int].exists_here && !nodes[n as int].busy
            } else {
                n == offered
            }
        }),
{
    law_first_idle(nodes, 0);
}

/// The names that are listed for an ambiguous name are the full names of the partitions
/// that stand under it, all of them, in table order.
pub proof fn law_listed_names(parts: Seq<PartitionView>, name: Seq<char>, filter: Option<Seq<char>>)
    ensures
        ({
            let found = answering(parts, name, filter, 0);
            let names = names_of(parts, found);
            &&& names.len() == found.len()
            &&& forall|k: int|
                0 <= k < names.len() ==> 0 <= #[trigger] found[k] < parts.len() && names[k]
                    == parts[found[k]].name && stands_under(names[k], name, filter)
            &&& forall|a: int, b: int|
                0 <= a < b < found.len() ==> #[trigger] found[a] < #[trigger] found[b]
            &&& forall|i: int|
                0 <= i < parts.len() && stands_under((#[trigger] parts[i]).name, name, filter)
                    ==> names.contains(parts[i].name)
        }),
{
    lemma_in_answering(parts, name, filter, 0);
    let found = answering(parts, name, filter, 0);
    let names = names_of(parts, found);
    assert forall|k: int| 0 <= k < names.len() implies 0 <= #[trigger] found[k] < parts.len()
        && names[k] == parts[found[k]].name && stands_under(names[k], name, filter) by {
        assert(found.contains(found[k]));
    }
    assert forall|i: int|
        0 <= i < parts.len() && stands_under(
            (#[trigger] parts[i]).name,
            name,
            filter,
        ) implies names.contains(parts[i].name) by {
        assert(found.contains(i));
        let k = found.index_of(i);
        assert(names[k] == parts[i].name);
    }
}

/// The names that are listed across slots are the full names of the partitions that stand
/// under the name, in every slot without a partition of that very name.
pub proof fn law_listed_across(datas: Seq<SuperView>, name: Seq<char>, filter: Option<Seq<char>>)
    ensures
        ({
            let found = bases_across(datas, name, filter, 0);
            let names = names_across(datas, found);
            &&& names.len() == found.len()
            &&& forall|k: int|
                0 <= k < names.len() ==> stands_in(
                    datas,
                    name,
                    filter,
                    (#[trigger] found[k]).0,
                    found[k].1,
                ) && names[k] == datas[found[k].0].tables.partitions[found[k].1].name
            &&& forall|s: int, i: int|
                #[trigger] stands_in(datas, name, filter, s, i) ==> names.contains(
                    datas[s].tables.partitions[i].name,
                )
        }),
{
    lemma_bases(datas, name, filter, 0);
    let found = bases_across(datas, name, filter, 0);
    let names = names_across(datas, found);
    assert forall|k: int| 0 <= k < names.len() implies stands_in(
        datas,
        name,
        filter,
        (#[trigger] found[k]).0,
        found[k].1,
    ) && names[k] == datas[found[k].0].tables.partitions[found[k].1].name by {
        assert(found.contains((found[k].0, found[k].1)));
    }
    assert forall|s: int, i: int| #[trigger] stands_in(
        datas,
        name,
        filter,
        s,
        i,
    ) implies names.contains(datas[s].tables.partitions[i].name) by {
        assert(found.contains((s, i)));
        let k = found.index_of((s, i));
        assert(names[k] == datas[s].tables.partitions[i].name);
    }
}

/// Everything that is to be extracted is: each partition has its job, in order, where all
/// chains lie in their tables; else the jobs stop before the first whose chain does not.
pub proof fn law_extraction<D: ExtentSource>(
    src: &D,
    plan: ExtractPlan,
    datas: Seq<SuperView>,
    todo: Seq<(int, int)>,
    k: int,
)
    requires
        jobs_for(plan, datas, todo),
        forall|j: int|
            0 <= j < todo.len() ==> 0 <= (#[trigger] todo[j]).0 < datas.len() && 0 <= todo[j].1
                < datas[todo[j].0].tables.partitions.len(),
    ensures
        plan.jobs@.len() <= todo.len(),
        (forall|j: int|
            0 <= j < todo.len() ==> {
                let t = datas[(#[trigger] todo[j]).0].tables;
                let p = t.partitions[todo[j].1];
                p.first_extent_index + p.num_extents <= t.extents.len()
            }) ==> plan.error is None && plan.jobs@.len() == todo.len(),
        plan.error is None <==> plan.jobs@.len() == todo.len(),
        plan.error is Some ==> {
            let t = datas[todo[plan.jobs@.len() as int].0].tables;
            let p = t.partitions[todo[plan.jobs@.len() as int].1];
            p.first_extent_index + p.num_extents > t.extents.len()
        },
        0 <= k < plan.jobs@.len() ==> {
            let t = datas[todo[k].0].tables;
            let p = t.partitions[todo[k].1];
            &&& plan.jobs@[k].name@ == p.name
            &&& chain_data(src, plan.jobs@[k].extents@) == chain_data(
                src,
                extents_of_partition(t.extents, p),
            )
        },
{
    let n = plan.jobs@.len() as int;
    if plan.error is Some {
        assert(chain_broken(datas[todo[n].0], todo[n].1));
        let p = todo[n];
    }
    if 0 <= k < n {
        assert(job_for(plan.jobs@[k], datas[todo[k].0], todo[k].1));
        let p = todo[k];
        law_job_extracts(src, plan.jobs@[k], datas[todo[k].0], todo[k].1);
    }
}

/// A partition is added to the slot of its name's tail, where that loads; one without a
/// tail to the first slot that is valid.
pub proof fn law_add_source(f: Seq<u8>, name: Seq<char>)
    ensures
        match decoded(f) {
            Err(e) => add_source(f, name) == Err::<SuperView, Error>(e),
            Ok(c) => {
                let own: u64 = if name.last() == 'a' {
                    0
                } else {
                    1
                };
                &&& has_tail(name) && slot_data(c, container(f), own) is Ok ==> add_source(f, name)
                    == slot_data(c, container(f), own)
                &&& has_tail(name) && slot_data(c, container(f), own) is Err ==> add_source(f, name)
                    == first_data(c, container(f))
                &&& !has_tail(name) ==> add_source(f, name) == first_data(c, container(f))
            },
        },
{
    law_hinted_slot(name, None);
    if let Ok(c) = decoded(f) {
        law_data_for_write(c, container(f), name, None, None);
    }
}

/// A partition is created in the slot that was selected, or in the only one that loads;
/// where several load, one has to be selected.
pub proof fn law_create_source(f: Seq<u8>, slot: Seq<char>)
    requires
        slot_selector(slot) is Ok,
        decoded(f) is Ok,
    ensures
        ({
            let c = decoded(f)->Ok_0;
            let source = create_source(f, slot);
            match slot_selector(slot)->Ok_0 {
                Some(n) => source == slot_data(c, container(f), n),
                None => match source {
                    Ok(d) => slot_data(c, container(f), d.metadata_slot) == Ok::<SuperView, Error>(
                        d,
                    ) && forall|s: u64|
                        (#[trigger] slot_data(c, container(f), s)) is Ok ==> s == d.metadata_slot,
                    Err(e) => {
                        ||| geometry_of(c) is Err
                        ||| forall|s: u64| (#[trigger] slot_data(c, container(f), s)) is Err
                        ||| e == Error::Invalid(Fault::SlotAmbiguous) && exists|s: u64, u: u64|
                            s < u && (#[trigger] slot_data(c, container(f), s)) is Ok && (
                            #[trigger] slot_data(c, container(f), u)) is Ok
                    },
                },
            }
        }),
{
    let c = decoded(f)->Ok_0;
    let format = container(f);
    law_selected(c, format, slot_selector(slot)->Ok_0);
    if slot_selector(slot)->Ok_0 is None {
        if let Ok(all) = selected_data(c, format, None) {
            if all.len() == 1 {
                assert forall|s: u64| (#[trigger] slot_data(c, format, s)) is Ok implies s
                    == all[0].metadata_slot by {
                    let d = slot_data(c, format, s)->Ok_0;
                    assert(all.contains(d));
                    let k = all.index_of(d);
                    assert(d.metadata_slot == s);
                }
                let d = all[0];
                assert(slot_data(c, format, d.metadata_slot) is Ok);
            } else {
                let a = all[0];
                let b = all[1];
                assert(slot_data(c, format, a.metadata_slot) is Ok);
                assert(slot_data(c, format, b.metadata_slot) is Ok);
            }
        }
    }
}

} // verus!
