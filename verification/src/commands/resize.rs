//! Resizing a partition: growth in place or by a new extent, shrinking from the
//! end of the chain.

use crate::commands::edit::{
    chains_apart, drain, lemma_total_append, move_down, move_up, moved_down, moved_up, set_chain,
    windows_apart, with_count, with_first, without,
};
use crate::commands::arguments::{parse_size, size_value, suffix_selector};
use crate::commands::commit::{
    commit, commits, committed, group_total, group_used, in_sectors, lemma_loaded, over_limit,
    placeable, sectors_for, within_caps, without_room,
};
use crate::commands::place::{bound_devices, find_bound};
use crate::commands::split_util::{load_selected, resolve_named, write_source};
use crate::error::{lists_names, plain, with_names, Error, Fault, NameError};
use crate::format::{BlockDeviceView, Extent, PartitionView, TablesView, LP_TARGET_TYPE_LINEAR};
use crate::reader::data::{
    answering, capped, extents_of_partition, is_ambiguous, lemma_sector_total, names_of,
    option_view, resolved, sector_total, SuperData, SuperView,
};
use crate::reader::load::{faithful, settled};
use crate::reader::source::{decoded, BlockSource};
use crate::text::{str_eq, texts};
use crate::writer::allocation::{extent_end, first_free, free_at, limit_of, on_device};
use crate::writer::spanning::{
    any_free, capped_end, contains_index, disjoint, extent_of, law_any_free, law_disjoint_kept,
    lemma_found, range_taken,
};
use crate::writer::render::SlotWrite;
use crate::writer::LpWriter;
use vstd::prelude::*;

verus! {

/// The front of a chain that has `n` sectors: the last extent kept is cut short
/// where it is too long.
pub open spec fn kept(chain: Seq<Extent>, n: int) -> Seq<Extent>
    decreases chain.len(),
{
    if n <= 0 || chain.len() == 0 {
        Seq::empty()
    } else if chain[0].num_sectors <= n {
        seq![chain[0]] + kept(chain.skip(1), n - chain[0].num_sectors)
    } else {
        seq![Extent { num_sectors: n as u64, ..chain[0] }]
    }
}

/// Whether the sectors behind an extent are free on its device.
pub open spec fn tail_free(
    extents: Seq<Extent>,
    devices: Seq<BlockDeviceView>,
    e: Extent,
    extra: int,
) -> bool {
    &&& e.target_source < devices.len()
    &&& extent_end(e) + extra <= u64::MAX
    &&& limit_of(devices[e.target_source as int]) > 0 ==> extent_end(e) + extra <= limit_of(
        devices[e.target_source as int],
    )
    &&& !range_taken(extents, e.target_source, extent_end(e), extent_end(e) + extra)
}

/// Where one more extent of a chain goes: on the device of its last extent, where
/// that is bound and has room, else on any bound device.
pub open spec fn further_place(
    extents: Seq<Extent>,
    devices: Seq<BlockDeviceView>,
    source: u32,
    extra: u64,
    bound: Seq<u32>,
) -> Result<(u32, u64), Error> {
    let here = first_free(extents, devices, source, extra);
    if source >= devices.len() {
        Err(Error::Invalid(Fault::BlockDevice))
    } else if bound.contains(source) && here is Ok {
        Ok((source, here->Ok_0))
    } else {
        any_free(extents, devices, extra, bound)
    }
}

/// The tables after a partition grew to `n` sectors. New extents go to bound
/// devices.
pub open spec fn grown(t: TablesView, i: int, n: u64, bound: Seq<u32>) -> Result<TablesView, Error> {
    let p = t.partitions[i];
    let first = p.first_extent_index as int;
    let num = p.num_extents as int;
    let extra = (n - capped(sector_total(extents_of_partition(t.extents, p)))) as u64;
    let last = t.extents[first + num - 1];
    if num == 0 {
        match any_free(t.extents, t.block_devices, n, bound) {
            Err(e) => Err(e),
            Ok((source, sector)) => Ok(
                TablesView {
                    partitions: t.partitions.update(
                        i,
                        with_count(with_first(p, t.extents.len() as int), 1),
                    ),
                    extents: t.extents.push(extent_of((source, sector, n))),
                    ..t
                },
            ),
        }
    } else if first + num > t.extents.len() {
        Err(Error::Invalid(Fault::ExtentIndex))
    } else if last.target_type != LP_TARGET_TYPE_LINEAR {
        Err(Error::Invalid(Fault::LastExtent))
    } else if extent_end(last) > u64::MAX {
        Err(Error::Invalid(Fault::ExtentEnd))
    } else if tail_free(t.extents, t.block_devices, last, extra as int) {
        Ok(
            TablesView {
                extents: t.extents.update(
                    first + num - 1,
                    Extent { num_sectors: (last.num_sectors + extra) as u64, ..last },
                ),
                ..t
            },
        )
    } else {
        match further_place(t.extents, t.block_devices, last.target_source, extra, bound) {
            Err(e) => Err(e),
            Ok((source, sector)) => Ok(
                TablesView {
                    partitions: moved_up(
                        t.partitions.update(
                            i,
                            with_count(
                                p,
                                if num < u32::MAX {
                                    num + 1
                                } else {
                                    num
                                },
                            ),
                        ),
                        i,
                        first + num,
                    ),
                    extents: t.extents.insert(
                        first + num,
                        extent_of((source, sector, extra)),
                    ),
                    ..t
                },
            ),
        }
    }
}

/// The tables after a partition shrank to `n` sectors.
pub open spec fn shrunk(t: TablesView, i: int, n: u64) -> Result<TablesView, Error> {
    let p = t.partitions[i];
    let first = p.first_extent_index as int;
    let num = p.num_extents as int;
    let chain = kept(extents_of_partition(t.extents, p), n as int);
    if n == 0 {
        if first + num > t.extents.len() {
            Err(Error::Invalid(Fault::ExtentIndex))
        } else {
            Ok(
                TablesView {
                    partitions: moved_down(
                        t.partitions.update(i, with_count(p, 0)),
                        i,
                        first,
                        num,
                    ),
                    extents: without(t.extents, first, first + num),
                    ..t
                },
            )
        }
    } else if first + num > t.extents.len() {
        Err(Error::Invalid(Fault::ExtentIndex))
    } else {
        Ok(
            TablesView {
                partitions: moved_down(
                    t.partitions.update(i, with_count(p, chain.len() as int)),
                    i,
                    first + num - 1,
                    num - chain.len(),
                ),
                extents: t.extents.take(first) + chain + t.extents.skip(first + num),
                ..t
            },
        )
    }
}

/// The tables after a partition was given `n` sectors.
pub open spec fn resized(t: TablesView, i: int, n: u64, bound: Seq<u32>) -> Result<TablesView, Error> {
    let current = capped(sector_total(extents_of_partition(t.extents, t.partitions[i])));
    if n > current {
        grown(t, i, n, bound)
    } else {
        shrunk(t, i, n)
    }
}

/// How a partition was resized.
#[derive(Debug, Clone, Copy, PartialEq, Eq, Structural)]
pub enum ResizeStep {
    /// A first extent was allocated.
    Allocated { device: u32, sector: u64, sectors: u64 },
    /// The last extent grew in place.
    Expanded { sectors: u64 },
    /// One more extent was put behind the chain.
    Spliced { device: u32, sector: u64, sectors: u64 },
    /// The chain was cut off.
    Cut,
    /// All extents were removed.
    Emptied,
}

/// How a partition grows to `n` sectors, where it can.
pub open spec fn growth_step(t: TablesView, i: int, n: u64, bound: Seq<u32>) -> ResizeStep {
    let p = t.partitions[i];
    let extra = (n - capped(sector_total(extents_of_partition(t.extents, p)))) as u64;
    let last = t.extents[p.first_extent_index + p.num_extents - 1];
    if p.num_extents == 0 {
        let (device, sector) = any_free(t.extents, t.block_devices, n, bound)->Ok_0;
        ResizeStep::Allocated { device, sector, sectors: n }
    } else if tail_free(t.extents, t.block_devices, last, extra as int) {
        ResizeStep::Expanded { sectors: extra }
    } else {
        let (device, sector) = further_place(
            t.extents,
            t.block_devices,
            last.target_source,
            extra,
            bound,
        )->Ok_0;
        ResizeStep::Spliced { device, sector, sectors: extra }
    }
}

/// How a partition is given `n` sectors.
pub open spec fn step_for(t: TablesView, i: int, n: u64, bound: Seq<u32>) -> ResizeStep {
    let current = capped(sector_total(extents_of_partition(t.extents, t.partitions[i])));
    if n > current {
        growth_step(t, i, n, bound)
    } else if n == 0 {
        ResizeStep::Emptied
    } else {
        ResizeStep::Cut
    }
}

/// What is kept of a chain whose first `j` extents are kept whole.
proof fn lemma_kept_prefix(chain: Seq<Extent>, n: int, j: int)
    requires
        0 <= j <= chain.len(),
        sector_total(chain.take(j)) <= n,
        j > 0 ==> sector_total(chain.take(j - 1)) < n,
    ensures
        kept(chain, n) == chain.take(j) + kept(chain.skip(j), n - sector_total(chain.take(j))),
    decreases j,
{
    if j == 0 {
        assert(chain.take(0) =~= Seq::<Extent>::empty());
        assert(chain.skip(0) =~= chain);
        assert(chain.take(0) + kept(chain, n) =~= kept(chain, n));
    } else {
        let a = chain.take(j - 1);
        assert(chain.take(j).drop_last() =~= a);
        lemma_total_bounds(chain, j - 1, n);
        lemma_kept_prefix(chain, n, j - 1);
        let rest = chain.skip(j - 1);
        let left = n - sector_total(a);
        assert(rest[0] == chain[j - 1]);
        assert(rest.skip(1) =~= chain.skip(j));
        assert(a + (seq![rest[0]] + kept(chain.skip(j), left - rest[0].num_sectors))
            =~= chain.take(j) + kept(chain.skip(j), left - rest[0].num_sectors));
    }
}

/// Shorter fronts of a chain have no more sectors.
proof fn lemma_total_bounds(chain: Seq<Extent>, j: int, n: int)
    requires
        0 <= j < chain.len(),
        sector_total(chain.take(j)) < n,
    ensures
        j > 0 ==> sector_total(chain.take(j - 1)) < n,
{
    if j > 0 {
        assert(chain.take(j).drop_last() =~= chain.take(j - 1));
    }
}

/// Keeps the front of a chain that has `n` sectors, and tells how many extents
/// that are.
fn cut_chain(extents: &mut Vec<Extent>, first: usize, num: usize, n: u64) -> (count: usize)
    requires
        first + num <= old(extents)@.len(),
        n > 0,
    ensures
        count <= num,
        final(extents)@ == old(extents)@.take(first as int) + kept(
            old(extents)@.subrange(first as int, first + num),
            n as int,
        ) + old(extents)@.skip(first + num),
        count == kept(old(extents)@.subrange(first as int, first + num), n as int).len(),
{
    let ghost all = extents@;
    let ghost chain = all.subrange(first as int, first + num);
    let ghost want = kept(chain, n as int);
    let total = extents.len();
    let mut keep: u64 = n;
    let mut j: usize = 0;
    while j < num && keep > 0 && extents[first + j].num_sectors <= keep
        invariant
            first + num <= extents@.len() == total,
            extents@ == all,
            chain == all.subrange(first as int, first + num),
            want == kept(chain, n as int),
            j <= num,
            keep == n - sector_total(chain.take(j as int)),
            j > 0 ==> sector_total(chain.take(j - 1)) < n,
        decreases num - j,
    {
        proof {
            assert(chain.take(j + 1).drop_last() =~= chain.take(j as int));
            assert(chain[j as int] == all[first + j]);
        }
        keep = keep - extents[first + j].num_sectors;
        j += 1;
    }
    proof {
        lemma_kept_prefix(chain, n as int, j as int);
    }
    let mut count: usize = j;
    if j < num && keep > 0 {
        let mut e = extents[first + j];
        e.num_sectors = keep;
        extents[first + j] = e;
        count = j + 1;
        proof {
            assert(chain.skip(j as int)[0] == all[first + j]);
            assert(want =~= chain.take(j as int).push(e));
        }
    } else {
        proof {
            assert(chain.take(j as int) + Seq::<Extent>::empty() =~= chain.take(j as int));
            assert(want =~= chain.take(j as int));
        }
    }
    let ghost middle = extents@;
    drain(extents, first + count, first + num);
    proof {
        assert(middle.take(first + count) =~= all.take(first as int) + want);
        assert(middle.skip(first + num) =~= all.skip(first + num));
    }
    count
}

/// Gives a partition `n` sectors; new extents go to bound devices.
pub fn resize_extents(data: &mut SuperData, i: usize, n: u64, bound: &Vec<u32>) -> (r: Result<
    ResizeStep,
    Error,
>)
    requires
        i < old(data).partitions@.len(),
        old(data).devices@.len() <= u32::MAX,
        old(data).extents@.len() < u32::MAX,
    ensures
        match r {
            Ok(step) => {
                &&& step == step_for(old(data)@.tables, i as int, n, bound@)
                &&& resized(old(data)@.tables, i as int, n, bound@) == Ok::<TablesView, Error>(
                    final(data)@.tables,
                )
                &&& final(data)@ == (SuperView {
                    tables: final(data)@.tables,
                    ..old(data)@
                })
            },
            Err(e) => resized(old(data)@.tables, i as int, n, bound@) == Err::<TablesView, Error>(e)
                && *final(data) == *old(data),
        },
{
    let ghost t = data@.tables;
    let ghost p = t.partitions[i as int];
    assert(p == data.partitions@[i as int]@);
    let current = data.partition_sectors(&data.partitions[i]);
    let first = data.partitions[i].first_extent_index as usize;
    let num = data.partitions[i].num_extents as usize;
    let total = data.extents.len();
    if n > current {
        if num == 0 {
            grow_fresh(data, i, n, bound)
        } else if num > total || first > total - num {
            Err(Error::Invalid(Fault::ExtentIndex))
        } else {
            grow_chain(data, i, first, num, n - current, bound)
        }
    } else if num > total || first > total - num {
        Err(Error::Invalid(Fault::ExtentIndex))
    } else if n == 0 {
        drain(&mut data.extents, first, first + num);
        set_chain(&mut data.partitions, i, first as u32, 0);
        move_down(&mut data.partitions, Some(i), first, num as u32);
        proof {
            assert(with_first(p, first as int) == p);
        }
        Ok(ResizeStep::Emptied)
    } else {
        proof {
            if num == 0 {
                assert(extents_of_partition(t.extents, p) =~= Seq::<Extent>::empty());
            }
        }
        let count = cut_chain(&mut data.extents, first, num, n);
        set_chain(&mut data.partitions, i, first as u32, count as u32);
        move_down(&mut data.partitions, Some(i), first + num - 1, (num - count) as u32);
        proof {
            assert(with_first(p, first as int) == p);
        }
        Ok(ResizeStep::Cut)
    }
}

/// Gives a partition without extents its first one.
fn grow_fresh(data: &mut SuperData, i: usize, n: u64, bound: &Vec<u32>) -> (r: Result<
    ResizeStep,
    Error,
>)
    requires
        i < old(data).partitions@.len(),
        old(data).devices@.len() <= u32::MAX,
        old(data).extents@.len() < u32::MAX,
        old(data).partitions@[i as int].num_extents == 0,
    ensures
        match r {
            Ok(step) => {
                &&& step == growth_step(old(data)@.tables, i as int, n, bound@)
                &&& grown(old(data)@.tables, i as int, n, bound@) == Ok::<TablesView, Error>(
                    final(data)@.tables,
                )
                &&& final(data)@ == (SuperView {
                    tables: final(data)@.tables,
                    ..old(data)@
                })
            },
            Err(e) => grown(old(data)@.tables, i as int, n, bound@) == Err::<TablesView, Error>(e)
                && *final(data) == *old(data),
        },
{
    let writer = LpWriter::new();
    let (device, sector) = writer.find_free_sectors_any_in(
        data.extents.as_slice(),
        data.devices.as_slice(),
        n,
        bound.as_slice(),
    )?;
    let at = data.extents.len() as u32;
    data.extents.push(
        Extent {
            num_sectors: n,
            target_type: LP_TARGET_TYPE_LINEAR,
            target_data: sector,
            target_source: device,
        },
    );
    set_chain(&mut data.partitions, i, at, 1);
    Ok(ResizeStep::Allocated { device, sector, sectors: n })
}

/// Finds the place of one more extent of a chain.
fn find_further_place(data: &SuperData, source: u32, extra: u64, bound: &Vec<u32>) -> (r: Result<
    (u32, u64),
    Error,
>)
    requires
        data.devices@.len() <= u32::MAX,
    ensures
        r == further_place(
            data.extents@,
            data@.tables.block_devices,
            source,
            extra,
            bound@,
        ),
{
    let writer = LpWriter::new();
    let extents = data.extents.as_slice();
    let devices = data.devices.as_slice();
    if source as usize >= devices.len() {
        return Err(Error::Invalid(Fault::BlockDevice));
    }
    if contains_index(bound.as_slice(), source) {
        if let Ok(sector) = writer.find_free_sectors(extents, devices, source, extra) {
            return Ok((source, sector));
        }
    }
    writer.find_free_sectors_any_in(extents, devices, extra, bound.as_slice())
}

/// Gives a partition `extra` more sectors, behind its last extent or in a new one.
fn grow_chain(
    data: &mut SuperData,
    i: usize,
    first: usize,
    num: usize,
    extra: u64,
    bound: &Vec<u32>,
) -> (r: Result<ResizeStep, Error>)
    requires
        i < old(data).partitions@.len(),
        old(data).devices@.len() <= u32::MAX,
        old(data).extents@.len() < u32::MAX,
        first == old(data).partitions@[i as int].first_extent_index,
        num == old(data).partitions@[i as int].num_extents,
        num > 0,
        first + num <= old(data).extents@.len(),
        extra > 0,
        capped(
            sector_total(
                extents_of_partition(old(data).extents@, old(data).partitions@[i as int]@),
            ),
        ) + extra <= u64::MAX,
    ensures
        ({
            let n = (capped(
                sector_total(
                    extents_of_partition(old(data).extents@, old(data).partitions@[i as int]@),
                ),
            ) + extra) as u64;
            match r {
                Ok(step) => {
                    &&& step == growth_step(old(data)@.tables, i as int, n, bound@)
                    &&& grown(old(data)@.tables, i as int, n, bound@) == Ok::<TablesView, Error>(
                        final(data)@.tables,
                    )
                    &&& final(data)@ == (SuperView {
                        tables: final(data)@.tables,
                        ..old(data)@
                    })
                },
                Err(e) => grown(old(data)@.tables, i as int, n, bound@) == Err::<TablesView, Error>(e)
                    && *final(data) == *old(data),
            }
        }),
{
    let ghost t = data@.tables;
    let ghost p = t.partitions[i as int];
    assert(p == data.partitions@[i as int]@);
    let writer = LpWriter::new();
    let last_idx = first + num - 1;
    let last = data.extents[last_idx];
    if last.target_type != LP_TARGET_TYPE_LINEAR {
        return Err(Error::Invalid(Fault::LastExtent));
    }
    let end = match last.target_data.checked_add(last.num_sectors) {
        Some(v) => v,
        None => {
            return Err(Error::Invalid(Fault::ExtentEnd));
        },
    };
    let free = match writer.is_range_free(
        data.extents.as_slice(),
        data.devices.as_slice(),
        last.target_source,
        end,
        extra,
    ) {
        Ok(b) => b,
        Err(_) => false,
    };
    assert(free == tail_free(t.extents, t.block_devices, last, extra as int));
    if free {
        let mut e = last;
        e.num_sectors = last.num_sectors + extra;
        data.extents[last_idx] = e;
        return Ok(ResizeStep::Expanded { sectors: extra });
    }
    let (device, sector) = find_further_place(data, last.target_source, extra, bound)?;
    let at = first + num;
    data.extents.insert(
        at,
        Extent {
            num_sectors: extra,
            target_type: LP_TARGET_TYPE_LINEAR,
            target_data: sector,
            target_source: device,
        },
    );
    let count = data.partitions[i].num_extents.saturating_add(1);
    set_chain(&mut data.partitions, i, first as u32, count);
    proof {
        assert(with_first(p, first as int) == p);
    }
    move_up(&mut data.partitions, i, at);
    Ok(ResizeStep::Spliced { device, sector, sectors: extra })
}

/// What is kept of a chain that is long enough has the sectors asked for.
proof fn lemma_kept_total(chain: Seq<Extent>, n: int)
    requires
        0 <= n <= sector_total(chain),
    ensures
        sector_total(kept(chain, n)) == n,
        kept(chain, n).len() <= chain.len(),
        forall|k: int|
            0 <= k < kept(chain, n).len() ==> {
                let e = #[trigger] kept(chain, n)[k];
                &&& e.target_type == chain[k].target_type
                &&& e.target_source == chain[k].target_source
                &&& e.target_data == chain[k].target_data
                &&& e.num_sectors <= chain[k].num_sectors
            },
    decreases chain.len(),
{
    if n > 0 && chain.len() > 0 {
        let a = seq![chain[0]];
        let rest = chain.skip(1);
        assert(chain =~= a + rest);
        lemma_total_append(a, rest);
        assert(a.drop_last() =~= Seq::<Extent>::empty());
        assert(sector_total(a.drop_last()) == 0);
        assert(sector_total(a) == chain[0].num_sectors);
        if chain[0].num_sectors <= n {
            let more = kept(rest, n - chain[0].num_sectors);
            lemma_kept_total(rest, n - chain[0].num_sectors);
            lemma_total_append(a, more);
            assert forall|k: int| 0 <= k < kept(chain, n).len() implies {
                let e = #[trigger] kept(chain, n)[k];
                &&& e.target_type == chain[k].target_type
                &&& e.target_source == chain[k].target_source
                &&& e.target_data == chain[k].target_data
                &&& e.num_sectors <= chain[k].num_sectors
            } by {
                if k > 0 {
                    assert(kept(chain, n)[k] == more[k - 1]);
                    assert(rest[k - 1] == chain[k]);
                }
            }
        } else {
            let cut = seq![Extent { num_sectors: n as u64, ..chain[0] }];
            lemma_sector_total(rest);
            assert(n < chain[0].num_sectors <= u64::MAX);
            assert(cut.drop_last() =~= Seq::<Extent>::empty());
            assert(sector_total(cut.drop_last()) == 0);
        }
    } else if chain.len() > 0 {
    }
}

/// What a resize owes: the partition has `n` sectors, the chain of every other
/// partition holds the same extents as before, and the chains lie apart.
pub open spec fn resized_well(t: TablesView, t2: TablesView, i: int, n: u64) -> bool {
    &&& t2.partitions.len() == t.partitions.len()
    &&& sector_total(extents_of_partition(t2.extents, t2.partitions[i])) == n
    &&& forall|j: int|
        0 <= j < t.partitions.len() && j != i ==> extents_of_partition(
            t2.extents,
            #[trigger] t2.partitions[j],
        ) == extents_of_partition(t.extents, t.partitions[j])
    &&& forall|j: int|
        0 <= j < t.partitions.len() ==> {
            &&& (#[trigger] t2.partitions[j]).name == t.partitions[j].name
            &&& t2.partitions[j].attributes == t.partitions[j].attributes
            &&& t2.partitions[j].group_index == t.partitions[j].group_index
        }
    &&& chains_apart(t2.partitions, t2.extents)
    &&& t2.groups == t.groups
    &&& t2.block_devices == t.block_devices
}

/// A partition that was given `n` sectors has them, and the chain of every other
/// partition holds the same extents as before.
pub proof fn law_resized(t: TablesView, i: int, n: u64, bound: Seq<u32>)
    requires
        0 <= i < t.partitions.len(),
        chains_apart(t.partitions, t.extents),
        t.extents.len() < u32::MAX,
        resized(t, i, n, bound) is Ok,
    ensures
        resized_well(t, resized(t, i, n, bound)->Ok_0, i, n),
{
    let p = t.partitions[i];
    let at = p.first_extent_index + p.num_extents - 1;
    let chain = extents_of_partition(t.extents, p);
    lemma_sector_total(chain);
    if n > capped(sector_total(chain)) {
        if p.num_extents == 0 {
            lemma_fresh(t, i, n, bound);
        } else if tail_free(
            t.extents,
            t.block_devices,
            t.extents[at],
            n - sector_total(chain),
        ) {
            lemma_expanded(t, i, n, bound);
        } else {
            lemma_spliced(t, i, n, bound);
        }
    } else {
        lemma_shrunk(t, i, n);
    }
}

proof fn lemma_group_after(t: TablesView, t2: TablesView, i: int, n: u64, k: int)
    requires
        0 <= i < t.partitions.len(),
        resized_well(t, t2, i, n),
        forall|j: int|
            0 <= j < t.partitions.len() && j != i ==> (#[trigger] t.partitions[j]).name
                != t.partitions[i].name,
        0 <= k <= t.partitions.len(),
    ensures
        ({
            let g = t.partitions[i].group_index;
            group_total(t2.partitions, t2.extents, g, None, k) == group_total(
                t.partitions,
                t.extents,
                g,
                Some(t.partitions[i].name),
                k,
            ) + if k > i {
                n as int
            } else {
                0
            }
        }),
    decreases k,
{
    if k > 0 {
        lemma_group_after(t, t2, i, n, k - 1);
        let p = t.partitions[k - 1];
        let q = t2.partitions[k - 1];
        assert(q.name == p.name && q.group_index == p.group_index);
    }
}

/// A resize that was not forced leaves the partition's group within its largest
/// size.
pub proof fn law_resize_within_group(
    t: TablesView,
    i: int,
    n: u64,
    bound: Seq<u32>,
)
    requires
        0 <= i < t.partitions.len(),
        chains_apart(t.partitions, t.extents),
        t.extents.len() < u32::MAX,
        forall|j: int|
            0 <= j < t.partitions.len() && j != i ==> (#[trigger] t.partitions[j]).name
                != t.partitions[i].name,
        t.partitions[i].group_index < t.groups.len(),
        !over_limit(
            t.groups[t.partitions[i].group_index as int].maximum_size,
            group_used(t, t.partitions[i].group_index, Some(t.partitions[i].name)),
            n as int,
        ),
        resized(t, i, n, bound) is Ok,
    ensures
        ({
            let g = t.partitions[i].group_index;
            let max = t.groups[g as int].maximum_size;
            max > 0 ==> group_used(resized(t, i, n, bound)->Ok_0, g, None) <= max as int / 512
        }),
{
    law_resized(t, i, n, bound);
    lemma_group_after(t, resized(t, i, n, bound)->Ok_0, i, n, t.partitions.len() as int);
}

proof fn lemma_fresh(t: TablesView, i: int, n: u64, bound: Seq<u32>)
    requires
        0 <= i < t.partitions.len(),
        chains_apart(t.partitions, t.extents),
        t.extents.len() < u32::MAX,
        t.partitions[i].num_extents == 0,
        grown(t, i, n, bound) is Ok,
    ensures
        resized_well(t, grown(t, i, n, bound)->Ok_0, i, n),
{
    let t2 = grown(t, i, n, bound)->Ok_0;
    let q = t2.partitions[i];
    let added = t2.extents.last();
    assert(extents_of_partition(t2.extents, q) =~= seq![added]);
    assert(seq![added].drop_last() =~= Seq::<Extent>::empty());
    assert(sector_total(seq![added].drop_last()) == 0);
    assert forall|j: int| 0 <= j < t.partitions.len() && j != i implies extents_of_partition(
        t2.extents,
        #[trigger] t2.partitions[j],
    ) == extents_of_partition(t.extents, t.partitions[j]) by {
        lemma_window_push(t.extents, added, t.partitions[j]);
    }
    assert(chains_apart(t2.partitions, t2.extents)) by {
        assert forall|j: int|
            0 <= j < t2.partitions.len() && (#[trigger] t2.partitions[j]).num_extents
                > 0 implies t2.partitions[j].first_extent_index + t2.partitions[j].num_extents
            <= t2.extents.len() by {
            lemma_pair_apart(t.partitions, t.extents, i, j);
        }
        assert forall|j: int, k: int|
            0 <= j < k < t2.partitions.len() && (#[trigger] t2.partitions[j]).num_extents > 0 && (
            #[trigger] t2.partitions[k]).num_extents > 0 implies windows_apart(
            t2.partitions[j],
            t2.partitions[k],
        ) by {
            lemma_pair_apart(t.partitions, t.extents, j, k);
        }
    }
}

proof fn lemma_expanded(t: TablesView, i: int, n: u64, bound: Seq<u32>)
    requires
        0 <= i < t.partitions.len(),
        chains_apart(t.partitions, t.extents),
        t.partitions[i].num_extents > 0,
        n > capped(sector_total(extents_of_partition(t.extents, t.partitions[i]))),
        tail_free(
            t.extents,
            t.block_devices,
            t.extents[t.partitions[i].first_extent_index + t.partitions[i].num_extents - 1],
            n - sector_total(extents_of_partition(t.extents, t.partitions[i])),
        ),
        grown(t, i, n, bound) is Ok,
    ensures
        resized_well(t, grown(t, i, n, bound)->Ok_0, i, n),
{
    let p = t.partitions[i];
    let at = p.first_extent_index + p.num_extents - 1;
    let chain = extents_of_partition(t.extents, p);
    let t2 = grown(t, i, n, bound)->Ok_0;
    let e = t2.extents[at];
    lemma_sector_total(chain);
    assert(extents_of_partition(t2.extents, p) =~= chain.drop_last().push(e));
    assert(chain.drop_last().push(e).drop_last() =~= chain.drop_last());
    assert(chain.last() == t.extents[at]);
    assert forall|j: int| 0 <= j < t.partitions.len() && j != i implies extents_of_partition(
        t2.extents,
        #[trigger] t2.partitions[j],
    ) == extents_of_partition(t.extents, t.partitions[j]) by {
        lemma_pair_apart(t.partitions, t.extents, i, j);
        assert(extents_of_partition(t2.extents, t2.partitions[j]) =~= extents_of_partition(
            t.extents,
            t.partitions[j],
        ));
    }
}

proof fn lemma_spliced(t: TablesView, i: int, n: u64, bound: Seq<u32>)
    requires
        0 <= i < t.partitions.len(),
        chains_apart(t.partitions, t.extents),
        t.extents.len() < u32::MAX,
        t.partitions[i].num_extents > 0,
        n > capped(sector_total(extents_of_partition(t.extents, t.partitions[i]))),
        !tail_free(
            t.extents,
            t.block_devices,
            t.extents[t.partitions[i].first_extent_index + t.partitions[i].num_extents - 1],
            n - sector_total(extents_of_partition(t.extents, t.partitions[i])),
        ),
        grown(t, i, n, bound) is Ok,
    ensures
        resized_well(t, grown(t, i, n, bound)->Ok_0, i, n),
{
    let p = t.partitions[i];
    let to = p.first_extent_index + p.num_extents;
    let chain = extents_of_partition(t.extents, p);
    let t2 = grown(t, i, n, bound)->Ok_0;
    let added = t2.extents[to];
    lemma_sector_total(chain);
    assert(extents_of_partition(t2.extents, t2.partitions[i]) =~= chain.push(added));
    assert(chain.push(added).drop_last() =~= chain);
    assert forall|j: int| 0 <= j < t.partitions.len() && j != i implies extents_of_partition(
        t2.extents,
        #[trigger] t2.partitions[j],
    ) == extents_of_partition(t.extents, t.partitions[j]) by {
        lemma_pair_apart(t.partitions, t.extents, i, j);
        assert(extents_of_partition(t2.extents, t2.partitions[j]) =~= extents_of_partition(
            t.extents,
            t.partitions[j],
        ));
    }
    assert(chains_apart(t2.partitions, t2.extents)) by {
        assert forall|j: int|
            0 <= j < t2.partitions.len() && (#[trigger] t2.partitions[j]).num_extents
                > 0 implies t2.partitions[j].first_extent_index + t2.partitions[j].num_extents
            <= t2.extents.len() by {
            lemma_pair_apart(t.partitions, t.extents, i, j);
        }
        assert forall|j: int, k: int|
            0 <= j < k < t2.partitions.len() && (#[trigger] t2.partitions[j]).num_extents > 0 && (
            #[trigger] t2.partitions[k]).num_extents > 0 implies windows_apart(
            t2.partitions[j],
            t2.partitions[k],
        ) by {
            lemma_pair_apart(t.partitions, t.extents, j, k);
            lemma_pair_apart(t.partitions, t.extents, i, j);
            lemma_pair_apart(t.partitions, t.extents, i, k);
        }
    }
}

proof fn lemma_shrunk(t: TablesView, i: int, n: u64)
    requires
        0 <= i < t.partitions.len(),
        chains_apart(t.partitions, t.extents),
        n <= sector_total(extents_of_partition(t.extents, t.partitions[i])),
        shrunk(t, i, n) is Ok,
    ensures
        resized_well(t, shrunk(t, i, n)->Ok_0, i, n),
{
    let p = t.partitions[i];
    let first = p.first_extent_index as int;
    let num = p.num_extents as int;
    let chain = extents_of_partition(t.extents, p);
    let t2 = shrunk(t, i, n)->Ok_0;
    let q = t2.partitions[i];
    let some = kept(chain, n as int);
    lemma_kept_total(chain, n as int);
    if n == 0 {
        assert(some =~= Seq::<Extent>::empty());
        assert(extents_of_partition(t2.extents, q) =~= Seq::<Extent>::empty());
        assert(t2.extents =~= t.extents.take(first) + some + t.extents.skip(first + num));
    } else {
        assert(extents_of_partition(t2.extents, q) =~= some);
    }
    assert forall|j: int| 0 <= j < t.partitions.len() && j != i implies extents_of_partition(
        t2.extents,
        #[trigger] t2.partitions[j],
    ) == extents_of_partition(t.extents, t.partitions[j]) by {
        lemma_pair_apart(t.partitions, t.extents, i, j);
        assert(extents_of_partition(t2.extents, t2.partitions[j]) =~= extents_of_partition(
            t.extents,
            t.partitions[j],
        ));
    }
    assert(chains_apart(t2.partitions, t2.extents)) by {
        assert forall|j: int|
            0 <= j < t2.partitions.len() && (#[trigger] t2.partitions[j]).num_extents
                > 0 implies t2.partitions[j].first_extent_index + t2.partitions[j].num_extents
            <= t2.extents.len() by {
            lemma_pair_apart(t.partitions, t.extents, i, j);
        }
        assert forall|j: int, k: int|
            0 <= j < k < t2.partitions.len() && (#[trigger] t2.partitions[j]).num_extents > 0 && (
            #[trigger] t2.partitions[k]).num_extents > 0 implies windows_apart(
            t2.partitions[j],
            t2.partitions[k],
        ) by {
            lemma_pair_apart(t.partitions, t.extents, j, k);
            lemma_pair_apart(t.partitions, t.extents, i, j);
            lemma_pair_apart(t.partitions, t.extents, i, k);
        }
    }
}

/// The chains of two partitions lie apart, in either order.
proof fn lemma_pair_apart(
    partitions: Seq<PartitionView>,
    extents: Seq<Extent>,
    j: int,
    k: int,
)
    requires
        chains_apart(partitions, extents),
        0 <= j < partitions.len(),
        0 <= k < partitions.len(),
    ensures
        partitions[j].num_extents > 0 ==> partitions[j].first_extent_index
            + partitions[j].num_extents <= extents.len(),
        partitions[k].num_extents > 0 ==> partitions[k].first_extent_index
            + partitions[k].num_extents <= extents.len(),
        j != k && partitions[j].num_extents > 0 && partitions[k].num_extents > 0
            ==> windows_apart(partitions[j], partitions[k]),
{
    if j < k {
        assert(partitions[j].num_extents > 0 && partitions[k].num_extents > 0 ==> windows_apart(
            partitions[j],
            partitions[k],
        ));
    } else if k < j {
        assert(partitions[k].num_extents > 0 && partitions[j].num_extents > 0 ==> windows_apart(
            partitions[k],
            partitions[j],
        ));
    }
}

/// A chain inside the table does not see what is put behind it.
pub proof fn lemma_window_push(extents: Seq<Extent>, added: Extent, p: PartitionView)
    requires
        p.num_extents > 0 ==> p.first_extent_index + p.num_extents <= extents.len(),
    ensures
        extents_of_partition(extents.push(added), p) == extents_of_partition(extents, p),
{
    assert(extents_of_partition(extents.push(added), p) =~= extents_of_partition(extents, p));
}

/// Whether an extent starts where another does and is no longer.
pub open spec fn within(e: Extent, whole: Extent) -> bool {
    &&& e.target_type == whole.target_type
    &&& e.target_source == whole.target_source
    &&& e.target_data == whole.target_data
    &&& e.num_sectors <= whole.num_sectors
}

/// Extents that lie within different ones of a table without overlaps do not
/// overlap.
pub proof fn lemma_within_disjoint(old_table: Seq<Extent>, table: Seq<Extent>, f: spec_fn(int) -> int)
    requires
        disjoint(old_table),
        forall|k: int|
            0 <= k < table.len() ==> 0 <= #[trigger] f(k) < old_table.len() && within(
                table[k],
                old_table[f(k)],
            ),
        forall|j: int, k: int|
            0 <= j < k < table.len() ==> #[trigger] f(j) != #[trigger] f(k),
    ensures
        disjoint(table),
{
    assert forall|j: int, k: int|
        0 <= j < k < table.len() && (#[trigger] table[j]).target_type == LP_TARGET_TYPE_LINEAR
            && on_device(#[trigger] table[k], table[j].target_source) && table[j].num_sectors > 0
            && table[k].num_sectors > 0 implies extent_end(table[j]) <= table[k].target_data
        || extent_end(table[k]) <= table[j].target_data by {
        let a = f(j);
        let b = f(k);
        assert(within(table[j], old_table[a]));
        assert(within(table[k], old_table[b]));
        if a < b {
            assert(on_device(old_table[b], old_table[a].target_source));
        } else {
            assert(on_device(old_table[a], old_table[b].target_source));
        }
    }
}

/// The place of one more extent is free and on a bound device.
proof fn lemma_further_place(
    extents: Seq<Extent>,
    devices: Seq<BlockDeviceView>,
    source: u32,
    extra: u64,
    bound: Seq<u32>,
)
    requires
        devices.len() <= u32::MAX,
        further_place(extents, devices, source, extra, bound) is Ok,
    ensures
        ({
            let (device, sector) = further_place(extents, devices, source, extra, bound)->Ok_0;
            &&& device < devices.len()
            &&& bound.contains(device)
            &&& free_at(
                extents,
                devices[device as int],
                device,
                sector as int,
                extra as int,
            )
        }),
{
    if bound.contains(source) && first_free(extents, devices, source, extra) is Ok {
        lemma_found(extents, devices, source, extra);
    } else {
        law_any_free(extents, devices, extra, bound);
    }
}

/// Growth lands on bound devices: an extent that a resize adds lies on one.
pub proof fn law_growth_is_bound(t: TablesView, i: int, n: u64, bound: Seq<u32>)
    requires
        0 <= i < t.partitions.len(),
        t.block_devices.len() <= u32::MAX,
        resized(t, i, n, bound) is Ok,
    ensures
        ({
            let t2 = resized(t, i, n, bound)->Ok_0;
            match step_for(t, i, n, bound) {
                ResizeStep::Allocated { device, sector, sectors } => bound.contains(device)
                    && t2.extents == t.extents.push(extent_of((device, sector, sectors))),
                ResizeStep::Spliced { device, sector, sectors } => bound.contains(device)
                    && t2.extents == t.extents.insert(
                    t.partitions[i].first_extent_index + t.partitions[i].num_extents,
                    extent_of((device, sector, sectors)),
                ),
                _ => t2.extents.len() <= t.extents.len(),
            }
        }),
{
    let p = t.partitions[i];
    let chain = extents_of_partition(t.extents, p);
    if n > capped(sector_total(chain)) {
        let extra = (n - capped(sector_total(chain))) as u64;
        let last = t.extents[p.first_extent_index + p.num_extents - 1];
        if p.num_extents == 0 {
            law_any_free(t.extents, t.block_devices, n, bound);
        } else if !tail_free(t.extents, t.block_devices, last, extra as int) {
            lemma_further_place(t.extents, t.block_devices, last.target_source, extra, bound);
        }
    } else {
        lemma_kept_shorter(chain, n as int);
    }
}

/// What is kept of a chain has no more extents.
proof fn lemma_kept_shorter(chain: Seq<Extent>, n: int)
    ensures
        kept(chain, n).len() <= chain.len(),
    decreases chain.len(),
{
    if n > 0 && chain.len() > 0 {
        lemma_kept_shorter(chain.skip(1), n - chain[0].num_sectors);
    }
}

/// Resizing a partition lets no two extents overlap: growth never takes the
/// blocks of another partition.
pub proof fn law_resize_keeps_apart(
    t: TablesView,
    i: int,
    n: u64,
    bound: Seq<u32>,
)
    requires
        0 <= i < t.partitions.len(),
        t.block_devices.len() <= u32::MAX,
        disjoint(t.extents),
        resized(t, i, n, bound) is Ok,
    ensures
        disjoint(resized(t, i, n, bound)->Ok_0.extents),
{
    let p = t.partitions[i];
    let first = p.first_extent_index as int;
    let num = p.num_extents as int;
    let chain = extents_of_partition(t.extents, p);
    let t2 = resized(t, i, n, bound)->Ok_0;
    lemma_sector_total(chain);
    if n > capped(sector_total(chain)) {
        let extra = (n - sector_total(chain)) as u64;
        if num == 0 {
            law_any_free(t.extents, t.block_devices, n, bound);
            let (source, sector) = any_free(t.extents, t.block_devices, n, bound)->Ok_0;
            law_disjoint_kept(t.extents, t.block_devices[source as int], source, sector, n);
        } else {
            let at = first + num - 1;
            let last = t.extents[at];
            if tail_free(t.extents, t.block_devices, last, extra as int) {
                lemma_tail_disjoint(t.extents, t.block_devices, at, extra);
            } else {
                let (source, sector) = further_place(
                    t.extents,
                    t.block_devices,
                    last.target_source,
                    extra,
                    bound,
                )->Ok_0;
                lemma_further_place(
                    t.extents,
                    t.block_devices,
                    last.target_source,
                    extra,
                    bound,
                );
                law_disjoint_kept(t.extents, t.block_devices[source as int], source, sector, extra);
                let pushed = t.extents.push(extent_of((source, sector, extra)));
                let f = |k: int|
                    if k < first + num {
                        k
                    } else if k == first + num {
                        t.extents.len() as int
                    } else {
                        k - 1
                    };
                assert forall|k: int| 0 <= k < t2.extents.len() implies 0 <= #[trigger] f(k)
                    < pushed.len() && within(t2.extents[k], pushed[f(k)]) by {}
                lemma_within_disjoint(pushed, t2.extents, f);
            }
        }
    } else {
        let some = kept(chain, n as int);
        lemma_kept_total(chain, n as int);
        if n == 0 {
            assert(some =~= Seq::<Extent>::empty());
            assert(t2.extents =~= t.extents.take(first) + some + t.extents.skip(first + num));
        }
        let f = |k: int|
            if k < first + some.len() {
                k
            } else {
                k + (num - some.len())
            };
        assert(chain =~= t.extents.subrange(first, first + num) || num == 0);
        assert forall|k: int| 0 <= k < t2.extents.len() implies 0 <= #[trigger] f(k)
            < t.extents.len() && within(t2.extents[k], t.extents[f(k)]) by {
            if first <= k < first + some.len() {
                assert(t2.extents[k] == some[k - first]);
                assert(chain[k - first] == t.extents[k]);
            }
        }
        lemma_within_disjoint(t.extents, t2.extents, f);
    }
}

/// An extent that grows over free sectors keeps the table without overlaps.
proof fn lemma_tail_disjoint(
    extents: Seq<Extent>,
    devices: Seq<BlockDeviceView>,
    at: int,
    extra: u64,
)
    requires
        disjoint(extents),
        0 <= at < extents.len(),
        extents[at].target_type == LP_TARGET_TYPE_LINEAR,
        extra > 0,
        tail_free(extents, devices, extents[at], extra as int),
    ensures
        disjoint(
            extents.update(
                at,
                Extent { num_sectors: (extents[at].num_sectors + extra) as u64, ..extents[at] },
            ),
        ),
{
    let e = extents[at];
    let table = extents.update(
        at,
        Extent { num_sectors: (e.num_sectors + extra) as u64, ..e },
    );
    let end = extent_end(e);
    assert forall|k: int|
        0 <= k < extents.len() && k != at && e.num_sectors > 0 && extents[k].num_sectors > 0
            && on_device(#[trigger] extents[k], e.target_source) implies extent_end(extents[k]) <= e.target_data || end + extra
        <= extents[k].target_data by {
        if end < capped_end(extents[k]) && extents[k].target_data < end + extra {
            assert(range_taken(extents, e.target_source, end, end + extra));
        }
        if at < k {
            assert(on_device(extents[k], extents[at].target_source));
        } else {
            assert(on_device(extents[at], extents[k].target_source));
        }
    }
    assert forall|j: int, k: int|
        0 <= j < k < table.len() && (#[trigger] table[j]).target_type == LP_TARGET_TYPE_LINEAR
            && on_device(#[trigger] table[k], table[j].target_source) && table[j].num_sectors > 0
            && table[k].num_sectors > 0 implies extent_end(table[j]) <= table[k].target_data
        || extent_end(table[k]) <= table[j].target_data by {
        if j == at {
            assert(table[k] == extents[k]);
        } else if k == at {
            assert(table[j] == extents[j]);
            assert(on_device(extents[j], e.target_source));
        } else {
            assert(table[j] == extents[j] && table[k] == extents[k]);
        }
    }
}

/// A request to resize a partition.
#[derive(Debug)]
pub struct ResizeArgs {
    pub image: String,
    pub name: String,
    pub size: String,
    pub slot: String,
    pub suffix: String,
    pub device: Vec<String>,
    pub force: bool,
    pub allow_shrink: bool,
    pub dry_run: bool,
}

/// What a resize comes to.
#[derive(Debug, Clone, Copy, PartialEq, Eq, Structural)]
pub enum ResizePlan {
    /// The partition has that size already.
    Unchanged { index: usize, size: u64 },
    /// What would be done.
    Preview { index: usize, current: u64, size: u64, sectors: u64 },
    /// The partition is given this many sectors.
    Edit { index: usize, current: u64, size: u64, sectors: u64 },
}

/// A resize that was planned, and the writes that carry it out.
pub struct ResizeDone {
    pub plan: ResizePlan,
    pub name: String,
    pub step: Option<ResizeStep>,
    pub write: Option<SlotWrite>,
}

/// What a resize of the `i`-th partition to `size` bytes comes to.
pub open spec fn plan_for(
    d: SuperView,
    args: ResizeArgs,
    is_primary: Seq<bool>,
    i: int,
    size: u64,
) -> Result<ResizePlan, Error> {
    let t = d.tables;
    let p = t.partitions[i];
    let index = i as usize;
    let total = sector_total(extents_of_partition(t.extents, p));
    let current = capped(512 * total);
    let sectors = in_sectors(size);
    let group = t.groups[p.group_index as int];
    let used = group_used(t, p.group_index, Some(p.name));
    if size < current && !args.allow_shrink {
        Err(Error::Invalid(Fault::Shrink { size, current }))
    } else if size == current {
        Ok(ResizePlan::Unchanged { index, size })
    } else if p.group_index >= t.groups.len() {
        Err(Error::Invalid(Fault::GroupIndex))
    } else if !args.force && over_limit(group.maximum_size, used, sectors as int) {
        Err(
            Error::Invalid(
                Fault::GroupLimit {
                    max: group.maximum_size,
                    used: capped(used),
                    needed: sectors,
                },
            ),
        )
    } else if args.dry_run {
        Ok(ResizePlan::Preview { index, current, size, sectors })
    } else {
        let bound = bound_devices(t, texts(args.device@), is_primary);
        if sectors > capped(total) && bound is Err {
            Err(bound->Err_0)
        } else {
            Ok(ResizePlan::Edit { index, current, size, sectors })
        }
    }
}

/// What a resize comes to.
pub open spec fn resize_plan(
    d: SuperView,
    args: ResizeArgs,
    suffix: Option<Seq<char>>,
    is_primary: Seq<bool>,
) -> Result<ResizePlan, Error> {
    if d.image_format != "raw"@ {
        Err(Error::Invalid(Fault::NotRaw))
    } else {
        match size_value(args.size@, true) {
            Err(e) => Err(e),
            Ok(size) => match resolved(d.tables.partitions, args.name@, suffix) {
                Err(e) => Err(e),
                Ok(i) => plan_for(d, args, is_primary, i, size),
            },
        }
    }
}

/// Decides what a resize comes to.
pub fn decide_resize(
    data: &SuperData,
    args: &ResizeArgs,
    suffix: Option<&str>,
    is_primary: &Vec<bool>,
) -> (r: Result<ResizePlan, Error>)
    requires
        data.devices@.len() <= u32::MAX,
        is_primary@.len() == args.device@.len(),
    ensures
        r == resize_plan(data@, *args, option_view(suffix), is_primary@),
        r matches Ok(plan) ==> match plan {
            ResizePlan::Unchanged { index, .. } => index < data.partitions@.len(),
            ResizePlan::Preview { index, .. } => index < data.partitions@.len(),
            ResizePlan::Edit { index, .. } => index < data.partitions@.len(),
        },
{
    if !str_eq(data.image_format.as_str(), "raw") {
        return Err(Error::Invalid(Fault::NotRaw));
    }
    let size = parse_size(args.size.as_str(), true)?;
    let index = resolve_named(data, args.name.as_str(), suffix)?;
    let p = &data.partitions[index];
    let ghost t = data@.tables;
    assert(t.partitions[index as int] == p@);
    let current = data.partition_size(p);
    if size < current && !args.allow_shrink {
        return Err(Error::Invalid(Fault::Shrink { size, current }));
    }
    if size == current {
        return Ok(ResizePlan::Unchanged { index, size });
    }
    if p.group_index as usize >= data.groups.len() {
        return Err(Error::Invalid(Fault::GroupIndex));
    }
    let max = data.groups[p.group_index as usize].maximum_size;
    assert(t.groups[p.group_index as int].maximum_size == max);
    let sectors = sectors_for(size);
    if !args.force {
        if let Some(used) = without_room(
            data,
            p.group_index,
            Some(p.name.as_str()),
            max,
            sectors,
        ) {
            return Err(Error::Invalid(Fault::GroupLimit { max, used, needed: sectors }));
        }
    }
    if args.dry_run {
        return Ok(ResizePlan::Preview { index, current, size, sectors });
    }
    if sectors > data.partition_sectors(p) {
        match find_bound(data, &args.device, is_primary) {
            Ok(_) => {},
            Err(e) => {
                return Err(e);
            },
        }
    }
    Ok(ResizePlan::Edit { index, current, size, sectors })
}

/// The bound devices; none where the bindings are at fault, which matters to
/// growth only.
pub open spec fn usable_devices(
    t: TablesView,
    specs: Seq<Seq<char>>,
    is_primary: Seq<bool>,
) -> Seq<u32> {
    match bound_devices(t, specs, is_primary) {
        Ok(bound) => bound,
        Err(_) => Seq::empty(),
    }
}

/// Whether this is what a resize of `d` comes to.
pub open spec fn resize_done(
    d: SuperView,
    args: ResizeArgs,
    suffix: Option<Seq<char>>,
    is_primary: Seq<bool>,
    r: Result<ResizeDone, Error>,
) -> bool {
    let bound = usable_devices(d.tables, texts(args.device@), is_primary);
    match resize_plan(d, args, suffix, is_primary) {
        Err(e) => r == Err::<ResizeDone, Error>(e),
        Ok(plan) => match plan {
            ResizePlan::Edit { index, sectors, .. } => match resized(
                d.tables,
                index as int,
                sectors,
                bound,
            ) {
                Err(e) => r == Err::<ResizeDone, Error>(e),
                Ok(tables) => match r {
                    Ok(done) => {
                        &&& done.plan == plan
                        &&& done.name@ == d.tables.partitions[index as int].name
                        &&& done.step == Some(step_for(d.tables, index as int, sectors, bound))
                        &&& done.write matches Some(w) && commits(SuperView { tables, ..d }, w)
                    },
                    Err(e) => committed(SuperView { tables, ..d }, Err(e)),
                },
            },
            ResizePlan::Unchanged { index, .. } | ResizePlan::Preview { index, .. } => r matches Ok(
                done,
            ) && done.plan == plan && done.name@ == d.tables.partitions[index as int].name
                && done.step is None && done.write is None,
        },
    }
}

/// Resizes a partition of loaded data.
pub fn resize(
    data: SuperData,
    args: &ResizeArgs,
    suffix: Option<&str>,
    is_primary: &Vec<bool>,
) -> (r: Result<ResizeDone, Error>)
    requires
        placeable(data@),
        within_caps(data@.tables),
        is_primary@.len() == args.device@.len(),
    ensures
        resize_done(data@, *args, option_view(suffix), is_primary@, r),
{
    let plan = decide_resize(&data, args, suffix, is_primary)?;
    let mut data = data;
    match plan {
        ResizePlan::Edit { index, sectors, .. } => {
            let name = data.partitions[index].name.clone();
            let bound = match find_bound(&data, &args.device, is_primary) {
                Ok(v) => v,
                Err(_) => Vec::new(),
            };
            assert(bound@ =~= usable_devices(
                data@.tables,
                texts(args.device@),
                is_primary@,
            ));
            let step = resize_extents(&mut data, index, sectors, &bound)?;
            let write = commit(&data)?;
            Ok(ResizeDone { plan, name, step: Some(step), write: Some(write) })
        },
        ResizePlan::Unchanged { index, .. } => {
            let name = data.partitions[index].name.clone();
            Ok(ResizeDone { plan, name, step: None, write: None })
        },
        ResizePlan::Preview { index, .. } => {
            let name = data.partitions[index].name.clone();
            Ok(ResizeDone { plan, name, step: None, write: None })
        },
    }
}

/// Resizes a partition of the image in a file: what is to be written, if
/// anything.
pub fn run<F: BlockSource>(file: F, args: &ResizeArgs, is_primary: &Vec<bool>) -> (r: Result<
    ResizeDone,
    NameError,
>)
    requires
        is_primary@.len() == args.device@.len(),
    ensures
        settled(&file) ==> match write_source(file.bytes(), args.slot@, args.suffix@, args.name@) {
            Err(e) => plain(r) == Err::<ResizeDone, Error>(e),
            Ok(d) => {
                let suffix = suffix_selector(args.suffix@)->Ok_0;
                let parts = d.tables.partitions;
                &&& resize_done(d, *args, suffix, is_primary@, plain(r))
                &&& lists_names(
                    r,
                    names_of(parts, answering(parts, args.name@, suffix, 0)),
                    is_ambiguous(parts, args.name@, suffix),
                )
            },
        },
        r is Ok ==> exists|d: SuperView|
            decoded(file.bytes()) is Ok && #[trigger] faithful(decoded(file.bytes())->Ok_0, d)
                && resize_done(
                d,
                *args,
                suffix_selector(args.suffix@)->Ok_0,
                is_primary@,
                plain(r),
            ),
{
    let ghost f = file.bytes();
    match load_selected(file, args.slot.as_str(), args.suffix.as_str(), args.name.as_str()) {
        Err(e) => Err(NameError::Failed(e)),
        Ok((data, suffix)) => {
            let ghost d = data@;
            proof {
                lemma_loaded(decoded(f)->Ok_0, d);
            }
            let names = data.ambiguous_names(args.name.as_str(), suffix);
            with_names(resize(data, args, suffix, is_primary), names)
        },
    }
}

} // verus!
