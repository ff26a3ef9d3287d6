//! What a resize keeps of a partition, what it takes, and when it is owed.

use crate::commands::arguments::size_value;
use crate::commands::commit::{commits, group_used};
use crate::commands::edit::{chains_apart, lemma_total_append};
use crate::commands::name_laws::{law_resolved, names_it};
use crate::commands::place::bound_devices;
use crate::commands::read::lemma_chain_bytes;
use crate::commands::resize::{
    further_place, kept, law_resize_keeps_apart, law_resized, resize_done, resized, resized_well,
    step_for, tail_free, usable_devices, ResizeArgs, ResizeDone, ResizePlan, ResizeStep,
};
use crate::error::Error;
use crate::format::{BlockDeviceView, Extent, TablesView, LP_TARGET_TYPE_LINEAR};
use crate::reader::data::{
    capped, extents_of_partition, lemma_sector_total, sector_total, SuperView,
};
use crate::reader::extent_stream::{
    chain_data, extent_data, extent_len, law_chain_size, lemma_chain_data_append, ExtentSource,
};
use crate::text::texts;
use crate::writer::allocation::{
    cap_of, extent_end, first_free, free_at, law_first_fit, limit_of, on_device, ranges_fit,
};
use crate::writer::render::slot_bytes;
use crate::writer::spanning::{
    any_free, capped_end, disjoint, law_any_free, law_first_allowed, lemma_found, range_taken,
};
use vstd::prelude::*;

verus! {

/// Whether `a` is the front of `b`.
pub open spec fn is_front<T>(a: Seq<T>, b: Seq<T>) -> bool {
    a.len() <= b.len() && b.take(a.len() as int) == a
}

/// Whether an extent lies where another does, and is no shorter.
pub open spec fn at_least(e: Extent, before: Extent) -> bool {
    &&& e.target_type == before.target_type
    &&& e.target_source == before.target_source
    &&& e.target_data == before.target_data
    &&& e.num_sectors >= before.num_sectors
}

/// Whether a chain still holds another one at its front: all of its extents in
/// their places, unchanged but for the last, which may have become longer.
pub open spec fn holds_chain(chain: Seq<Extent>, before: Seq<Extent>) -> bool {
    &&& before.len() <= chain.len()
    &&& forall|k: int| 0 <= k < before.len() ==> at_least(#[trigger] chain[k], before[k])
    &&& forall|k: int| 0 <= k < before.len() - 1 ==> #[trigger] chain[k] == before[k]
}

/// The sectors of one extent.
pub proof fn lemma_total_one(e: Extent)
    ensures
        sector_total(seq![e]) == e.num_sectors,
{
    assert(seq![e].drop_last() =~= Seq::<Extent>::empty());
    assert(sector_total(seq![e].drop_last()) == 0);
}

/// The data of one extent.
pub proof fn lemma_data_one<D: ExtentSource>(d: &D, e: Extent)
    ensures
        chain_data(d, seq![e]) == extent_data(d, e),
{
    assert(seq![e].drop_last() =~= Seq::<Extent>::empty());
    assert(chain_data(d, seq![e].drop_last()) =~= Seq::<u8>::empty());
    assert(chain_data(d, seq![e]) =~= extent_data(d, e));
}

/// A longer extent in the same place starts with the data of the shorter one.
proof fn lemma_longer_extent<D: ExtentSource>(d: &D, short: Extent, long: Extent)
    requires
        at_least(long, short),
    ensures
        is_front(extent_data(d, short), extent_data(d, long)),
{
    assert(extent_len(short) <= extent_len(long));
    assert(extent_data(d, long).take(extent_data(d, short).len() as int) =~= extent_data(
        d,
        short,
    ));
}

/// A chain that holds another one at its front starts with its data.
pub proof fn lemma_held_data<D: ExtentSource>(d: &D, before: Seq<Extent>, chain: Seq<Extent>)
    requires
        holds_chain(chain, before),
    ensures
        is_front(chain_data(d, before), chain_data(d, chain)),
{
    if before.len() == 0 {
        assert(chain_data(d, chain).take(0) =~= chain_data(d, before));
    } else {
        let n = before.len() as int;
        let same = before.drop_last();
        let old_last = seq![before.last()];
        let new_last = seq![chain[n - 1]];
        let more = chain.skip(n);
        assert(before =~= same + old_last);
        assert(chain =~= same + new_last + more);
        lemma_chain_data_append(d, same, old_last);
        lemma_chain_data_append(d, same, new_last);
        lemma_chain_data_append(d, same + new_last, more);
        lemma_data_one(d, before.last());
        lemma_data_one(d, chain[n - 1]);
        assert(before.last() == before[n - 1]);
        assert(at_least(chain[n - 1], before[n - 1]));
        lemma_longer_extent(d, before.last(), chain[n - 1]);
        let a = chain_data(d, same);
        let x = extent_data(d, before.last());
        let y = extent_data(d, chain[n - 1]);
        let z = chain_data(d, more);
        assert(y.take(x.len() as int) == x);
        assert forall|i: int| 0 <= i < x.len() implies y[i] == x[i] by {
            assert(y.take(x.len() as int)[i] == y[i]);
        }
        assert((a + y + z).take((a + x).len() as int) =~= a + x);
    }
}

/// Whether the `extra` sectors behind an extent lie inside its device and meet no
/// extent of the table.
pub open spec fn room_behind(
    extents: Seq<Extent>,
    devices: Seq<BlockDeviceView>,
    e: Extent,
    extra: int,
) -> bool {
    &&& e.target_source < devices.len()
    &&& extent_end(e) + extra <= cap_of(devices[e.target_source as int])
    &&& forall|k: int|
        0 <= k < extents.len() && on_device(#[trigger] extents[k], e.target_source) ==> extent_end(
            extents[k],
        ) <= extent_end(e) || extent_end(e) + extra <= extents[k].target_data
}

/// Sectors behind an extent are free where they meet nothing.
proof fn lemma_room(
    extents: Seq<Extent>,
    devices: Seq<BlockDeviceView>,
    e: Extent,
    extra: int,
)
    requires
        extra > 0,
    ensures
        tail_free(extents, devices, e, extra) <==> room_behind(extents, devices, e, extra),
{
    let end = extent_end(e);
    if tail_free(extents, devices, e, extra) {
        assert forall|k: int|
            0 <= k < extents.len() && on_device(#[trigger] extents[k], e.target_source) implies
            extent_end(extents[k]) <= end || end + extra <= extents[k].target_data by {
            if end < capped_end(extents[k]) && extents[k].target_data < end + extra {
                assert(range_taken(extents, e.target_source, end, end + extra));
            }
        }
    }
    if room_behind(extents, devices, e, extra) {
        if range_taken(extents, e.target_source, end, end + extra) {
            let k = choose|k: int|
                0 <= k < extents.len() && on_device(#[trigger] extents[k], e.target_source) && end
                    < capped_end(extents[k]) && extents[k].target_data < end + extra;
            assert(on_device(extents[k], e.target_source));
        }
    }
}

/// Whether a chain grew by `extra` sectors, all of them free before: behind its
/// last extent, where there was room; else as one more extent on a bound device.
pub open spec fn grew(
    t: TablesView,
    before: Seq<Extent>,
    chain: Seq<Extent>,
    extra: int,
    bound: Seq<u32>,
) -> bool {
    if before.len() > 0 && room_behind(t.extents, t.block_devices, before.last(), extra) {
        &&& chain.len() == before.len()
        &&& chain.last().num_sectors == before.last().num_sectors + extra
    } else {
        let e = chain.last();
        &&& chain.len() == before.len() + 1
        &&& chain.take(before.len() as int) == before
        &&& e.target_type == LP_TARGET_TYPE_LINEAR
        &&& e.num_sectors == extra
        &&& bound.contains(e.target_source)
        &&& e.target_source < t.block_devices.len()
        &&& free_at(
            t.extents,
            t.block_devices[e.target_source as int],
            e.target_source,
            e.target_data as int,
            extra,
        )
    }
}

/// Growing keeps the content: the old chain stands at the front of the new one,
/// extent by extent in the same places, so the bytes of the partition before are
/// the first bytes of the partition after. What is added was free, and lies behind
/// the last extent where there is room for it.
pub proof fn law_growth_keeps_content<D: ExtentSource>(
    d: &D,
    t: TablesView,
    i: int,
    n: u64,
    bound: Seq<u32>,
)
    requires
        0 <= i < t.partitions.len(),
        t.extents.len() < u32::MAX,
        t.block_devices.len() <= u32::MAX,
        n > sector_total(extents_of_partition(t.extents, t.partitions[i])),
        resized(t, i, n, bound) is Ok,
    ensures
        ({
            let t2 = resized(t, i, n, bound)->Ok_0;
            let before = extents_of_partition(t.extents, t.partitions[i]);
            let chain = extents_of_partition(t2.extents, t2.partitions[i]);
            &&& holds_chain(chain, before)
            &&& grew(t, before, chain, n - sector_total(before), bound)
            &&& sector_total(chain) == n
            &&& is_front(chain_data(d, before), chain_data(d, chain))
        }),
{
    let p = t.partitions[i];
    let first = p.first_extent_index as int;
    let num = p.num_extents as int;
    let before = extents_of_partition(t.extents, p);
    let t2 = resized(t, i, n, bound)->Ok_0;
    let chain = extents_of_partition(t2.extents, t2.partitions[i]);
    let extra = n - sector_total(before);
    lemma_sector_total(before);
    if num == 0 {
        assert(before =~= Seq::<Extent>::empty());
        law_any_free(t.extents, t.block_devices, n, bound);
        assert(chain =~= seq![t2.extents.last()]);
        lemma_total_one(t2.extents.last());
        assert(chain.take(0) =~= before);
    } else {
        let at = first + num - 1;
        let last = t.extents[at];
        assert(before =~= t.extents.subrange(first, first + num));
        assert(before.last() == last);
        lemma_room(t.extents, t.block_devices, last, extra);
        if tail_free(t.extents, t.block_devices, last, extra) {
            let e = t2.extents[at];
            assert(chain =~= before.drop_last().push(e));
            assert(chain.drop_last() =~= before.drop_last());
        } else {
            let source = last.target_source;
            let (device, sector) = further_place(
                t.extents,
                t.block_devices,
                source,
                extra as u64,
                bound,
            )->Ok_0;
            if bound.contains(source) && first_free(
                t.extents,
                t.block_devices,
                source,
                extra as u64,
            ) is Ok {
                lemma_found(t.extents, t.block_devices, source, extra as u64);
            } else {
                law_any_free(t.extents, t.block_devices, extra as u64, bound);
            }
            assert(chain =~= before.push(t2.extents[first + num]));
            assert(chain.drop_last() =~= before);
            assert(chain.take(before.len() as int) =~= before);
        }
    }
    lemma_held_data(d, before, chain);
}

/// What is kept of a chain: its extents in their places, the last one cut short.
proof fn lemma_kept_front<D: ExtentSource>(d: &D, chain: Seq<Extent>, n: int)
    requires
        0 <= n <= sector_total(chain),
    ensures
        holds_chain(chain, kept(chain, n)),
        sector_total(kept(chain, n)) == n,
    decreases chain.len(),
{
    if n > 0 && chain.len() > 0 {
        let a = seq![chain[0]];
        let rest = chain.skip(1);
        assert(chain =~= a + rest);
        lemma_total_append(a, rest);
        lemma_total_one(chain[0]);
        if chain[0].num_sectors <= n {
            let more = kept(rest, n - chain[0].num_sectors);
            lemma_kept_front(d, rest, n - chain[0].num_sectors);
            lemma_total_append(a, more);
            let all = kept(chain, n);
            assert(all =~= a + more);
            assert forall|k: int| 0 <= k < all.len() implies at_least(
                #[trigger] chain[k],
                all[k],
            ) by {
                if k > 0 {
                    assert(all[k] == more[k - 1]);
                    assert(rest[k - 1] == chain[k]);
                    assert(at_least(rest[k - 1], more[k - 1]));
                }
            }
            assert forall|k: int| 0 <= k < all.len() - 1 implies #[trigger] chain[k] == all[k] by {
                if k > 0 {
                    assert(all[k] == more[k - 1]);
                    assert(rest[k - 1] == chain[k]);
                    assert(rest[k - 1] == more[k - 1]);
                }
            }
        } else {
            lemma_sector_total(rest);
            lemma_total_one(Extent { num_sectors: n as u64, ..chain[0] });
        }
    }
}

/// Shrinking keeps the front: the new chain stands at the front of the old one,
/// so the bytes of the partition after are its first bytes before.
pub proof fn law_shrinking_keeps_front<D: ExtentSource>(
    d: &D,
    t: TablesView,
    i: int,
    n: u64,
    bound: Seq<u32>,
)
    requires
        0 <= i < t.partitions.len(),
        n <= sector_total(extents_of_partition(t.extents, t.partitions[i])),
        resized(t, i, n, bound) is Ok,
    ensures
        ({
            let t2 = resized(t, i, n, bound)->Ok_0;
            let before = extents_of_partition(t.extents, t.partitions[i]);
            let chain = extents_of_partition(t2.extents, t2.partitions[i]);
            &&& holds_chain(before, chain)
            &&& sector_total(chain) == n
            &&& is_front(chain_data(d, chain), chain_data(d, before))
            &&& 512 * sector_total(before) <= u64::MAX ==> chain_data(d, chain).len() == 512 * n
        }),
{
    let p = t.partitions[i];
    let first = p.first_extent_index as int;
    let num = p.num_extents as int;
    let before = extents_of_partition(t.extents, p);
    let t2 = resized(t, i, n, bound)->Ok_0;
    let chain = extents_of_partition(t2.extents, t2.partitions[i]);
    lemma_kept_front(d, before, n as int);
    if num == 0 {
        assert(before =~= Seq::<Extent>::empty());
    }
    assert(chain =~= kept(before, n as int));
    lemma_held_data(d, chain, before);
    law_chain_size(d, chain);
    if 512 * sector_total(before) <= u64::MAX {
        lemma_chain_bytes(chain);
    }
}

/// A resize is owed: a shrink wherever the chain lies in the table; growth of a
/// linear end with room behind it; and other growth wherever a bound device of known
/// size has a free place.
pub proof fn law_resize_owed(t: TablesView, i: int, n: u64, bound: Seq<u32>)
    requires
        0 <= i < t.partitions.len(),
        t.block_devices.len() <= u32::MAX,
        t.partitions[i].first_extent_index + t.partitions[i].num_extents <= t.extents.len(),
    ensures
        ({
            let p = t.partitions[i];
            let before = extents_of_partition(t.extents, p);
            let extra = n - sector_total(before);
            let linear = p.num_extents == 0 || (before.last().target_type == LP_TARGET_TYPE_LINEAR
                && extent_end(before.last()) <= u64::MAX && before.last().target_source
                < t.block_devices.len());
            &&& extra <= 0 ==> resized(t, i, n, bound) is Ok
            &&& extra > 0 && linear && p.num_extents > 0 && room_behind(
                t.extents,
                t.block_devices,
                before.last(),
                extra,
            ) ==> resized(t, i, n, bound) is Ok
            &&& extra > 0 && linear && (exists|b: u32, s: int|
                bound.contains(b) && b < t.block_devices.len() && limit_of(
                    t.block_devices[b as int],
                ) > 0 && ranges_fit(t.extents, b) && #[trigger] free_at(
                    t.extents,
                    t.block_devices[b as int],
                    b,
                    s,
                    extra,
                )) ==> resized(t, i, n, bound) is Ok
        }),
{
    let p = t.partitions[i];
    let before = extents_of_partition(t.extents, p);
    let extra = n - sector_total(before);
    lemma_sector_total(before);
    if p.num_extents > 0 {
        assert(before.last() == t.extents[p.first_extent_index + p.num_extents - 1]);
    } else {
        assert(before =~= Seq::<Extent>::empty());
    }
    if extra > 0 {
        if p.num_extents > 0 {
            lemma_room(t.extents, t.block_devices, before.last(), extra);
        }
        if exists|b: u32, s: int|
            bound.contains(b) && b < t.block_devices.len() && limit_of(t.block_devices[b as int])
                > 0 && ranges_fit(t.extents, b) && #[trigger] free_at(
                t.extents,
                t.block_devices[b as int],
                b,
                s,
                extra,
            ) {
            let (b, s) = choose|b: u32, s: int|
                bound.contains(b) && b < t.block_devices.len() && limit_of(
                    t.block_devices[b as int],
                ) > 0 && ranges_fit(t.extents, b) && #[trigger] free_at(
                    t.extents,
                    t.block_devices[b as int],
                    b,
                    s,
                    extra,
                );
            law_first_fit(t.extents, t.block_devices, b, extra as u64);
            law_any_free(t.extents, t.block_devices, extra as u64, bound);
            assert(first_free(t.extents, t.block_devices, b, extra as u64) is Ok);
            assert(any_free(t.extents, t.block_devices, extra as u64, bound) is Ok);
        }
    }
}

/// Whether `n` is the number of sectors that `bytes` bytes take.
pub open spec fn sectors_hold(n: u64, bytes: u64) -> bool {
    n * 512 >= bytes && n * 512 < bytes + 512
}

/// Whether a resize of the `i`-th partition to `n` sectors turned `t` into `t2`: the
/// partition has that many sectors, and what it held is kept as far as they reach;
/// every other partition has the chain that it had.
pub open spec fn resized_to<D: ExtentSource>(
    d: &D,
    t: TablesView,
    t2: TablesView,
    i: int,
    n: u64,
    bound: Seq<u32>,
) -> bool {
    let before = extents_of_partition(t.extents, t.partitions[i]);
    let chain = extents_of_partition(t2.extents, t2.partitions[i]);
    &&& resized_well(t, t2, i, n)
    &&& if n > sector_total(before) {
        &&& holds_chain(chain, before)
        &&& grew(t, before, chain, n - sector_total(before), bound)
        &&& is_front(chain_data(d, before), chain_data(d, chain))
    } else {
        &&& holds_chain(before, chain)
        &&& is_front(chain_data(d, chain), chain_data(d, before))
    }
    &&& disjoint(t.extents) ==> disjoint(t2.extents)
}

/// Whether a step tells how `n` sectors came about.
pub open spec fn step_tells(t: TablesView, t2: TablesView, i: int, n: u64, step: ResizeStep) -> bool {
    let before = extents_of_partition(t.extents, t.partitions[i]);
    let chain = extents_of_partition(t2.extents, t2.partitions[i]);
    let e = chain.last();
    let extra = n - sector_total(before);
    match step {
        ResizeStep::Allocated { device, sector, sectors } => extra > 0 && before.len() == 0
            && chain.len() == 1 && e.target_source == device && e.target_data == sector
            && e.num_sectors == sectors,
        ResizeStep::Expanded { sectors } => extra > 0 && sectors == extra && chain.len()
            == before.len(),
        ResizeStep::Spliced { device, sector, sectors } => extra > 0 && before.len() > 0
            && chain.len() == before.len() + 1 && e.target_source == device && e.target_data
            == sector && e.num_sectors == sectors,
        ResizeStep::Cut => extra <= 0 && n > 0,
        ResizeStep::Emptied => n == 0 && chain.len() == 0,
    }
}

/// The step that is reported is the one that was made.
pub proof fn law_step_told(t: TablesView, i: int, n: u64, bound: Seq<u32>)
    requires
        0 <= i < t.partitions.len(),
        t.extents.len() < u32::MAX,
        t.block_devices.len() <= u32::MAX,
        resized(t, i, n, bound) is Ok,
    ensures
        step_tells(t, resized(t, i, n, bound)->Ok_0, i, n, step_for(t, i, n, bound)),
{
    let p = t.partitions[i];
    let first = p.first_extent_index as int;
    let num = p.num_extents as int;
    let before = extents_of_partition(t.extents, p);
    let t2 = resized(t, i, n, bound)->Ok_0;
    let chain = extents_of_partition(t2.extents, t2.partitions[i]);
    lemma_sector_total(before);
    if n > sector_total(before) {
        if num == 0 {
            assert(before =~= Seq::<Extent>::empty());
            assert(chain =~= seq![t2.extents.last()]);
        } else {
            let last = t.extents[first + num - 1];
            assert(before =~= t.extents.subrange(first, first + num));
            if tail_free(t.extents, t.block_devices, last, n - sector_total(before)) {
                assert(chain =~= before.drop_last().push(t2.extents[first + num - 1]));
            } else {
                assert(chain =~= before.push(t2.extents[first + num]));
            }
        }
    }
}

/// Whether the `i`-th partition may be given `n` sectors for a new size: it is the
/// one that was named, it has another size now, it shrinks only where that was
/// allowed, and its group stays within its largest size unless that is overridden.
pub open spec fn change_allowed(
    d: SuperView,
    args: ResizeArgs,
    suffix: Option<Seq<char>>,
    i: int,
    current: u64,
    size: u64,
    n: u64,
) -> bool {
    let t = d.tables;
    let p = t.partitions[i];
    let max = t.groups[p.group_index as int].maximum_size;
    &&& names_it(t.partitions, args.name@, suffix, i)
    &&& size_value(args.size@, true) == Ok::<u64, Error>(size)
    &&& sectors_hold(n, size)
    &&& current == capped(512 * sector_total(extents_of_partition(t.extents, p)))
    &&& size != current
    &&& size < current ==> args.allow_shrink
    &&& p.group_index < t.groups.len()
    &&& !args.force && max > 0 ==> 512 * (group_used(t, p.group_index, Some(p.name)) + n) <= max
}

/// What a resize that went through comes to. A partition that has the size already
/// stays, a preview writes nothing, and an edit stores tables in which the partition
/// has the sectors that the size takes, with its content kept. What is added lies on
/// devices that are bound.
pub proof fn law_resize_outcome<D: ExtentSource>(
    src: &D,
    d: SuperView,
    args: ResizeArgs,
    suffix: Option<Seq<char>>,
    is_primary: Seq<bool>,
    r: Result<ResizeDone, Error>,
)
    requires
        chains_apart(d.tables.partitions, d.tables.extents),
        d.tables.extents.len() < u32::MAX,
        d.tables.partitions.len() <= usize::MAX,
        d.tables.block_devices.len() <= u32::MAX,
        resize_done(d, args, suffix, is_primary, r),
        r is Ok,
    ensures
        ({
            let done = r->Ok_0;
            let t = d.tables;
            let bound = usable_devices(t, texts(args.device@), is_primary);
            &&& d.image_format == "raw"@
            &&& match done.plan {
                ResizePlan::Unchanged { index, size } => {
                    &&& names_it(t.partitions, args.name@, suffix, index as int)
                    &&& size_value(args.size@, true) == Ok::<u64, Error>(size)
                    &&& size == capped(
                        512 * sector_total(
                            extents_of_partition(t.extents, t.partitions[index as int]),
                        ),
                    )
                    &&& done.name@ == t.partitions[index as int].name
                    &&& done.step is None
                    &&& done.write is None
                },
                ResizePlan::Preview { index, current, size, sectors } => {
                    &&& args.dry_run
                    &&& change_allowed(d, args, suffix, index as int, current, size, sectors)
                    &&& done.name@ == t.partitions[index as int].name
                    &&& done.step is None
                    &&& done.write is None
                },
                ResizePlan::Edit { index, current, size, sectors } => {
                    &&& !args.dry_run
                    &&& change_allowed(d, args, suffix, index as int, current, size, sectors)
                    &&& done.name@ == t.partitions[index as int].name
                    &&& sectors > sector_total(
                        extents_of_partition(t.extents, t.partitions[index as int]),
                    ) ==> bound_devices(t, texts(args.device@), is_primary) == Ok::<
                        Seq<u32>,
                        Error,
                    >(bound)
                    &&& exists|t2: TablesView|
                        {
                            &&& #[trigger] resized_to(src, t, t2, index as int, sectors, bound)
                            &&& done.step matches Some(step) && step_tells(
                                t,
                                t2,
                                index as int,
                                sectors,
                                step,
                            )
                            &&& done.write matches Some(w) && commits(
                                SuperView { tables: t2, ..d },
                                w,
                            )
                        }
                },
            }
        }),
{
    let t = d.tables;
    let done = r->Ok_0;
    let bound = usable_devices(t, texts(args.device@), is_primary);
    law_resolved(t.partitions, args.name@, suffix);
    if let ResizePlan::Edit { index, sectors, .. } = done.plan {
        let i = index as int;
        let t2 = resized(t, i, sectors, bound)->Ok_0;
        let before = extents_of_partition(t.extents, t.partitions[i]);
        lemma_sector_total(before);
        law_resized(t, i, sectors, bound);
        if disjoint(t.extents) {
            law_resize_keeps_apart(t, i, sectors, bound);
        }
        if sectors > sector_total(before) {
            law_growth_keeps_content(src, t, i, sectors, bound);
        } else {
            law_shrinking_keeps_front(src, t, i, sectors, bound);
        }
        law_step_told(t, i, sectors, bound);
        assert(resized_to(src, t, t2, i, sectors, bound));
    }
}

/// When a resize is refused: only of an image that is not raw, for a size that cannot
/// be read, for a name that stands for no partition, for a shrink that was not
/// allowed, for a group that is missing or has no room, for bindings that growth
/// needs and that are at fault, where the extents cannot be changed, or where the
/// new tables cannot be stored.
pub proof fn law_resize_refused(
    d: SuperView,
    args: ResizeArgs,
    suffix: Option<Seq<char>>,
    is_primary: Seq<bool>,
    r: Result<ResizeDone, Error>,
)
    requires
        d.tables.partitions.len() <= usize::MAX,
        resize_done(d, args, suffix, is_primary, r),
        r is Err,
        d.image_format == "raw"@,
        size_value(args.size@, true) is Ok,
        exists|i: int| names_it(d.tables.partitions, args.name@, suffix, i),
    ensures
        ({
            let t = d.tables;
            let bound = usable_devices(t, texts(args.device@), is_primary);
            let size = size_value(args.size@, true)->Ok_0;
            exists|i: int, n: u64|
                #![trigger names_it(t.partitions, args.name@, suffix, i), sectors_hold(n, size)]
                {
                    let p = t.partitions[i];
                    let total = sector_total(extents_of_partition(t.extents, p));
                    let group = t.groups[p.group_index as int];
                    &&& names_it(t.partitions, args.name@, suffix, i)
                    &&& sectors_hold(n, size)
                    &&& size != capped(512 * total)
                    &&& {
                        ||| size < 512 * total && !args.allow_shrink
                        ||| p.group_index >= t.groups.len()
                        ||| !args.force && group.maximum_size > 0 && 512 * (group_used(
                            t,
                            p.group_index,
                            Some(p.name),
                        ) + n) > group.maximum_size
                        ||| !args.dry_run && n > total && bound_devices(
                            t,
                            texts(args.device@),
                            is_primary,
                        ) is Err
                        ||| !args.dry_run && resized(t, i, n, bound) is Err
                        ||| !args.dry_run && slot_bytes(
                            d.header,
                            resized(t, i, n, bound)->Ok_0,
                            d.geometry.metadata_max_size,
                        ) is Err
                    }
                }
        }),
{
    let t = d.tables;
    let size = size_value(args.size@, true)->Ok_0;
    law_resolved(t.partitions, args.name@, suffix);
    let i = choose|i: int| names_it(t.partitions, args.name@, suffix, i);
    let n = ((size + 511) / 512) as u64;
    assert(sectors_hold(n, size));
    let total = sector_total(extents_of_partition(t.extents, t.partitions[i]));
    lemma_sector_total(extents_of_partition(t.extents, t.partitions[i]));
    assert(names_it(t.partitions, args.name@, suffix, i));
}

/// Where growth needs one more extent, that goes to the first free place of its device;
/// and to the device of the last extent, where that is bound, of known size and has room.
pub proof fn law_growth_place(t: TablesView, i: int, n: u64, bound: Seq<u32>)
    requires
        0 <= i < t.partitions.len(),
        t.extents.len() < u32::MAX,
        t.block_devices.len() <= u32::MAX,
        n > sector_total(extents_of_partition(t.extents, t.partitions[i])),
        resized(t, i, n, bound) is Ok,
    ensures
        ({
            let t2 = resized(t, i, n, bound)->Ok_0;
            let before = extents_of_partition(t.extents, t.partitions[i]);
            let chain = extents_of_partition(t2.extents, t2.partitions[i]);
            let extra = n - sector_total(before);
            let e = chain.last();
            let own = before.last().target_source;
            chain.len() > before.len() ==> {
                &&& forall|s: int|
                    s < e.target_data ==> !#[trigger] free_at(
                        t.extents,
                        t.block_devices[e.target_source as int],
                        e.target_source,
                        s,
                        extra,
                    )
                &&& before.len() > 0 && bound.contains(own) && limit_of(
                    t.block_devices[own as int],
                ) > 0 && ranges_fit(t.extents, own) && (exists|s: int| #[trigger]
                    free_at(t.extents, t.block_devices[own as int], own, s, extra))
                    ==> e.target_source == own
            }
        }),
{
    let p = t.partitions[i];
    let first = p.first_extent_index as int;
    let num = p.num_extents as int;
    let before = extents_of_partition(t.extents, p);
    let t2 = resized(t, i, n, bound)->Ok_0;
    let chain = extents_of_partition(t2.extents, t2.partitions[i]);
    let extra = (n - sector_total(before)) as u64;
    lemma_sector_total(before);
    if num == 0 {
        assert(before =~= Seq::<Extent>::empty());
        law_first_allowed(t.extents, t.block_devices, n, bound);
        assert(chain =~= seq![t2.extents.last()]);
    } else {
        let last = t.extents[first + num - 1];
        let own = last.target_source;
        assert(before =~= t.extents.subrange(first, first + num));
        assert(before.last() == last);
        if tail_free(t.extents, t.block_devices, last, extra as int) {
            assert(chain =~= before.drop_last().push(t2.extents[first + num - 1]));
        } else {
            assert(chain =~= before.push(t2.extents[first + num]));
            law_first_allowed(t.extents, t.block_devices, extra, bound);
            if ranges_fit(t.extents, own) {
                law_first_fit(t.extents, t.block_devices, own, extra);
            }
        }
    }
}

/// The devices that growth may use are those that are bound.
pub proof fn law_usable_devices(t: TablesView, specs: Seq<Seq<char>>, is_primary: Seq<bool>)
    ensures
        match bound_devices(t, specs, is_primary) {
            Ok(bound) => usable_devices(t, specs, is_primary) == bound,
            Err(_) => usable_devices(t, specs, is_primary).len() == 0,
        },
{
}

} // verus!
