//! Allocations over several block devices.

use crate::error::{Error, Fault};
use crate::format::{
    device_views, BlockDevice, BlockDeviceView, Extent, LP_SECTOR_SIZE, LP_TARGET_TYPE_LINEAR,
};
use crate::reader::source::after;
use crate::writer::allocation::{
    clear, extent_end, first_free, free_at, law_first_fit, law_run_is_found, limit_of, longest_run,
    lemma_run_errors, on_device, ranges_fit,
};
use crate::writer::LpWriter;
use vstd::prelude::*;

verus! {

/// First fit over the allowed devices from the `idx`-th on, in table order;
/// `last` is the error of the device tried before.
pub open spec fn first_any(
    extents: Seq<Extent>,
    devices: Seq<BlockDeviceView>,
    needed: u64,
    allowed: Seq<u32>,
    idx: int,
    last: Error,
) -> Result<(u32, u64), Error>
    decreases devices.len() - idx,
{
    if idx < 0 || idx >= devices.len() {
        Err(last)
    } else if !allowed.contains(idx as u32) {
        first_any(extents, devices, needed, allowed, idx + 1, last)
    } else {
        match first_free(extents, devices, idx as u32, needed) {
            Ok(sector) => Ok((idx as u32, sector)),
            Err(e) => first_any(extents, devices, needed, allowed, idx + 1, e),
        }
    }
}

/// First fit over the allowed devices.
pub open spec fn any_free(
    extents: Seq<Extent>,
    devices: Seq<BlockDeviceView>,
    needed: u64,
    allowed: Seq<u32>,
) -> Result<(u32, u64), Error> {
    if devices.len() == 0 {
        Err(Error::Invalid(Fault::NoDevices))
    } else if allowed.len() == 0 {
        Err(Error::Invalid(Fault::NoneAllowed))
    } else {
        first_any(extents, devices, needed, allowed, 0, Error::Invalid(Fault::NoSpace))
    }
}

/// The indices of all devices.
pub open spec fn all_indices(count: nat) -> Seq<u32> {
    Seq::new(count, |i: int| i as u32)
}

/// A planned extent: device, first sector, number of sectors.
pub type Run = (u32, u64, u64);

/// The extent of a planned run.
pub open spec fn extent_of(run: Run) -> Extent {
    Extent {
        num_sectors: run.2,
        target_type: LP_TARGET_TYPE_LINEAR,
        target_data: run.1,
        target_source: run.0,
    }
}

/// The extents of planned runs.
pub open spec fn extents_of(runs: Seq<Run>) -> Seq<Extent> {
    runs.map_values(|run: Run| extent_of(run))
}

/// One turn over the devices from the `idx`-th on: each gives its longest run,
/// or what is still needed of it. The second part is what is then left over.
pub open spec fn span_pass(
    working: Seq<Extent>,
    devices: Seq<BlockDeviceView>,
    idx: int,
    remaining: u64,
) -> Result<(Seq<Run>, u64), Error>
    decreases devices.len() - idx,
{
    if idx < 0 || idx >= devices.len() || remaining == 0 {
        Ok((Seq::empty(), remaining))
    } else {
        match longest_run(working, devices, idx as u32) {
            Err(e) => Err(e),
            Ok(longest) => if longest == 0 {
                span_pass(working, devices, idx + 1, remaining)
            } else {
                let take = if remaining < longest {
                    remaining
                } else {
                    longest
                };
                match first_free(working, devices, idx as u32, take) {
                    Err(e) => Err(e),
                    Ok(sector) => {
                        let run = (idx as u32, sector, take);
                        with_runs(
                            seq![run],
                            span_pass(
                                working.push(extent_of(run)),
                                devices,
                                idx + 1,
                                (remaining - take) as u64,
                            ),
                        )
                    },
                }
            },
        }
    }
}

/// The runs planned before, in front of those of a turn.
pub open spec fn with_runs(done: Seq<Run>, turn: Result<(Seq<Run>, u64), Error>) -> Result<
    (Seq<Run>, u64),
    Error,
> {
    match turn {
        Ok((more, left)) => Ok((done + more, left)),
        Err(e) => Err(e),
    }
}

/// Turns over the devices until nothing is needed any more, or nothing is left.
pub open spec fn span(
    working: Seq<Extent>,
    devices: Seq<BlockDeviceView>,
    needed: u64,
    remaining: u64,
) -> Result<Seq<Run>, Error>
    decreases remaining,
{
    if remaining == 0 {
        Ok(Seq::empty())
    } else {
        match span_pass(working, devices, 0, remaining) {
            Err(e) => Err(e),
            Ok((runs, left)) => if runs.len() == 0 || left >= remaining {
                Err(Error::Invalid(Fault::Short { needed, short: remaining }))
            } else {
                after(runs, span(working + extents_of(runs), devices, needed, left))
            },
        }
    }
}

/// The plan of an allocation: one run on the first device that holds it whole,
/// or runs over the devices in turn.
pub open spec fn spanning_plan(
    extents: Seq<Extent>,
    devices: Seq<BlockDeviceView>,
    needed: u64,
) -> Result<Seq<Run>, Error> {
    if needed == 0 {
        Err(Error::Invalid(Fault::ZeroSectors))
    } else if devices.len() == 0 {
        Err(Error::Invalid(Fault::NoDevices))
    } else {
        match any_free(extents, devices, needed, all_indices(devices.len())) {
            Ok((source, sector)) => Ok(seq![(source, sector, needed)]),
            Err(_) => span(extents, devices, needed, needed),
        }
    }
}

/// Whether `x` is among `list`.
pub fn contains_index(list: &[u32], x: u32) -> (r: bool)
    ensures
        r == list@.contains(x),
{
    let mut i: usize = 0;
    while i < list.len()
        invariant
            i <= list.len(),
            forall|k: int| 0 <= k < i ==> list@[k] != x,
        decreases list.len() - i,
    {
        if list[i] == x {
            return true;
        }
        i += 1;
    }
    false
}

/// The indices `0..count`.
pub fn index_list(count: u32) -> (r: Vec<u32>)
    ensures
        r@ == all_indices(count as nat),
{
    let mut r: Vec<u32> = Vec::new();
    let mut i: u32 = 0;
    while i < count
        invariant
            i <= count,
            r@ =~= all_indices(i as nat),
        decreases count - i,
    {
        r.push(i);
        i += 1;
    }
    r
}

impl LpWriter {
    /// First fit over all block devices, in table order.
    pub fn find_free_sectors_any(
        &self,
        extents: &[Extent],
        devices: &[BlockDevice],
        needed_sectors: u64,
    ) -> (r: Result<(u32, u64), Error>)
        requires
            devices@.len() <= u32::MAX,
        ensures
            r == any_free(
                extents@,
                device_views(devices@),
                needed_sectors,
                all_indices(devices@.len()),
            ),
    {
        if devices.len() == 0 {
            return Err(Error::Invalid(Fault::NoDevices));
        }
        let allowed = index_list(devices.len() as u32);
        self.find_free_sectors_any_in(extents, devices, needed_sectors, allowed.as_slice())
    }

    /// First fit over the allowed block devices, in table order.
    pub fn find_free_sectors_any_in(
        &self,
        extents: &[Extent],
        devices: &[BlockDevice],
        needed_sectors: u64,
        allowed: &[u32],
    ) -> (r: Result<(u32, u64), Error>)
        requires
            devices@.len() <= u32::MAX,
        ensures
            r == any_free(extents@, device_views(devices@), needed_sectors, allowed@),
    {
        if devices.len() == 0 {
            return Err(Error::Invalid(Fault::NoDevices));
        }
        if allowed.len() == 0 {
            return Err(Error::Invalid(Fault::NoneAllowed));
        }
        let mut last = Error::Invalid(Fault::NoSpace);
        let mut idx: u32 = 0;
        let count = devices.len() as u32;
        while idx < count
            invariant
                idx <= count == devices@.len(),
                allowed@.len() > 0,
                count > 0,
                any_free(extents@, device_views(devices@), needed_sectors, allowed@) == first_any(
                    extents@,
                    device_views(devices@),
                    needed_sectors,
                    allowed@,
                    idx as int,
                    last,
                ),
            decreases count - idx,
        {
            if contains_index(allowed, idx) {
                match self.find_free_sectors(extents, devices, idx, needed_sectors) {
                    Ok(sector) => {
                        return Ok((idx, sector));
                    },
                    Err(e) => {
                        last = e;
                    },
                }
            }
            idx += 1;
        }
        Err(last)
    }

    /// Plans an allocation that may span several block devices: the runs, as
    /// device, first sector and length, in allocation order.
    pub fn plan_spanning_allocation(
        &self,
        extents: &[Extent],
        devices: &[BlockDevice],
        needed_sectors: u64,
    ) -> (r: Result<Vec<(u32, u64, u64)>, Error>)
        requires
            devices@.len() <= u32::MAX,
        ensures
            match r {
                Ok(runs) => spanning_plan(extents@, device_views(devices@), needed_sectors)
                    == Ok::<Seq<Run>, Error>(runs@),
                Err(e) => spanning_plan(extents@, device_views(devices@), needed_sectors)
                    == Err::<Seq<Run>, Error>(e),
            },
    {
        if needed_sectors == 0 {
            return Err(Error::Invalid(Fault::ZeroSectors));
        }
        if devices.len() == 0 {
            return Err(Error::Invalid(Fault::NoDevices));
        }
        if let Ok((source, sector)) = self.find_free_sectors_any(extents, devices, needed_sectors) {
            let mut single: Vec<(u32, u64, u64)> = Vec::new();
            single.push((source, sector, needed_sectors));
            assert(single@ =~= seq![(source, sector, needed_sectors)]);
            return Ok(single);
        }
        let ghost views = device_views(devices@);
        let ghost whole = span(extents@, views, needed_sectors, needed_sectors);
        let count = devices.len() as u32;
        let mut plan: Vec<(u32, u64, u64)> = Vec::new();
        let mut working: Vec<Extent> = vstd::slice::slice_to_vec(extents);
        let mut remaining = needed_sectors;
        proof {
            if whole is Ok {
                assert(plan@ + whole->Ok_0 =~= whole->Ok_0);
            }
        }
        while remaining > 0
            invariant
                count == devices@.len(),
                views == device_views(devices@),
                whole == spanning_plan(extents@, views, needed_sectors),
                whole == after(plan@, span(working@, views, needed_sectors, remaining)),
            decreases remaining,
        {
            let ghost plan0 = plan@;
            let ghost working0 = working@;
            let before_turn = remaining;
            let ghost turn = span_pass(working0, views, 0, before_turn);
            let ghost mut taken: Seq<Run> = Seq::empty();
            let mut idx: u32 = 0;
            proof {
                assert(with_runs(taken, turn) == turn) by {
                    if turn is Ok {
                        assert(taken + turn->Ok_0.0 =~= turn->Ok_0.0);
                    }
                }
                assert(working0 + extents_of(taken) =~= working0);
                assert(plan0 + taken =~= plan0);
            }
            while idx < count && remaining > 0
                invariant
                    count == devices@.len(),
                    views == device_views(devices@),
                    idx <= count,
                    remaining <= before_turn,
                    taken.len() == 0 <==> remaining == before_turn,
                    plan@ == plan0 + taken,
                    working@ == working0 + extents_of(taken),
                    turn == with_runs(taken, span_pass(working@, views, idx as int, remaining)),
                    turn is Err ==> span(working0, views, needed_sectors, before_turn) == Err::<
                        Seq<Run>,
                        Error,
                    >(turn->Err_0),
                    whole == spanning_plan(extents@, views, needed_sectors),
                    whole == after(plan0, span(working0, views, needed_sectors, before_turn)),
                decreases count - idx,
            {
                let longest = self.largest_free_run(working.as_slice(), devices, idx)?;
                if longest > 0 {
                    let take = if remaining < longest {
                        remaining
                    } else {
                        longest
                    };
                    let sector = self.find_free_sectors(working.as_slice(), devices, idx, take)?;
                    let ghost before = taken;
                    let ghost run = (idx, sector, take);
                    plan.push((idx, sector, take));
                    working.push(
                        Extent {
                            num_sectors: take,
                            target_type: LP_TARGET_TYPE_LINEAR,
                            target_data: sector,
                            target_source: idx,
                        },
                    );
                    remaining = remaining - take;
                    proof {
                        taken = taken.push(run);
                        assert(plan@ =~= plan0 + taken);
                        assert(working@ =~= working0 + extents_of(taken));
                        let rest = span_pass(working@, views, idx + 1, remaining);
                        if rest is Ok {
                            assert(before + (seq![run] + rest->Ok_0.0) =~= taken + rest->Ok_0.0);
                        }
                    }
                }
                idx += 1;
            }
            proof {
                assert(taken + Seq::<Run>::empty() =~= taken);
                assert(turn == Ok::<(Seq<Run>, u64), Error>((taken, remaining)));
            }
            if remaining == before_turn {
                return Err(
                    Error::Invalid(Fault::Short { needed: needed_sectors, short: remaining }),
                );
            }
            proof {
                let rest = span(working@, views, needed_sectors, remaining);
                if rest is Ok {
                    assert(plan0 + (taken + rest->Ok_0) =~= plan@ + rest->Ok_0);
                }
            }
        }
        assert(plan@ + Seq::<Run>::empty() =~= plan@);
        Ok(plan)
    }
}

/// Whether each run could be allocated after those before it.
pub open spec fn placed(
    extents: Seq<Extent>,
    devices: Seq<BlockDeviceView>,
    runs: Seq<Run>,
) -> bool
    decreases runs.len(),
{
    runs.len() == 0 || {
        let run = runs[0];
        &&& run.0 < devices.len()
        &&& run.2 > 0
        &&& free_at(extents, devices[run.0 as int], run.0, run.1 as int, run.2 as int)
        &&& placed(extents.push(extent_of(run)), devices, runs.skip(1))
    }
}

/// The number of sectors of runs.
pub open spec fn run_sectors(runs: Seq<Run>) -> int
    decreases runs.len(),
{
    if runs.len() == 0 {
        0
    } else {
        runs[0].2 + run_sectors(runs.skip(1))
    }
}

/// A sector that was found for an allocation is free.
pub proof fn lemma_found(
    extents: Seq<Extent>,
    devices: Seq<BlockDeviceView>,
    device_index: u32,
    needed: u64,
)
    requires
        first_free(extents, devices, device_index, needed) is Ok,
    ensures
        needed > 0,
        device_index < devices.len(),
        free_at(
            extents,
            devices[device_index as int],
            device_index,
            first_free(extents, devices, device_index, needed)->Ok_0 as int,
            needed as int,
        ),
{
    law_first_fit(extents, devices, device_index, needed);
}

proof fn lemma_first_any(
    extents: Seq<Extent>,
    devices: Seq<BlockDeviceView>,
    needed: u64,
    allowed: Seq<u32>,
    idx: int,
    last: Error,
)
    requires
        0 <= idx,
        devices.len() <= u32::MAX,
    ensures
        match first_any(extents, devices, needed, allowed, idx, last) {
            Ok((source, sector)) => {
                &&& idx <= source < devices.len()
                &&& allowed.contains(source)
                &&& first_free(extents, devices, source, needed) == Ok::<u64, Error>(sector)
                &&& forall|k: u32|
                    idx <= k < source && allowed.contains(k) ==> (#[trigger] first_free(
                        extents,
                        devices,
                        k,
                        needed,
                    )) is Err
            },
            Err(_) => forall|k: u32|
                idx <= k < devices.len() && allowed.contains(k) ==> (#[trigger] first_free(
                    extents,
                    devices,
                    k,
                    needed,
                )) is Err,
        },
    decreases devices.len() - idx,
{
    if idx < devices.len() {
        if !allowed.contains(idx as u32) {
            lemma_first_any(extents, devices, needed, allowed, idx + 1, last);
        } else if first_free(extents, devices, idx as u32, needed) is Err {
            let e = first_free(extents, devices, idx as u32, needed)->Err_0;
            lemma_first_any(extents, devices, needed, allowed, idx + 1, e);
        }
    }
}

/// An allocation over several devices lands on the first allowed device that
/// holds it, at a free place; where it is refused, no allowed device holds it.
pub proof fn law_any_free(
    extents: Seq<Extent>,
    devices: Seq<BlockDeviceView>,
    needed: u64,
    allowed: Seq<u32>,
)
    requires
        devices.len() <= u32::MAX,
    ensures
        match any_free(extents, devices, needed, allowed) {
            Ok((source, sector)) => {
                &&& source < devices.len()
                &&& allowed.contains(source)
                &&& free_at(
                    extents,
                    devices[source as int],
                    source,
                    sector as int,
                    needed as int,
                )
                &&& forall|k: u32|
                    k < source && allowed.contains(k) ==> (#[trigger] first_free(
                        extents,
                        devices,
                        k,
                        needed,
                    )) is Err
            },
            Err(_) => forall|k: u32|
                k < devices.len() && allowed.contains(k) ==> (#[trigger] first_free(
                    extents,
                    devices,
                    k,
                    needed,
                )) is Err,
        },
{
    if devices.len() > 0 && allowed.len() > 0 {
        let last = Error::Invalid(Fault::NoSpace);
        lemma_first_any(extents, devices, needed, allowed, 0, last);
        match first_any(extents, devices, needed, allowed, 0, last) {
            Ok((source, sector)) => {
                lemma_found(extents, devices, source, needed);
            },
            Err(_) => {},
        }
    }
}

proof fn lemma_placed_append(
    extents: Seq<Extent>,
    devices: Seq<BlockDeviceView>,
    a: Seq<Run>,
    b: Seq<Run>,
)
    requires
        placed(extents, devices, a),
        placed(extents + extents_of(a), devices, b),
    ensures
        placed(extents, devices, a + b),
        run_sectors(a + b) == run_sectors(a) + run_sectors(b),
    decreases a.len(),
{
    if a.len() == 0 {
        assert(a + b =~= b);
        assert(extents + extents_of(a) =~= extents);
    } else {
        let next = extents.push(extent_of(a[0]));
        assert(next + extents_of(a.skip(1)) =~= extents + extents_of(a));
        lemma_placed_append(next, devices, a.skip(1), b);
        assert((a + b).skip(1) =~= a.skip(1) + b);
    }
}

proof fn lemma_span_pass(
    working: Seq<Extent>,
    devices: Seq<BlockDeviceView>,
    idx: int,
    remaining: u64,
)
    requires
        0 <= idx,
        devices.len() <= u32::MAX,
    ensures
        span_pass(working, devices, idx, remaining) matches Ok((runs, left)) ==> {
            &&& placed(working, devices, runs)
            &&& run_sectors(runs) == remaining - left
            &&& runs.len() > 0 ==> left < remaining
            &&& runs.len() == 0 && remaining > 0 ==> forall|k: u32|
                idx <= k < devices.len() ==> (#[trigger] longest_run(working, devices, k)) == Ok::<
                    u64,
                    Error,
                >(0)
        },
    decreases devices.len() - idx,
{
    if idx < devices.len() && remaining > 0 {
        match longest_run(working, devices, idx as u32) {
            Err(_) => {},
            Ok(longest) => {
                if longest == 0 {
                    lemma_span_pass(working, devices, idx + 1, remaining);
                } else {
                    let take = if remaining < longest {
                        remaining
                    } else {
                        longest
                    };
                    law_run_is_found(working, devices, idx as u32, take);
                    lemma_found(working, devices, idx as u32, take);
                    let sector = first_free(working, devices, idx as u32, take)->Ok_0;
                    let run = (idx as u32, sector, take);
                    let next = working.push(extent_of(run));
                    let left = (remaining - take) as u64;
                    lemma_span_pass(next, devices, idx + 1, left);
                    match span_pass(next, devices, idx + 1, left) {
                        Err(_) => {},
                        Ok((more, _)) => {
                            let runs = seq![run] + more;
                            assert(runs.skip(1) =~= more);
                            assert(runs[0] == run);
                        },
                    }
                }
            },
        }
    }
}

/// Whether no device has a free run left.
pub open spec fn exhausted(extents: Seq<Extent>, devices: Seq<BlockDeviceView>) -> bool {
    forall|k: u32|
        k < devices.len() ==> (#[trigger] longest_run(extents, devices, k)) == Ok::<u64, Error>(0)
}

proof fn lemma_span(
    working: Seq<Extent>,
    devices: Seq<BlockDeviceView>,
    needed: u64,
    remaining: u64,
)
    requires
        devices.len() <= u32::MAX,
    ensures
        match span(working, devices, needed, remaining) {
            Ok(runs) => placed(working, devices, runs) && run_sectors(runs) == remaining,
            Err(e) => e matches Error::Invalid(Fault::Short { needed: n, short }) ==> {
                &&& n == needed
                &&& short > 0
                &&& exists|runs: Seq<Run>| #[trigger]
                    placed(working, devices, runs) && run_sectors(runs) == remaining - short
                        && exhausted(working + extents_of(runs), devices)
            },
        },
    decreases remaining,
{
    if remaining > 0 {
        lemma_span_pass(working, devices, 0, remaining);
        match span_pass(working, devices, 0, remaining) {
            Err(e) => {
                lemma_pass_errors(working, devices, 0, remaining);
            },
            Ok((runs, left)) => {
                if runs.len() == 0 {
                    assert(working + extents_of(runs) =~= working);
                    assert(placed(working, devices, runs));
                } else {
                    let next = working + extents_of(runs);
                    lemma_span(next, devices, needed, left);
                    match span(next, devices, needed, left) {
                        Ok(more) => {
                            lemma_placed_append(working, devices, runs, more);
                        },
                        Err(Error::Invalid(Fault::Short { needed: _, short })) => {
                            let more = choose|more: Seq<Run>| #[trigger]
                                placed(next, devices, more) && run_sectors(more) == left - short
                                    && exhausted(next + extents_of(more), devices);
                            lemma_placed_append(working, devices, runs, more);
                            assert(next + extents_of(more) =~= working + extents_of(runs + more));
                        },
                        Err(_) => {},
                    }
                }
            },
        }
    }
}

/// A turn fails only on a table that cannot be measured.
proof fn lemma_pass_errors(
    working: Seq<Extent>,
    devices: Seq<BlockDeviceView>,
    idx: int,
    remaining: u64,
)
    requires
        0 <= idx,
        devices.len() <= u32::MAX,
    ensures
        span_pass(working, devices, idx, remaining) matches Err(e) ==> e == Error::Invalid(
            Fault::ExtentRange,
        ) || e == Error::Invalid(Fault::Alignment),
    decreases devices.len() - idx,
{
    if idx < devices.len() && remaining > 0 {
        let d = devices[idx];
        lemma_run_errors(working, devices, idx as u32);
        match longest_run(working, devices, idx as u32) {
            Err(_) => {},
            Ok(longest) => {
                if longest == 0 {
                    lemma_pass_errors(working, devices, idx + 1, remaining);
                } else {
                    let take = if remaining < longest {
                        remaining
                    } else {
                        longest
                    };
                    law_run_is_found(working, devices, idx as u32, take);
                    let sector = first_free(working, devices, idx as u32, take)->Ok_0;
                    let run = (idx as u32, sector, take);
                    lemma_pass_errors(
                        working.push(extent_of(run)),
                        devices,
                        idx + 1,
                        (remaining - take) as u64,
                    );
                }
            },
        }
    }
}

/// A planned allocation has as many sectors as were asked for, and each of its
/// runs lies on free aligned sectors inside its device, apart from the others.
/// Where the plan falls short, what could be placed uses up every device.
pub proof fn law_spanning_plan(
    extents: Seq<Extent>,
    devices: Seq<BlockDeviceView>,
    needed: u64,
)
    requires
        devices.len() <= u32::MAX,
    ensures
        match spanning_plan(extents, devices, needed) {
            Ok(runs) => {
                &&& runs.len() > 0
                &&& placed(extents, devices, runs)
                &&& run_sectors(runs) == needed
            },
            Err(e) => e matches Error::Invalid(Fault::Short { needed: n, short }) ==> {
                &&& n == needed
                &&& short > 0
                &&& exists|runs: Seq<Run>| #[trigger]
                    placed(extents, devices, runs) && run_sectors(runs) == needed - short
                        && exhausted(extents + extents_of(runs), devices)
            },
        },
{
    if needed > 0 && devices.len() > 0 {
        let allowed = all_indices(devices.len());
        law_any_free(extents, devices, needed, allowed);
        match any_free(extents, devices, needed, allowed) {
            Ok((source, sector)) => {
                let runs = seq![(source, sector, needed)];
                assert(runs.skip(1) =~= Seq::<Run>::empty());
                assert(run_sectors(runs.skip(1)) == 0);
                assert(placed(extents.push(extent_of(runs[0])), devices, runs.skip(1)));
                assert(runs[0] == (source, sector, needed));
            },
            Err(_) => {
                lemma_span(extents, devices, needed, needed);
            },
        }
    }
}

/// Whether no two extents share a sector of a device.
pub open spec fn disjoint(extents: Seq<Extent>) -> bool {
    forall|i: int, j: int|
        0 <= i < j < extents.len() && (#[trigger] extents[i]).target_type == LP_TARGET_TYPE_LINEAR
            && on_device(#[trigger] extents[j], extents[i].target_source) && extents[i].num_sectors
            > 0 && extents[j].num_sectors > 0 ==> extent_end(extents[i]) <= extents[j].target_data
            || extent_end(extents[j]) <= extents[i].target_data
}

/// An extent on free sectors keeps the extents apart.
pub proof fn law_disjoint_kept(
    extents: Seq<Extent>,
    d: BlockDeviceView,
    device_index: u32,
    sector: u64,
    n: u64,
)
    requires
        disjoint(extents),
        free_at(extents, d, device_index, sector as int, n as int),
    ensures
        disjoint(extents.push(extent_of((device_index, sector, n)))),
{
    let more = extents.push(extent_of((device_index, sector, n)));
    assert forall|i: int, j: int|
        0 <= i < j < more.len() && (#[trigger] more[i]).target_type == LP_TARGET_TYPE_LINEAR
            && on_device(#[trigger] more[j], more[i].target_source) && more[i].num_sectors > 0
            && more[j].num_sectors > 0 implies extent_end(more[i]) <= more[j].target_data
        || extent_end(more[j]) <= more[i].target_data by {
        assert(more[i] == extents[i]);
        if j < extents.len() {
            assert(more[j] == extents[j]);
        } else {
            assert(clear(extents, device_index, sector as int, n as int));
            assert(on_device(extents[i], device_index));
        }
    }
}

/// A planned allocation keeps the extents apart.
pub proof fn law_placed_disjoint(
    extents: Seq<Extent>,
    devices: Seq<BlockDeviceView>,
    runs: Seq<Run>,
)
    requires
        disjoint(extents),
        placed(extents, devices, runs),
    ensures
        disjoint(extents + extents_of(runs)),
    decreases runs.len(),
{
    if runs.len() == 0 {
        assert(extents + extents_of(runs) =~= extents);
    } else {
        let run = runs[0];
        let next = extents.push(extent_of(run));
        law_disjoint_kept(extents, devices[run.0 as int], run.0, run.1, run.2);
        law_placed_disjoint(next, devices, runs.skip(1));
        assert(next + extents_of(runs.skip(1)) =~= extents + extents_of(runs));
    }
}

/// Where an extent ends, capped at the 64-bit range.
pub open spec fn capped_end(e: Extent) -> int {
    if extent_end(e) > u64::MAX {
        u64::MAX as int
    } else {
        extent_end(e)
    }
}

/// Whether the sectors from `sector` up to `end` meet an extent on the device.
pub open spec fn range_taken(
    extents: Seq<Extent>,
    device_index: u32,
    sector: int,
    end: int,
) -> bool {
    exists|i: int|
        0 <= i < extents.len() && on_device(#[trigger] extents[i], device_index) && sector
            < capped_end(extents[i]) && extents[i].target_data < end
}

impl LpWriter {
    /// Whether the `len` sectors from `sector` on are free on the device and
    /// lie inside it.
    pub fn is_range_free(
        &self,
        extents: &[Extent],
        devices: &[BlockDevice],
        device_index: u32,
        sector: u64,
        len: u64,
    ) -> (r: Result<bool, Error>)
        ensures
            r == (if device_index >= devices@.len() {
                Err(Error::Invalid(Fault::BlockDevice))
            } else if sector + len > u64::MAX {
                Err(Error::Invalid(Fault::SectorRange))
            } else {
                let limit = limit_of(devices@[device_index as int]@);
                Ok(
                    (limit > 0 ==> sector + len <= limit) && !range_taken(
                        extents@,
                        device_index,
                        sector as int,
                        sector + len,
                    ),
                )
            }),
    {
        if device_index as usize >= devices.len() {
            return Err(Error::Invalid(Fault::BlockDevice));
        }
        let limit = devices[device_index as usize].size / LP_SECTOR_SIZE;
        let end = match sector.checked_add(len) {
            Some(v) => v,
            None => {
                return Err(Error::Invalid(Fault::SectorRange));
            },
        };
        if limit > 0 && end > limit {
            return Ok(false);
        }
        let mut i: usize = 0;
        while i < extents.len()
            invariant
                i <= extents.len(),
                end == sector + len,
                device_index < devices@.len(),
                limit == limit_of(devices@[device_index as int]@),
                limit > 0 ==> end <= limit,
                forall|k: int|
                    0 <= k < i && on_device(#[trigger] extents@[k], device_index) ==> sector
                        >= capped_end(extents@[k]) || extents@[k].target_data >= end,
            decreases extents.len() - i,
        {
            let e = extents[i];
            if e.target_type == LP_TARGET_TYPE_LINEAR && e.target_source == device_index {
                let e_end = e.target_data.saturating_add(e.num_sectors);
                if sector < e_end && e.target_data < end {
                    assert(on_device(extents@[i as int], device_index));
                    return Ok(false);
                }
            }
            i += 1;
        }
        Ok(true)
    }
}

/// An allocation over several devices takes the first place that there is: no earlier
/// sector of its device would do, and no allowed device before it, of known size, has
/// any.
pub proof fn law_first_allowed(
    extents: Seq<Extent>,
    devices: Seq<BlockDeviceView>,
    needed: u64,
    allowed: Seq<u32>,
)
    requires
        devices.len() <= u32::MAX,
    ensures
        any_free(extents, devices, needed, allowed) matches Ok((source, sector)) ==> {
            &&& forall|s: int|
                s < sector ==> !#[trigger] free_at(
                    extents,
                    devices[source as int],
                    source,
                    s,
                    needed as int,
                )
            &&& forall|b: u32, s: int|
                b < source && allowed.contains(b) && limit_of(devices[b as int]) > 0 && ranges_fit(
                    extents,
                    b,
                ) ==> !#[trigger] free_at(extents, devices[b as int], b, s, needed as int)
        },
{
    law_any_free(extents, devices, needed, allowed);
    lemma_first_any(
        extents,
        devices,
        needed,
        allowed,
        0,
        Error::Invalid(Fault::NoSpace),
    );
    if let Ok((source, sector)) = any_free(extents, devices, needed, allowed) {
        law_first_fit(extents, devices, source, needed);
        assert forall|b: u32, s: int|
            b < source && allowed.contains(b) && limit_of(devices[b as int]) > 0 && ranges_fit(
                extents,
                b,
            ) implies !#[trigger] free_at(extents, devices[b as int], b, s, needed as int) by {
            assert(first_free(extents, devices, b, needed) is Err);
            law_first_fit(extents, devices, b, needed);
        }
    }
}

/// An allocation is not split without need: where a device of known size holds it whole,
/// the plan is one run, at the first such place on the first such device.
pub proof fn law_spanning_whole(
    extents: Seq<Extent>,
    devices: Seq<BlockDeviceView>,
    needed: u64,
    b: u32,
    s: int,
)
    requires
        devices.len() <= u32::MAX,
        needed > 0,
        b < devices.len(),
        limit_of(devices[b as int]) > 0,
        ranges_fit(extents, b),
        free_at(extents, devices[b as int], b, s, needed as int),
    ensures
        spanning_plan(extents, devices, needed) matches Ok(runs) && runs.len() == 1 && runs[0].2
            == needed && runs[0].0 <= b && (runs[0].0 == b ==> runs[0].1 <= s),
{
    let all = all_indices(devices.len());
    assert(all[b as int] == b);
    assert(all.contains(b));
    law_any_free(extents, devices, needed, all);
    law_first_fit(extents, devices, b, needed);
    assert(first_free(extents, devices, b, needed) is Ok);
    assert(any_free(extents, devices, needed, all) is Ok);
    law_first_allowed(extents, devices, needed, all);
}

/// When an allocation is refused: for no sectors, without devices, for a table that
/// cannot be measured, or because the free runs of all devices fall short.
pub proof fn law_spanning_refused(
    extents: Seq<Extent>,
    devices: Seq<BlockDeviceView>,
    needed: u64,
)
    requires
        devices.len() <= u32::MAX,
    ensures
        spanning_plan(extents, devices, needed) matches Err(e) ==> {
            ||| needed == 0
            ||| devices.len() == 0
            ||| e == Error::Invalid(Fault::ExtentRange)
            ||| e == Error::Invalid(Fault::Alignment)
            ||| e matches Error::Invalid(Fault::Short { .. })
        },
{
    lemma_span_errors(extents, devices, needed, needed);
}

proof fn lemma_span_errors(
    working: Seq<Extent>,
    devices: Seq<BlockDeviceView>,
    needed: u64,
    remaining: u64,
)
    requires
        devices.len() <= u32::MAX,
    ensures
        span(working, devices, needed, remaining) matches Err(e) ==> {
            ||| e == Error::Invalid(Fault::ExtentRange)
            ||| e == Error::Invalid(Fault::Alignment)
            ||| e matches Error::Invalid(Fault::Short { .. })
        },
    decreases remaining,
{
    if remaining > 0 {
        lemma_pass_errors(working, devices, 0, remaining);
        if let Ok((runs, left)) = span_pass(working, devices, 0, remaining) {
            if runs.len() > 0 && left < remaining {
                lemma_span_errors(working + extents_of(runs), devices, needed, left);
            }
        }
    }
}

} // verus!
