//! What holds of every image that is made.

use crate::commands::commit::{group_total, in_sectors};
use crate::commands::edit::{chains_apart, lemma_total_append};
use crate::commands::make::{
    metadata_made, new_geometry, new_header, new_tables, place_of, MakeArgs, MakeMetadata, PlanView,
    SettingsView,
};
use crate::commands::make_layout::{
    data_start, jobs_of, metadata_end, no_tables, payload_plan, pin_of, reserve_unit, segment_len,
    table_from, tables_from, with_partition, MakeTablesView, PayloadJob,
};
use crate::commands::make_specs::{DeviceSpecView, PartitionSpecView};
use crate::commands::split_util::{group_named, lemma_group_in};
use crate::error::Error;
use crate::format::{
    copy_offset, BlockDeviceView, Extent, GroupView, GEOMETRY_PRIMARY_OFFSET, LP_TARGET_TYPE_LINEAR,
};
use crate::reader::data::{extents_of_partition, sector_total, SuperView};
use crate::reader::load::slot_data;
use crate::reader::parser::copy_at;
use crate::writer::allocation::{align_to, aligned, cap_of, extent_end, first_free, lemma_align_to};
use crate::writer::read_back::{
    law_geometry_read_back, law_slot_read_back, law_tables_read_back, tables_storable,
};
use crate::writer::render::{geometry_bytes, geometry_fault, header_for, slot_bytes};
use crate::writer::spanning::{
    disjoint, extent_of, extents_of, law_placed_disjoint, law_spanning_plan, lemma_found, placed,
    run_sectors, Run,
};
use vstd::prelude::*;

verus! {

/// Whether an extent lies on a device of the table, behind its metadata area and
/// inside it.
pub open spec fn inside(devices: Seq<BlockDeviceView>, e: Extent) -> bool {
    let d = devices[e.target_source as int];
    &&& e.target_type == LP_TARGET_TYPE_LINEAR
    &&& e.target_source < devices.len()
    &&& d.first_logical_sector <= e.target_data
    &&& aligned(e.target_data as int, d.alignment, d.alignment_offset)
    &&& extent_end(e) <= cap_of(d)
}

/// The part of `left` bytes that goes into an extent of `sectors` sectors.
pub open spec fn part_len(sectors: u64, left: int) -> int {
    if sectors * 512 < left {
        sectors * 512
    } else {
        left
    }
}

/// Whether a payload, from `from` up to `to`, goes into extents one after another,
/// as much into each as it holds.
pub open spec fn covers(
    jobs: Seq<PayloadJob>,
    extents: Seq<Extent>,
    partition: usize,
    from: int,
    to: int,
) -> bool
    decreases jobs.len(),
{
    if jobs.len() == 0 {
        from == to && extents.len() == 0
    } else {
        &&& extents.len() > 0
        &&& jobs[0].partition == partition
        &&& jobs[0].input_offset == from
        &&& jobs[0].len == part_len(extents[0].num_sectors, to - from)
        &&& covers(jobs.skip(1), extents.skip(1), partition, from + jobs[0].len, to)
    }
}

/// The sectors that a partition needs.
pub open spec fn needed_by(p: PartitionSpecView) -> int {
    if p.payload is None {
        0
    } else {
        in_sectors(p.payload_len) as int
    }
}

/// Whether a part of a payload goes where its extent lies, and fits in it.
pub open spec fn job_fits(job: PayloadJob, e: Extent) -> bool {
    &&& job.device == e.target_source
    &&& job.sector == e.target_data
    &&& job.len <= e.num_sectors * 512
}

/// Whether a job takes a part of the payload of one of the first `n` partitions.
pub open spec fn job_in(specs: Seq<PartitionSpecView>, job: PayloadJob, n: int) -> bool {
    let spec = specs[job.partition as int];
    &&& job.partition < n
    &&& spec.payload is Some
    &&& job.input_offset + job.len <= spec.payload_len
}

/// Whether the `i`-th partition is as specified: its chain has the sectors that
/// its payload needs, and takes the whole payload in order.
pub open spec fn partition_made(b: MakeTablesView, spec: PartitionSpecView, i: int) -> bool {
    let p = b.partitions[i];
    let first = p.first_extent_index as int;
    let num = p.num_extents as int;
    &&& p.name == spec.name
    &&& p.attributes == spec.attrs
    &&& first + num <= b.extents.len()
    &&& sector_total(b.extents.subrange(first, first + num)) == needed_by(spec)
    &&& spec.payload is None ==> num == 0
    &&& spec.payload is Some ==> covers(
        b.jobs.subrange(first, first + num),
        b.extents.subrange(first, first + num),
        i as usize,
        0,
        spec.payload_len as int,
    )
}

/// What holds of the tables after the first `n` partitions.
pub open spec fn laid_out(
    devices: Seq<BlockDeviceView>,
    specs: Seq<PartitionSpecView>,
    b: MakeTablesView,
    n: int,
) -> bool {
    &&& b.partitions.len() == n
    &&& b.jobs.len() == b.extents.len()
    &&& disjoint(b.extents)
    &&& forall|k: int| 0 <= k < b.extents.len() ==> inside(devices, #[trigger] b.extents[k])
    &&& forall|k: int|
        0 <= k < b.jobs.len() ==> job_fits(#[trigger] b.jobs[k], b.extents[k]) && job_in(
            specs,
            b.jobs[k],
            n,
        )
    &&& forall|i: int| 0 <= i < n ==> partition_made(b, #[trigger] specs[i], i)
    &&& forall|i: int, j: int|
        0 <= i < j < n ==> (#[trigger] b.partitions[i]).first_extent_index
            + b.partitions[i].num_extents <= (#[trigger] b.partitions[j]).first_extent_index
}

proof fn lemma_placed_inside(
    extents: Seq<Extent>,
    devices: Seq<BlockDeviceView>,
    runs: Seq<Run>,
    k: int,
)
    requires
        placed(extents, devices, runs),
        0 <= k < runs.len(),
    ensures
        inside(devices, extent_of(runs[k])),
        runs[k].2 > 0,
    decreases runs.len(),
{
    if k > 0 {
        lemma_placed_inside(extents.push(extent_of(runs[0])), devices, runs.skip(1), k - 1);
        assert(runs.skip(1)[k - 1] == runs[k]);
    }
}

proof fn lemma_runs_total(runs: Seq<Run>)
    ensures
        sector_total(extents_of(runs)) == run_sectors(runs),
        run_sectors(runs) >= 0,
    decreases runs.len(),
{
    if runs.len() > 0 {
        lemma_runs_total(runs.skip(1));
        let a = seq![extent_of(runs[0])];
        assert(extents_of(runs) =~= a + extents_of(runs.skip(1)));
        lemma_total_append(a, extents_of(runs.skip(1)));
        assert(a.drop_last() =~= Seq::<Extent>::empty());
        assert(sector_total(a.drop_last()) == 0);
    }
}

/// Runs that are long enough take the whole payload.
proof fn lemma_jobs(plan: Seq<Run>, partition: usize, payload_len: u64, k: int, offset: int)
    requires
        0 <= k <= plan.len(),
        0 <= offset <= payload_len,
        run_sectors(plan.skip(k)) * 512 >= payload_len - offset,
    ensures
        ({
            let jobs = jobs_of(plan, partition, payload_len, k, offset);
            &&& jobs.len() == plan.len() - k
            &&& covers(
                jobs,
                extents_of(plan.skip(k)),
                partition,
                offset,
                payload_len as int,
            )
            &&& forall|m: int|
                0 <= m < jobs.len() ==> job_fits(#[trigger] jobs[m], extent_of(plan[k + m]))
                    && jobs[m].partition == partition && jobs[m].input_offset + jobs[m].len
                    <= payload_len
        }),
    decreases plan.len() - k,
{
    if k < plan.len() {
        let rest = plan.skip(k);
        let len = segment_len(plan[k].2, offset, payload_len);
        assert(rest[0] == plan[k]);
        assert(rest.skip(1) =~= plan.skip(k + 1));
        lemma_runs_total(plan.skip(k + 1));
        lemma_jobs(plan, partition, payload_len, k + 1, offset + len);
        let jobs = jobs_of(plan, partition, payload_len, k, offset);
        let more = jobs_of(plan, partition, payload_len, k + 1, offset + len);
        assert(jobs.skip(1) =~= more);
        assert(extents_of(rest).skip(1) =~= extents_of(plan.skip(k + 1)));
        assert forall|m: int| 0 <= m < jobs.len() implies job_fits(
            #[trigger] jobs[m],
            extent_of(plan[k + m]),
        ) && jobs[m].partition == partition && jobs[m].input_offset + jobs[m].len <= payload_len by {
            if m > 0 {
                assert(jobs[m] == more[m - 1]);
            }
        }
    } else {
        assert(plan.skip(k) =~= Seq::<Run>::empty());
    }
}

/// The place of a payload is free, and has the sectors that were asked for.
proof fn lemma_payload_plan(
    extents: Seq<Extent>,
    devices: Seq<BlockDeviceView>,
    pin: Option<u32>,
    needed: u64,
)
    requires
        devices.len() <= u32::MAX,
    ensures
        payload_plan(extents, devices, pin, needed) matches Ok(plan) ==> placed(
            extents,
            devices,
            plan,
        ) && run_sectors(plan) == needed,
{
    match pin {
        None => {
            law_spanning_plan(extents, devices, needed);
        },
        Some(device) => {
            if first_free(extents, devices, device, needed) is Ok {
                let sector = first_free(extents, devices, device, needed)->Ok_0;
                let plan = seq![(device, sector, needed)];
                lemma_found(extents, devices, device, needed);
                assert(plan[0] == (device, sector, needed));
                assert(plan.skip(1) =~= Seq::<Run>::empty());
                assert(run_sectors(plan.skip(1)) == 0);
                assert(placed(extents.push(extent_of(plan[0])), devices, plan.skip(1)));
            }
        },
    }
}

/// One more partition keeps what holds of the tables.
proof fn lemma_with_partition(
    devices: Seq<BlockDeviceView>,
    groups: Seq<GroupView>,
    force: bool,
    specs: Seq<PartitionSpecView>,
    b: MakeTablesView,
    n: int,
)
    requires
        devices.len() <= u32::MAX,
        0 <= n < specs.len() <= usize::MAX,
        laid_out(devices, specs, b, n),
        with_partition(devices, groups, force, b, specs[n]) matches Ok(next) && next.extents.len()
            <= u32::MAX,
    ensures
        laid_out(
            devices,
            specs,
            with_partition(devices, groups, force, b, specs[n])->Ok_0,
            n + 1,
        ),
{
    let spec = specs[n];
    let next = with_partition(devices, groups, force, b, spec)->Ok_0;
    let at = b.extents.len() as int;
    let p = next.partitions[n];
    let mut_plan = payload_plan(
        b.extents,
        devices,
        pin_of(devices, spec.device)->Ok_0,
        in_sectors(spec.payload_len),
    );
    if spec.payload is None || spec.payload_len == 0 {
        assert(next.extents.subrange(at, at) =~= Seq::<Extent>::empty());
        assert(next.jobs.subrange(at, at) =~= Seq::<PayloadJob>::empty());
    } else {
        let plan = mut_plan->Ok_0;
        let needed = in_sectors(spec.payload_len);
        lemma_payload_plan(b.extents, devices, pin_of(devices, spec.device)->Ok_0, needed);
        law_placed_disjoint(b.extents, devices, plan);
        lemma_runs_total(plan);
        assert(plan.skip(0) =~= plan);
        lemma_jobs(plan, n as usize, spec.payload_len, 0, 0);
        let jobs = jobs_of(plan, n as usize, spec.payload_len, 0, 0);
        assert(next.extents.subrange(at, at + plan.len()) =~= extents_of(plan));
        assert(next.jobs.subrange(at, at + plan.len()) =~= jobs);
        assert forall|k: int| 0 <= k < next.extents.len() implies inside(
            devices,
            #[trigger] next.extents[k],
        ) by {
            if k < at {
                assert(next.extents[k] == b.extents[k]);
            } else {
                lemma_placed_inside(b.extents, devices, plan, k - at);
            }
        }
        assert forall|k: int| 0 <= k < next.jobs.len() implies job_fits(
            #[trigger] next.jobs[k],
            next.extents[k],
        ) && job_in(specs, next.jobs[k], n + 1) by {
            if k < at {
                assert(next.jobs[k] == b.jobs[k]);
            } else {
                assert(next.jobs[k] == jobs[k - at]);
            }
        }
    }
    assert forall|i: int| 0 <= i < n + 1 implies partition_made(next, #[trigger] specs[i], i) by {
        if i < n {
            let q = b.partitions[i];
            let first = q.first_extent_index as int;
            let num = q.num_extents as int;
            assert(partition_made(b, specs[i], i));
            assert(next.partitions[i] == q);
            assert(next.extents.subrange(first, first + num) =~= b.extents.subrange(
                first,
                first + num,
            ));
            assert(next.jobs.subrange(first, first + num) =~= b.jobs.subrange(first, first + num));
        }
    }
    assert forall|i: int, j: int| 0 <= i < j < n + 1 implies (
    #[trigger] next.partitions[i]).first_extent_index + next.partitions[i].num_extents <= (
    #[trigger] next.partitions[j]).first_extent_index by {
        assert(next.partitions[i] == b.partitions[i]);
        assert(partition_made(b, specs[i], i));
        if j < n {
            assert(next.partitions[j] == b.partitions[j]);
        }
    }
}

/// The tables only grow.
pub proof fn lemma_tables_grow(
    devices: Seq<BlockDeviceView>,
    groups: Seq<GroupView>,
    force: bool,
    specs: Seq<PartitionSpecView>,
    i: int,
    b: MakeTablesView,
)
    ensures
        tables_from(devices, groups, force, specs, i, b) matches Ok(r) ==> r.extents.len()
            >= b.extents.len(),
    decreases specs.len() - i,
{
    if 0 <= i < specs.len() {
        match with_partition(devices, groups, force, b, specs[i]) {
            Err(_) => {},
            Ok(next) => {
                lemma_tables_grow(devices, groups, force, specs, i + 1, next);
            },
        }
    }
}

proof fn lemma_tables_from(
    devices: Seq<BlockDeviceView>,
    groups: Seq<GroupView>,
    force: bool,
    specs: Seq<PartitionSpecView>,
    i: int,
    b: MakeTablesView,
)
    requires
        devices.len() <= u32::MAX,
        0 <= i <= specs.len() <= usize::MAX,
        laid_out(devices, specs, b, i),
        tables_from(devices, groups, force, specs, i, b) matches Ok(r) && r.extents.len()
            <= u32::MAX,
    ensures
        laid_out(
            devices,
            specs,
            tables_from(devices, groups, force, specs, i, b)->Ok_0,
            specs.len() as int,
        ),
    decreases specs.len() - i,
{
    if i < specs.len() {
        let next = with_partition(devices, groups, force, b, specs[i])->Ok_0;
        lemma_tables_grow(devices, groups, force, specs, i + 1, next);
        lemma_with_partition(devices, groups, force, specs, b, i);
        lemma_tables_from(devices, groups, force, specs, i + 1, next);
    }
}

/// The layout of a new image: no two extents overlap; each is aligned, inside its
/// device and behind the metadata area; each partition has the sectors that its
/// payload needs, and its extents take the whole payload in order.
pub proof fn law_layout(
    devices: Seq<BlockDeviceView>,
    groups: Seq<GroupView>,
    force: bool,
    specs: Seq<PartitionSpecView>,
)
    requires
        devices.len() <= u32::MAX,
        specs.len() <= usize::MAX,
        tables_from(
            devices,
            groups,
            force,
            specs,
            0,
            no_tables(groups.len()),
        ) matches Ok(b) && b.extents.len() <= u32::MAX,
    ensures
        ({
            let b = tables_from(
                devices,
                groups,
                force,
                specs,
                0,
                no_tables(groups.len()),
            )->Ok_0;
            &&& laid_out(devices, specs, b, specs.len() as int)
            &&& chains_apart(b.partitions, b.extents)
        }),
{
    let start = no_tables(groups.len());
    let b = tables_from(devices, groups, force, specs, 0, start)->Ok_0;
    lemma_tables_from(devices, groups, force, specs, 0, start);
    assert forall|j: int| 0 <= j < b.partitions.len() && (#[trigger] b.partitions[j]).num_extents
        > 0 implies b.partitions[j].first_extent_index + b.partitions[j].num_extents
        <= b.extents.len() by {
        assert(partition_made(b, specs[j], j));
    }
}

/// Whether the groups with a limit keep it, and their sectors are counted right.
spec fn groups_kept(groups: Seq<GroupView>, b: MakeTablesView, n: int) -> bool {
    &&& b.used.len() == groups.len()
    &&& forall|g: int|
        0 <= g < groups.len() && (#[trigger] groups[g]).maximum_size > 0 ==> {
            &&& b.used[g] == group_total(b.partitions, b.extents, g as u32, None, n)
            &&& b.used[g] <= groups[g].maximum_size as int / 512
        }
}

/// The count of a group depends on the chains of its partitions only.
proof fn lemma_same_count(b: MakeTablesView, next: MakeTablesView, g: u32, n: int)
    requires
        0 <= n <= b.partitions.len() <= next.partitions.len(),
        forall|i: int| 0 <= i < n ==> #[trigger] next.partitions[i] == b.partitions[i],
        forall|i: int|
            0 <= i < n ==> (#[trigger] b.partitions[i]).first_extent_index
                + b.partitions[i].num_extents <= b.extents.len(),
        b.extents.len() <= next.extents.len(),
        forall|k: int| 0 <= k < b.extents.len() ==> #[trigger] next.extents[k] == b.extents[k],
    ensures
        group_total(next.partitions, next.extents, g, None, n) == group_total(
            b.partitions,
            b.extents,
            g,
            None,
            n,
        ),
    decreases n,
{
    if n > 0 {
        lemma_same_count(b, next, g, n - 1);
        let p = b.partitions[n - 1];
        assert(next.partitions[n - 1] == p);
        assert(extents_of_partition(next.extents, p) =~= extents_of_partition(b.extents, p));
    }
}

proof fn lemma_groups_step(
    devices: Seq<BlockDeviceView>,
    groups: Seq<GroupView>,
    specs: Seq<PartitionSpecView>,
    b: MakeTablesView,
    n: int,
)
    requires
        devices.len() <= u32::MAX,
        groups.len() <= u32::MAX,
        0 <= n < specs.len() <= usize::MAX,
        laid_out(devices, specs, b, n),
        groups_kept(groups, b, n),
        with_partition(devices, groups, false, b, specs[n]) matches Ok(next) && next.extents.len()
            <= u32::MAX,
    ensures
        groups_kept(groups, with_partition(devices, groups, false, b, specs[n])->Ok_0, n + 1),
{
    let spec = specs[n];
    let next = with_partition(devices, groups, false, b, spec)->Ok_0;
    lemma_with_partition(devices, groups, false, specs, b, n);
    lemma_group_in(groups, spec.group, 0);
    let own = group_named(groups, spec.group, 0)->Some_0;
    let p = next.partitions[n];
    assert(partition_made(next, spec, n));
    let first = p.first_extent_index as int;
    let num = p.num_extents as int;
    assert(sector_total(extents_of_partition(next.extents, p)) == needed_by(spec)) by {
        if num > 0 {
            assert(extents_of_partition(next.extents, p) =~= next.extents.subrange(
                first,
                first + num,
            ));
        } else {
            assert(extents_of_partition(next.extents, p) =~= Seq::<Extent>::empty());
            assert(next.extents.subrange(first, first + num) =~= Seq::<Extent>::empty());
        }
    }
    assert forall|i: int| 0 <= i < n implies (#[trigger] b.partitions[i]).first_extent_index
        + b.partitions[i].num_extents <= b.extents.len() by {
        assert(partition_made(b, specs[i], i));
    }
    assert forall|g: int| 0 <= g < groups.len() && (#[trigger] groups[g]).maximum_size > 0 implies {
        &&& next.used[g] == group_total(next.partitions, next.extents, g as u32, None, n + 1)
        &&& next.used[g] <= groups[g].maximum_size as int / 512
    } by {
        lemma_same_count(b, next, g as u32, n);
    }
}

proof fn lemma_groups_from(
    devices: Seq<BlockDeviceView>,
    groups: Seq<GroupView>,
    specs: Seq<PartitionSpecView>,
    i: int,
    b: MakeTablesView,
)
    requires
        devices.len() <= u32::MAX,
        groups.len() <= u32::MAX,
        0 <= i <= specs.len() <= usize::MAX,
        laid_out(devices, specs, b, i),
        groups_kept(groups, b, i),
        tables_from(devices, groups, false, specs, i, b) matches Ok(r) && r.extents.len()
            <= u32::MAX,
    ensures
        groups_kept(
            groups,
            tables_from(devices, groups, false, specs, i, b)->Ok_0,
            specs.len() as int,
        ),
    decreases specs.len() - i,
{
    if i < specs.len() {
        let next = with_partition(devices, groups, false, b, specs[i])->Ok_0;
        lemma_tables_grow(devices, groups, false, specs, i + 1, next);
        lemma_with_partition(devices, groups, false, specs, b, i);
        lemma_groups_step(devices, groups, specs, b, i);
        lemma_groups_from(devices, groups, specs, i + 1, next);
    }
}

/// Where it was not forced, the partitions of a group in a new image take no more
/// than the group's largest size.
pub proof fn law_made_within_groups(
    devices: Seq<BlockDeviceView>,
    groups: Seq<GroupView>,
    specs: Seq<PartitionSpecView>,
    g: int,
)
    requires
        devices.len() <= u32::MAX,
        groups.len() <= u32::MAX,
        specs.len() <= usize::MAX,
        tables_from(
            devices,
            groups,
            false,
            specs,
            0,
            no_tables(groups.len()),
        ) matches Ok(b) && b.extents.len() <= u32::MAX,
        0 <= g < groups.len(),
        groups[g].maximum_size > 0,
    ensures
        ({
            let b = tables_from(
                devices,
                groups,
                false,
                specs,
                0,
                no_tables(groups.len()),
            )->Ok_0;
            group_total(b.partitions, b.extents, g as u32, None, specs.len() as int)
                <= groups[g].maximum_size as int / 512
        }),
{
    let start = no_tables(groups.len());
    lemma_groups_from(devices, groups, specs, 0, start);
}

/// The first sector for data on each device of the table.
proof fn lemma_table_first(
    specs: Seq<DeviceSpecView>,
    start: u64,
    i: int,
    done: Seq<BlockDeviceView>,
    k: int,
)
    requires
        0 <= i == done.len() <= specs.len(),
        forall|m: int|
            0 <= m < done.len() ==> (#[trigger] done[m]).first_logical_sector >= start,
        table_from(specs, start, i, done) is Ok,
        0 <= k < specs.len(),
    ensures
        table_from(specs, start, i, done)->Ok_0.len() == specs.len(),
        table_from(specs, start, i, done)->Ok_0[k].first_logical_sector >= start,
    decreases specs.len() - i,
{
    if i < specs.len() {
        let d = specs[i];
        lemma_align_to(start, d.alignment, d.alignment_offset);
        let first = align_to(start, d.alignment, d.alignment_offset)->Some_0;
        let entry = BlockDeviceView {
            first_logical_sector: first,
            alignment: d.alignment,
            alignment_offset: d.alignment_offset,
            size: d.size,
            partition_name: d.name,
        };
        lemma_table_first(specs, start, i + 1, done.push(entry), k);
    }
}

/// Rounding up to whole units loses nothing.
pub proof fn lemma_rounded(end: int, unit: int)
    requires
        0 <= end,
        unit > 0,
    ensures
        end <= (end + unit - 1) / unit * unit < end + unit,
{
    let blocks = (end + unit - 1) / unit;
    vstd::arithmetic::div_mod::lemma_fundamental_div_mod(end + unit - 1, unit);
    vstd::arithmetic::mul::lemma_mul_is_commutative(blocks, unit);
}

/// Data never lies on metadata: on every device it starts behind the geometries
/// and all copies of all slots.
pub proof fn law_data_behind_metadata(
    specs: Seq<DeviceSpecView>,
    max: u32,
    count: u32,
    default_alignment: u32,
    k: int,
)
    requires
        max <= 16_777_216,
        count <= 8,
        0 <= k < specs.len(),
        table_from(
            specs,
            data_start(max, count, default_alignment) as u64,
            0,
            Seq::empty(),
        ) is Ok,
    ensures
        table_from(
            specs,
            data_start(max, count, default_alignment) as u64,
            0,
            Seq::empty(),
        )->Ok_0[k].first_logical_sector * 512 >= metadata_end(max, count),
{
    let unit = reserve_unit(default_alignment);
    let area = 2 * count * max;
    assert(0 <= area <= 2 * 8 * 16_777_216) by (nonlinear_arith)
        requires
            0 <= max <= 16_777_216,
            0 <= count <= 8,
            area == 2 * count * max,
    ;
    lemma_rounded(metadata_end(max, count), unit);
    lemma_table_first(
        specs,
        data_start(max, count, default_alignment) as u64,
        0,
        Seq::empty(),
        k,
    );
}

/// A new image reads back: with the geometry and the slot in their places, every
/// slot that was made loads with the tables that were planned.
pub proof fn law_made_image_loads(
    c: Seq<u8>,
    format: Seq<char>,
    args: MakeArgs,
    s: SettingsView,
    p: PlanView,
    slot: u64,
)
    requires
        geometry_fault(new_geometry(args, s)) is None,
        slot < args.metadata_slots,
        slot_bytes(new_header(), new_tables(s, p), s.metadata_max_size) is Ok,
        tables_storable(new_tables(s, p)),
        copy_offset(args.metadata_slots + slot + 1, s.metadata_max_size as int) <= c.len()
            <= u64::MAX,
        c.subrange(0x1000, 0x1034) == geometry_bytes(new_geometry(args, s)),
        c.subrange(
            copy_offset(slot as int, s.metadata_max_size as int),
            copy_offset(slot as int, s.metadata_max_size as int) + s.metadata_max_size,
        ) == slot_bytes(new_header(), new_tables(s, p), s.metadata_max_size)->Ok_0,
    ensures
        slot_data(c, format, slot) == Ok::<SuperView, Error>(
            SuperView {
                image_format: format,
                image_size: c.len() as u64,
                geometry: new_geometry(args, s),
                geometry_offset: GEOMETRY_PRIMARY_OFFSET,
                header: header_for(new_header(), new_tables(s, p)),
                metadata_offset: copy_offset(slot as int, s.metadata_max_size as int) as u64,
                metadata_slot: slot,
                tables: new_tables(s, p),
            },
        ),
{
    let max = s.metadata_max_size as int;
    let count = args.metadata_slots as int;
    let g = new_geometry(args, s);
    let t = new_tables(s, p);
    let at = copy_offset(slot as int, max);
    assert(0 <= slot * max && slot * max + max <= (count + slot + 1) * max) by (nonlinear_arith)
        requires
            0 <= slot < count,
            max > 0,
    ;
    law_geometry_read_back(c, GEOMETRY_PRIMARY_OFFSET, g);
    law_slot_read_back(c, at as u64, new_header(), t, max as u32);
    law_tables_read_back(c, at as u64, new_header(), t, max as u32);
    assert(copy_at(c, g, slot as int) == Some((header_for(new_header(), t), at as u64)));
}

/// What is rendered of a new image loads as planned: with the geometry in its place, and
/// the slot in the primary place of one of the slots, that slot loads with the planned
/// partitions and extents, the groups and the devices, under the geometry that was asked
/// for. Every slot that was chosen has its places.
pub proof fn law_rendered_loads(
    c: Seq<u8>,
    format: Seq<char>,
    args: MakeArgs,
    s: SettingsView,
    p: PlanView,
    m: MakeMetadata,
    k: int,
)
    requires
        metadata_made(args, s, p, Ok(m)),
        0 < s.metadata_max_size <= 16_777_216,
        args.metadata_slots <= 8,
        args.block_size == 512 || args.block_size == 4096,
        forall|j: int| 0 <= j < s.slots.len() ==> #[trigger] s.slots[j] < args.metadata_slots,
        tables_storable(new_tables(s, p)),
        0 <= k < m.places@.len(),
        m.places@[k].backup + s.metadata_max_size <= c.len() <= u64::MAX,
        c.subrange(0x1000, 0x1034) == m.geometry@,
        c.subrange(
            m.places@[k].primary as int,
            m.places@[k].primary + s.metadata_max_size,
        ) == m.slot@,
    ensures
        m.places@.len() == s.slots.len(),
        m.places@[k].slot == s.slots[k],
        slot_data(c, format, s.slots[k]) matches Ok(v) && {
            &&& v.tables.partitions == p.tables.partitions
            &&& v.tables.extents == p.tables.extents
            &&& v.tables.groups == s.groups
            &&& v.tables.block_devices == p.devices
            &&& v.geometry.metadata_max_size == s.metadata_max_size
            &&& v.geometry.metadata_slot_count == args.metadata_slots
            &&& v.geometry.logical_block_size == args.block_size
            &&& v.header.major_version == 10
            &&& v.metadata_offset == m.places@[k].primary
        },
{
    let slot = s.slots[k];
    let max = s.metadata_max_size as int;
    let count = args.metadata_slots as int;
    assert(m.places@[k] == place_of(slot, s.metadata_max_size, args.metadata_slots));
    assert(0 <= slot * max && slot * max <= 16 * 16_777_216) by (nonlinear_arith)
        requires
            0 <= slot < count <= 8,
            0 < max <= 16_777_216,
    ;
    assert((count + slot + 1) * max == (count + slot) * max + max && 0 <= (count + slot) * max
        && (count + slot) * max <= 16 * 16_777_216) by (nonlinear_arith)
        requires
            0 <= slot < count <= 8,
            0 < max <= 16_777_216,
    ;
    law_made_image_loads(c, format, args, s, p, slot);
}

} // verus!
