//! What is read of a partition is what was written to it.

use crate::commands::add::{add_plan, added, AddArgs};
use crate::commands::edit::lemma_total_append;
use crate::commands::make::{plan_of, MakeArgs, SettingsView};
use crate::commands::make_layout::{
    data_start, device_table, metadata_end, reserved_bytes, size_fault, table_from, MakeTablesView,
    PayloadJob,
};
use crate::commands::make_laws::{
    covers, inside, job_fits, job_in, laid_out, law_data_behind_metadata, law_layout, needed_by,
    partition_made,
};
use crate::commands::make_specs::{DeviceSpecView, PartitionSpecView};
use crate::commands::place::law_place_is_free;
use crate::encoding::{overwritten, zeros};
use crate::format::{BlockDeviceView, Extent, PartitionView, LP_TARGET_TYPE_LINEAR};
use crate::reader::data::{extents_of_partition, sector_total, SuperView};
use crate::reader::extent_stream::{
    chain_data, extent_data, extent_len, lemma_chain_data_append, readable, ExtentSource,
};
use crate::text::texts;
use crate::writer::allocation::{align_to, clear, extent_end, on_device};
use crate::writer::spanning::{disjoint, extent_of};
use vstd::prelude::*;

verus! {

/// The part of a payload that a job writes.
pub open spec fn job_data(payloads: Seq<Seq<u8>>, job: PayloadJob) -> Seq<u8> {
    payloads[job.partition as int].subrange(
        job.input_offset as int,
        job.input_offset + job.len,
    )
}

/// The files after a job.
pub open spec fn job_written(
    files: Seq<Seq<u8>>,
    payloads: Seq<Seq<u8>>,
    job: PayloadJob,
) -> Seq<Seq<u8>> {
    files.update(
        job.device as int,
        overwritten(files[job.device as int], job.sector * 512, job_data(payloads, job)),
    )
}

/// The files after all jobs, in order.
pub open spec fn jobs_written(
    files: Seq<Seq<u8>>,
    payloads: Seq<Seq<u8>>,
    jobs: Seq<PayloadJob>,
) -> Seq<Seq<u8>>
    decreases jobs.len(),
{
    if jobs.len() == 0 {
        files
    } else {
        job_written(jobs_written(files, payloads, jobs.drop_last()), payloads, jobs.last())
    }
}

/// Whether the files have the sizes of the devices, and hold nothing but zero
/// bytes where data may lie.
pub open spec fn blank(devices: Seq<BlockDeviceView>, files: Seq<Seq<u8>>) -> bool {
    &&& files.len() == devices.len()
    &&& forall|d: int|
        0 <= d < devices.len() ==> (#[trigger] files[d]).len() == devices[d].size
    &&& forall|d: int, i: int|
        0 <= d < devices.len() && devices[d].first_logical_sector * 512 <= i < devices[d].size
            ==> #[trigger] files[d][i] == 0
}

/// Whether two sets of files are the same where data may lie.
pub open spec fn same_data(
    devices: Seq<BlockDeviceView>,
    files: Seq<Seq<u8>>,
    others: Seq<Seq<u8>>,
) -> bool {
    &&& files.len() == others.len() == devices.len()
    &&& forall|d: int|
        0 <= d < devices.len() ==> (#[trigger] files[d]).len() == others[d].len()
    &&& forall|d: int, i: int|
        0 <= d < devices.len() && devices[d].first_logical_sector * 512 <= i < files[d].len()
            ==> #[trigger] files[d][i] == others[d][i]
}

/// What the files hold in the place of an extent.
spec fn held_at(files: Seq<Seq<u8>>, e: Extent) -> Seq<u8> {
    files[e.target_source as int].subrange(e.target_data * 512, extent_end(e) * 512)
}

/// What an extent holds after its job: the part of the payload, and zero bytes.
spec fn filled(payloads: Seq<Seq<u8>>, job: PayloadJob, e: Extent) -> Seq<u8> {
    job_data(payloads, job) + zeros(e.num_sectors * 512 - job.len)
}

/// Whether every extent lies inside the file of its device.
spec fn in_files(files: Seq<Seq<u8>>, extents: Seq<Extent>) -> bool {
    forall|k: int|
        0 <= k < extents.len() ==> (#[trigger] extents[k]).target_source < files.len()
            && extent_end(extents[k]) * 512 <= files[extents[k].target_source as int].len()
}

/// Whether every job writes into its extent, out of a payload that has the data.
spec fn jobs_sound(payloads: Seq<Seq<u8>>, jobs: Seq<PayloadJob>, extents: Seq<Extent>) -> bool {
    &&& jobs.len() == extents.len()
    &&& forall|k: int|
        0 <= k < jobs.len() ==> job_fits(#[trigger] jobs[k], extents[k]) && jobs[k].partition
            < payloads.len() && jobs[k].input_offset + jobs[k].len
            <= payloads[jobs[k].partition as int].len()
}

proof fn lemma_overwritten(s: Seq<u8>, at: int, b: Seq<u8>)
    requires
        0 <= at,
        at + b.len() <= s.len(),
    ensures
        overwritten(s, at, b).len() == s.len(),
        forall|i: int|
            0 <= i < s.len() ==> #[trigger] overwritten(s, at, b)[i] == (if at <= i < at + b.len() {
                b[i - at]
            } else {
                s[i]
            }),
{
}

/// The first `m` jobs fill their extents and leave the others alone.
proof fn lemma_jobs_written(
    files: Seq<Seq<u8>>,
    payloads: Seq<Seq<u8>>,
    jobs: Seq<PayloadJob>,
    extents: Seq<Extent>,
    m: int,
)
    requires
        0 <= m <= jobs.len(),
        jobs_sound(payloads, jobs, extents),
        in_files(files, extents),
        disjoint(extents),
        forall|k: int|
            0 <= k < extents.len() ==> held_at(files, #[trigger] extents[k]) == zeros(
                extents[k].num_sectors * 512,
            ),
        forall|k: int|
            0 <= k < extents.len() ==> (#[trigger] extents[k]).target_type
                == LP_TARGET_TYPE_LINEAR,
    ensures
        ({
            let now = jobs_written(files, payloads, jobs.take(m));
            &&& now.len() == files.len()
            &&& forall|d: int| 0 <= d < files.len() ==> (#[trigger] now[d]).len() == files[d].len()
            &&& forall|k: int|
                0 <= k < extents.len() ==> held_at(now, #[trigger] extents[k]) == (if k < m {
                    filled(payloads, jobs[k], extents[k])
                } else {
                    zeros(extents[k].num_sectors * 512)
                })
        }),
    decreases m,
{
    if m == 0 {
        assert(jobs.take(0) =~= Seq::<PayloadJob>::empty());
    } else {
        lemma_jobs_written(files, payloads, jobs, extents, m - 1);
        let before = jobs_written(files, payloads, jobs.take(m - 1));
        let now = jobs_written(files, payloads, jobs.take(m));
        let job = jobs[m - 1];
        let own = extents[m - 1];
        let d = job.device as int;
        let at = job.sector * 512;
        let data = job_data(payloads, job);
        assert(jobs.take(m).drop_last() =~= jobs.take(m - 1));
        assert(jobs.take(m).last() == job);
        assert(job_fits(job, own));
        assert(data.len() == job.len);
        assert(own.target_source < files.len());
        assert(before[d].len() == files[d].len());
        lemma_overwritten(before[d], at, data);
        assert(now == before.update(d, overwritten(before[d], at, data)));
        assert forall|k: int| 0 <= k < extents.len() implies held_at(now, #[trigger] extents[k])
            == (if k < m {
            filled(payloads, jobs[k], extents[k])
        } else {
            zeros(extents[k].num_sectors * 512)
        }) by {
            let e = extents[k];
            let s = e.target_source as int;
            assert(e.target_source < files.len());
            assert(before[s].len() == files[s].len());
            let old_part = held_at(before, e);
            let new_part = held_at(now, e);
            if k == m - 1 {
                assert(old_part == zeros(e.num_sectors * 512));
                assert forall|i: int| 0 <= i < new_part.len() implies new_part[i] == filled(
                    payloads,
                    job,
                    e,
                )[i] by {
                    assert(new_part[i] == now[s][at + i]);
                    assert(old_part[i] == before[s][at + i]);
                }
                assert(new_part =~= filled(payloads, job, e));
            } else if s == d && e.num_sectors > 0 && own.num_sectors > 0 {
                if k < m - 1 {
                    assert(extents[k] == e && extents[m - 1] == own);
                } else {
                    assert(extents[m - 1] == own && extents[k] == e);
                }
                assert(extent_end(e) <= own.target_data || extent_end(own) <= e.target_data);
                assert forall|i: int| 0 <= i < new_part.len() implies new_part[i] == old_part[i] by {
                    let p = e.target_data * 512 + i;
                    assert(new_part[i] == now[s][p]);
                    assert(old_part[i] == before[s][p]);
                }
                assert(new_part =~= old_part);
            } else if s == d {
                if own.num_sectors == 0 {
                    assert(data.len() == 0);
                    assert(now[s] =~= before[s]);
                }
                assert(new_part =~= old_part);
            } else {
                assert(now[s] == before[s]);
            }
        }
    }
}

/// The data of extents that take a payload in order.
proof fn lemma_covered<D: ExtentSource>(
    d: &D,
    payloads: Seq<Seq<u8>>,
    jobs: Seq<PayloadJob>,
    extents: Seq<Extent>,
    partition: usize,
    from: int,
    to: int,
)
    requires
        covers(jobs, extents, partition, from, to),
        jobs.len() == extents.len(),
        partition < payloads.len(),
        0 <= from <= to <= payloads[partition as int].len(),
        forall|k: int|
            0 <= k < jobs.len() ==> extent_data(d, #[trigger] extents[k]) == filled(
                payloads,
                jobs[k],
                extents[k],
            ),
    ensures
        sector_total(extents) * 512 >= to - from,
        chain_data(d, extents) == payloads[partition as int].subrange(from, to) + zeros(
            sector_total(extents) * 512 - (to - from),
        ),
    decreases jobs.len(),
{
    let payload = payloads[partition as int];
    if jobs.len() == 0 {
        assert(chain_data(d, extents) =~= payload.subrange(from, to) + zeros(0));
    } else {
        let e = extents[0];
        let job = jobs[0];
        let next = from + job.len;
        let rest = extents.skip(1);
        assert forall|k: int| 0 <= k < jobs.skip(1).len() implies extent_data(
            d,
            #[trigger] rest[k],
        ) == filled(payloads, jobs.skip(1)[k], rest[k]) by {
            assert(rest[k] == extents[k + 1]);
        }
        lemma_covered(d, payloads, jobs.skip(1), rest, partition, next, to);
        let head = seq![e];
        assert(extents =~= head + rest);
        lemma_chain_data_append(d, head, rest);
        lemma_total_append(head, rest);
        assert(head.drop_last() =~= Seq::<Extent>::empty());
        assert(sector_total(head.drop_last()) == 0);
        assert(sector_total(head) == e.num_sectors);
        assert(chain_data(d, head.drop_last()) =~= Seq::<u8>::empty());
        assert(chain_data(d, head) =~= extent_data(d, e));
        assert(extent_data(d, extents[0]) == filled(payloads, job, e));
        let tail = sector_total(rest) * 512 - (to - next);
        let slack = e.num_sectors * 512 - job.len;
        assert(slack > 0 ==> next == to);
        assert(chain_data(d, extents) =~= payload.subrange(from, to) + zeros(
            sector_total(extents) * 512 - (to - from),
        ));
    }
}

/// The sizes of the devices of a table.
proof fn lemma_table_sizes(
    specs: Seq<DeviceSpecView>,
    start: u64,
    i: int,
    done: Seq<BlockDeviceView>,
)
    requires
        0 <= i == done.len() <= specs.len(),
        forall|m: int| 0 <= m < done.len() ==> (#[trigger] done[m]).size == specs[m].size,
        table_from(specs, start, i, done) is Ok,
    ensures
        ({
            let all = table_from(specs, start, i, done)->Ok_0;
            &&& all.len() == specs.len()
            &&& forall|m: int| 0 <= m < all.len() ==> (#[trigger] all[m]).size == specs[m].size
        }),
    decreases specs.len() - i,
{
    if i < specs.len() {
        let d = specs[i];
        let first = align_to(start, d.alignment, d.alignment_offset)->Some_0;
        let entry = BlockDeviceView {
            first_logical_sector: first,
            alignment: d.alignment,
            alignment_offset: d.alignment_offset,
            size: d.size,
            partition_name: d.name,
        };
        lemma_table_sizes(specs, start, i + 1, done.push(entry));
    }
}

/// Devices that pass the check of their sizes have at least a sector.
proof fn lemma_size_fault(specs: Seq<DeviceSpecView>, reserved: u64, i: int)
    requires
        0 <= i <= specs.len(),
        size_fault(specs, reserved, i) is None,
    ensures
        forall|m: int| i <= m < specs.len() ==> (#[trigger] specs[m]).size >= 512,
    decreases specs.len() - i,
{
    if i < specs.len() {
        lemma_size_fault(specs, reserved, i + 1);
    }
}

/// Before anything is written, every extent lies in the file of its device and
/// holds zero bytes.
proof fn lemma_blank_extents(
    devices: Seq<BlockDeviceView>,
    specs: Seq<PartitionSpecView>,
    b: MakeTablesView,
    files: Seq<Seq<u8>>,
)
    requires
        laid_out(devices, specs, b, specs.len() as int),
        forall|k: int| 0 <= k < devices.len() ==> (#[trigger] devices[k]).size >= 512,
        blank(devices, files),
    ensures
        in_files(files, b.extents),
        forall|k: int|
            0 <= k < b.extents.len() ==> held_at(files, #[trigger] b.extents[k]) == zeros(
                b.extents[k].num_sectors * 512,
            ),
{
    assert forall|k: int| 0 <= k < b.extents.len() implies (
    #[trigger] b.extents[k]).target_source < files.len() && extent_end(b.extents[k]) * 512
        <= files[b.extents[k].target_source as int].len() && held_at(files, b.extents[k]) == zeros(
        b.extents[k].num_sectors * 512,
    ) by {
        let e = b.extents[k];
        let n = e.target_source as int;
        assert(inside(devices, e));
        assert(devices[n].size >= 512);
        assert(files[n].len() == devices[n].size);
        let part = held_at(files, e);
        assert forall|x: int| 0 <= x < part.len() implies part[x] == 0 by {
            assert(part[x] == files[n][e.target_data * 512 + x]);
        }
        assert(part =~= zeros(e.num_sectors * 512));
    }
}

/// Afterwards every extent holds its part of a payload.
proof fn lemma_extents_filled<D: ExtentSource>(
    d: &D,
    devices: Seq<BlockDeviceView>,
    specs: Seq<PartitionSpecView>,
    b: MakeTablesView,
    payloads: Seq<Seq<u8>>,
    before: Seq<Seq<u8>>,
    after: Seq<Seq<u8>>,
)
    requires
        laid_out(devices, specs, b, specs.len() as int),
        forall|k: int| 0 <= k < devices.len() ==> (#[trigger] devices[k]).size >= 512,
        blank(devices, before),
        same_data(devices, jobs_written(before, payloads, b.jobs), after),
        payloads.len() == specs.len(),
        forall|k: int|
            0 <= k < specs.len() && (#[trigger] specs[k]).payload is Some ==> payloads[k].len()
                == specs[k].payload_len,
        forall|k: u32| k < devices.len() ==> #[trigger] d.device(k) == Some(after[k as int]),
    ensures
        forall|k: int|
            0 <= k < b.extents.len() ==> extent_data(d, #[trigger] b.extents[k]) == filled(
                payloads,
                b.jobs[k],
                b.extents[k],
            ) && readable(d, b.extents[k]),
{
    lemma_blank_extents(devices, specs, b, before);
    assert forall|k: int| 0 <= k < b.jobs.len() implies job_fits(
        #[trigger] b.jobs[k],
        b.extents[k],
    ) && b.jobs[k].partition < payloads.len() && b.jobs[k].input_offset + b.jobs[k].len
        <= payloads[b.jobs[k].partition as int].len() by {
        assert(job_in(specs, b.jobs[k], specs.len() as int));
    }
    assert forall|k: int| 0 <= k < b.extents.len() implies (#[trigger] b.extents[k]).target_type
        == LP_TARGET_TYPE_LINEAR by {
        assert(inside(devices, b.extents[k]));
    }
    let m = b.jobs.len() as int;
    lemma_jobs_written(before, payloads, b.jobs, b.extents, m);
    assert(b.jobs.take(m) =~= b.jobs);
    let now = jobs_written(before, payloads, b.jobs);
    assert forall|k: int| 0 <= k < b.extents.len() implies extent_data(d, #[trigger] b.extents[k])
        == filled(payloads, b.jobs[k], b.extents[k]) && readable(d, b.extents[k]) by {
        let e = b.extents[k];
        let n = e.target_source as int;
        assert(inside(devices, e));
        assert(e.target_source < before.len());
        assert(d.device(e.target_source) == Some(after[n]));
        assert(now[n].len() == after[n].len());
        assert(now[n].len() == before[n].len());
        assert(before[n].len() == devices[n].size);
        assert(extent_len(e) == e.num_sectors * 512);
        let part = held_at(now, e);
        assert forall|x: int| 0 <= x < part.len() implies extent_data(d, e)[x] == part[x] by {
            assert(part[x] == now[n][e.target_data * 512 + x]);
        }
        assert(extent_data(d, e) =~= part);
    }
}

/// The chain of a partition whose extents hold their parts of its payload.
proof fn lemma_partition_reads<D: ExtentSource>(
    d: &D,
    b: MakeTablesView,
    spec: PartitionSpecView,
    payloads: Seq<Seq<u8>>,
    i: int,
)
    requires
        0 <= i < payloads.len() <= usize::MAX,
        partition_made(b, spec, i),
        b.jobs.len() == b.extents.len(),
        spec.payload is Some ==> payloads[i].len() == spec.payload_len,
        forall|k: int|
            0 <= k < b.extents.len() ==> extent_data(d, #[trigger] b.extents[k]) == filled(
                payloads,
                b.jobs[k],
                b.extents[k],
            ) && readable(d, b.extents[k]),
    ensures
        ({
            let chain = extents_of_partition(b.extents, b.partitions[i]);
            &&& chain_data(d, chain) == (if spec.payload is Some {
                payloads[i] + zeros(needed_by(spec) * 512 - payloads[i].len())
            } else {
                Seq::empty()
            })
            &&& forall|k: int| 0 <= k < chain.len() ==> readable(d, #[trigger] chain[k])
        }),
{
    let p = b.partitions[i];
    let first = p.first_extent_index as int;
    let num = p.num_extents as int;
    let chain = b.extents.subrange(first, first + num);
    let jobs = b.jobs.subrange(first, first + num);
    assert(extents_of_partition(b.extents, p) =~= chain);
    assert forall|k: int| 0 <= k < chain.len() implies readable(d, #[trigger] chain[k]) by {
        assert(chain[k] == b.extents[first + k]);
    }
    if spec.payload is Some {
        assert forall|k: int| 0 <= k < jobs.len() implies extent_data(d, #[trigger] chain[k])
            == filled(payloads, jobs[k], chain[k]) by {
            assert(chain[k] == b.extents[first + k]);
        }
        lemma_covered(d, payloads, jobs, chain, i as usize, 0, spec.payload_len as int);
        assert(payloads[i].subrange(0, spec.payload_len as int) =~= payloads[i]);
    } else {
        assert(chain =~= Seq::<Extent>::empty());
        assert(chain_data(d, chain) =~= Seq::<u8>::empty());
    }
}

/// What is extracted of a new image is what was put in: with zeroed files, the
/// parts of the payloads written where the plan says, and whatever metadata in
/// front of the data, the chain of each partition reads back its payload, filled
/// up with zero bytes to whole sectors.
pub proof fn law_payloads_read_back<D: ExtentSource>(
    d: &D,
    args: MakeArgs,
    s: SettingsView,
    specs: Seq<PartitionSpecView>,
    payloads: Seq<Seq<u8>>,
    before: Seq<Seq<u8>>,
    after: Seq<Seq<u8>>,
    i: int,
)
    requires
        s.devices.len() <= u32::MAX,
        specs.len() <= usize::MAX,
        plan_of(args, s, specs) matches Ok(plan) && {
            &&& plan.tables.extents.len() <= u32::MAX
            &&& blank(plan.devices, before)
            &&& same_data(
                plan.devices,
                jobs_written(before, payloads, plan.tables.jobs),
                after,
            )
        },
        payloads.len() == specs.len(),
        forall|k: int|
            0 <= k < specs.len() && (#[trigger] specs[k]).payload is Some ==> payloads[k].len()
                == specs[k].payload_len,
        forall|k: u32| k < s.devices.len() ==> #[trigger] d.device(k) == Some(after[k as int]),
        0 <= i < specs.len(),
    ensures
        ({
            let t = plan_of(args, s, specs)->Ok_0.tables;
            let chain = extents_of_partition(t.extents, t.partitions[i]);
            &&& chain_data(d, chain) == (if specs[i].payload is Some {
                payloads[i] + zeros(needed_by(specs[i]) * 512 - payloads[i].len())
            } else {
                Seq::empty()
            })
            &&& forall|k: int| 0 <= k < chain.len() ==> readable(d, #[trigger] chain[k])
        }),
{
    let plan = plan_of(args, s, specs)->Ok_0;
    let devices = plan.devices;
    let b = plan.tables;
    let reserved = reserved_bytes(
        s.metadata_max_size,
        args.metadata_slots,
        s.default_alignment,
    ) as u64;
    let start = data_start(
        s.metadata_max_size,
        args.metadata_slots,
        s.default_alignment,
    ) as u64;
    lemma_size_fault(s.devices, reserved, 0);
    lemma_table_sizes(s.devices, start, 0, Seq::empty());
    law_layout(devices, s.groups, args.force, specs);
    assert forall|k: int| 0 <= k < devices.len() implies (#[trigger] devices[k]).size >= 512 by {
        assert(s.devices[k].size >= 512);
    }
    lemma_extents_filled(d, devices, specs, b, payloads, before, after);
    assert(partition_made(b, specs[i], i));
    lemma_partition_reads(d, b, specs[i], payloads, i);
}

/// Whether every extent of a chain can be read.
pub open spec fn all_readable<D: ExtentSource>(d: &D, extents: Seq<Extent>) -> bool {
    forall|k: int| 0 <= k < extents.len() ==> readable(d, #[trigger] extents[k])
}

/// Whether the chain of a partition lies inside the table.
pub open spec fn whole(extents: Seq<Extent>, p: PartitionView) -> bool {
    p.num_extents == 0 || p.first_extent_index + p.num_extents <= extents.len()
}

/// Extents that do not meet what was written read as before.
proof fn lemma_chain_kept<D: ExtentSource>(
    before: &D,
    after: &D,
    extents: Seq<Extent>,
    device: u32,
    c: Seq<u8>,
    sector: int,
    n: int,
    data: Seq<u8>,
)
    requires
        before.device(device) == Some(c),
        after.device(device) == Some(overwritten(c, sector * 512, data)),
        forall|k: u32| k != device ==> #[trigger] after.device(k) == before.device(k),
        0 <= sector,
        data.len() == n * 512,
        (sector + n) * 512 <= c.len(),
        clear(extents, device, sector, n),
        forall|k: int| 0 <= k < extents.len() ==> readable(before, #[trigger] extents[k]),
    ensures
        chain_data(after, extents) == chain_data(before, extents),
    decreases extents.len(),
{
    if extents.len() > 0 {
        let e = extents.last();
        let rest = extents.drop_last();
        assert forall|k: int| 0 <= k < rest.len() implies readable(before, #[trigger] rest[k]) by {
            assert(rest[k] == extents[k]);
        }
        assert(clear(rest, device, sector, n)) by {
            assert forall|k: int| 0 <= k < rest.len() && on_device(
                #[trigger] rest[k],
                device,
            ) implies extent_end(rest[k]) <= sector || sector + n <= rest[k].target_data by {
                assert(rest[k] == extents[k]);
            }
        }
        lemma_chain_kept(before, after, rest, device, c, sector, n, data);
        assert(extents[extents.len() - 1] == e);
        assert(readable(before, e));
        let old_part = extent_data(before, e);
        let new_part = extent_data(after, e);
        if on_device(e, device) {
            lemma_overwritten(c, sector * 512, data);
            assert forall|i: int| 0 <= i < old_part.len() implies new_part[i] == old_part[i] by {
                let p = e.target_data * 512 + i;
                assert(i < e.num_sectors * 512);
                assert(old_part[i] == c[p]);
                assert(new_part[i] == overwritten(c, sector * 512, data)[p]);
            }
        }
        assert(new_part =~= old_part);
    }
}

/// An added partition reads back its payload, filled up with zero bytes to whole
/// sectors, and every other partition that can be read reads as before.
pub proof fn law_added_payload_reads_back<D: ExtentSource>(
    before: &D,
    after: &D,
    v: SuperView,
    args: AddArgs,
    payload: Seq<u8>,
    is_primary: Seq<bool>,
)
    requires
        payload.len() <= u64::MAX,
        v.tables.block_devices.len() <= u32::MAX,
        v.tables.extents.len() < u32::MAX,
        add_plan(v, args, payload.len() as u64, is_primary) matches Ok(plan) && {
            let data = payload + zeros(plan.sectors * 512 - payload.len());
            &&& before.device(plan.device) matches Some(c) && plan.offset + data.len() <= c.len()
                <= u64::MAX && after.device(plan.device) == Some(
                overwritten(c, plan.offset as int, data),
            )
            &&& forall|k: u32| k != plan.device ==> #[trigger] after.device(k) == before.device(k)
        },
    ensures
        ({
            let plan = add_plan(v, args, payload.len() as u64, is_primary)->Ok_0;
            let t = v.tables;
            let t2 = added(t, args.name@, plan);
            let chain = extents_of_partition(t2.extents, t2.partitions.last());
            &&& chain_data(after, chain) == payload + zeros(plan.sectors * 512 - payload.len())
            &&& forall|k: int| 0 <= k < chain.len() ==> readable(after, #[trigger] chain[k])
            &&& forall|j: int|
                0 <= j < t.partitions.len() && whole(t.extents, #[trigger] t.partitions[j])
                    && all_readable(
                    before,
                    extents_of_partition(t.extents, t.partitions[j]),
                ) ==> chain_data(
                    after,
                    extents_of_partition(t2.extents, t2.partitions[j]),
                ) == chain_data(before, extents_of_partition(t.extents, t.partitions[j]))
        }),
{
    let plan = add_plan(v, args, payload.len() as u64, is_primary)->Ok_0;
    let t = v.tables;
    let t2 = added(t, args.name@, plan);
    let e = extent_of((plan.device, plan.sector, plan.sectors));
    let c = before.device(plan.device)->Some_0;
    let data = payload + zeros(plan.sectors * 512 - payload.len());
    law_place_is_free(t, texts(args.device@), is_primary, plan.sectors);
    assert(plan.sectors * 512 >= payload.len());
    assert(data.len() == plan.sectors * 512);
    lemma_overwritten(c, plan.offset as int, data);
    let chain = extents_of_partition(t2.extents, t2.partitions.last());
    assert(chain =~= seq![e]);
    assert(chain.drop_last() =~= Seq::<Extent>::empty());
    assert(chain_data(after, chain.drop_last()) =~= Seq::<u8>::empty());
    assert(extent_len(e) == plan.sectors * 512);
    assert(extent_data(after, e) =~= data);
    assert(chain_data(after, chain) =~= data);
    assert forall|j: int| 0 <= j < t.partitions.len() && whole(
        t.extents,
        #[trigger] t.partitions[j],
    ) && all_readable(before, extents_of_partition(t.extents, t.partitions[j])) implies chain_data(
        after,
        extents_of_partition(t2.extents, t2.partitions[j]),
    ) == chain_data(
        before,
        extents_of_partition(t.extents, t.partitions[j]),
    ) by {
        let p = t.partitions[j];
        let old_chain = extents_of_partition(t.extents, p);
        let first = p.first_extent_index as int;
        assert(t2.partitions[j] == p);
        assert(extents_of_partition(t2.extents, p) =~= old_chain);
        assert(clear(old_chain, plan.device, plan.sector as int, plan.sectors as int)) by {
            assert forall|k: int| 0 <= k < old_chain.len() && on_device(
                #[trigger] old_chain[k],
                plan.device,
            ) implies extent_end(old_chain[k]) <= plan.sector || plan.sector + plan.sectors
                <= old_chain[k].target_data by {
                assert(old_chain[k] == t.extents[first + k]);
            }
        }
        lemma_chain_kept(
            before,
            after,
            old_chain,
            plan.device,
            c,
            plan.sector as int,
            plan.sectors as int,
            data,
        );
    }
}

/// Metadata that is written in front of the data leaves the data alone.
pub proof fn law_metadata_spares_data(
    specs: Seq<DeviceSpecView>,
    max: u32,
    count: u32,
    default_alignment: u32,
    files: Seq<Seq<u8>>,
    at: int,
    bytes: Seq<u8>,
)
    requires
        max <= 16_777_216,
        count <= 8,
        device_table(
            specs,
            reserved_bytes(max, count, default_alignment) as u64,
            data_start(max, count, default_alignment) as u64,
        ) is Ok,
        0 < specs.len() == files.len(),
        0 <= at,
        at + bytes.len() <= metadata_end(max, count),
        at + bytes.len() <= files[0].len(),
    ensures
        same_data(
            device_table(
                specs,
                reserved_bytes(max, count, default_alignment) as u64,
                data_start(max, count, default_alignment) as u64,
            )->Ok_0,
            files,
            files.update(0, overwritten(files[0], at, bytes)),
        ),
{
    lemma_table_sizes(
        specs,
        data_start(max, count, default_alignment) as u64,
        0,
        Seq::empty(),
    );
    law_data_behind_metadata(specs, max, count, default_alignment, 0);
    lemma_overwritten(files[0], at, bytes);
}

} // verus!
