//! The layout of a new image: the block device table, the extents of each
//! payload, and which part of a payload goes where.

use crate::commands::commit::{in_sectors, over_limit, sectors_for};
use crate::commands::make::MakeError;
use crate::commands::make_specs::{DeviceSpec, DeviceSpecView, PartitionSpec, PartitionSpecView};
use crate::commands::split_util::group_named;
use crate::encoding::{sat_mul, saturating_mul};
use crate::error::{Error, Fault};
use crate::format::{
    device_views, group_views, partition_views, views, BlockDevice, BlockDeviceView, Extent, Group,
    GroupView, Partition, PartitionView, LP_SECTOR_SIZE, LP_TARGET_TYPE_LINEAR,
};
use crate::reader::data::capped;
use crate::reader::multiblock::{device_named, find_device};
use crate::text::str_eq;
use crate::writer::allocation::{align_to, first_free};
use crate::writer::spanning::{extents_of, spanning_plan, Run};
use crate::writer::LpWriter;
use vstd::prelude::*;

verus! {

/// Where the metadata area ends: behind the geometries and both copies of every
/// slot.
pub open spec fn metadata_end(max: u32, count: u32) -> int {
    0x3000 + 2 * count * max
}

/// The unit to which the metadata area is rounded up.
pub open spec fn reserve_unit(default_alignment: u32) -> int {
    if default_alignment > 512 {
        default_alignment as int
    } else {
        512
    }
}

/// The bytes that are set aside for metadata on each device.
pub open spec fn reserved_bytes(max: u32, count: u32, default_alignment: u32) -> int {
    let unit = reserve_unit(default_alignment);
    (metadata_end(max, count) + unit - 1) / unit * unit
}

/// The bytes that are set aside for metadata on each device.
pub fn reserve(max: u32, count: u32, default_alignment: u32) -> (r: u64)
    requires
        max <= 16_777_216,
        count <= 8,
    ensures
        r == reserved_bytes(max, count, default_alignment),
        r >= metadata_end(max, count),
        r <= 0x2_0000_0000,
{
    proof {
        assert(2 * count * max <= 2 * 8 * 16_777_216) by (nonlinear_arith)
            requires
                0 <= max <= 16_777_216,
                0 <= count <= 8,
        ;
        assert(0 <= 2 * count * max) by (nonlinear_arith)
            requires
                0 <= max,
                0 <= count,
        ;
        assert((2 * count) * max == 2 * count * max);
    }
    let end = 0x3000 + 2 * count as u64 * max as u64;
    let unit = if default_alignment > 512 {
        default_alignment as u64
    } else {
        512
    };
    let blocks = (end + unit - 1) / unit;
    proof {
        let n = end + unit - 1;
        vstd::arithmetic::div_mod::lemma_fundamental_div_mod(n as int, unit as int);
        vstd::arithmetic::mul::lemma_mul_is_commutative(blocks as int, unit as int);
    }
    blocks * unit
}

/// The sector from which on data may lie: the one that the reserved bytes reach,
/// but none that metadata lies in. The two differ only where the reserved bytes
/// are no whole sectors.
pub open spec fn data_start(max: u32, count: u32, default_alignment: u32) -> int {
    let reached = reserved_bytes(max, count, default_alignment) / 512;
    let free = (metadata_end(max, count) + 511) / 512;
    if reached < free {
        free
    } else {
        reached
    }
}

/// The sector from which on data may lie, and the bytes that are set aside.
pub fn find_data_start(max: u32, count: u32, default_alignment: u32) -> (r: (u64, u64))
    requires
        max <= 16_777_216,
        count <= 8,
    ensures
        r.0 == data_start(max, count, default_alignment),
        r.1 == reserved_bytes(max, count, default_alignment),
        r.1 <= 0x2_0000_0000,
{
    proof {
        assert(0 <= 2 * count * max <= 2 * 8 * 16_777_216) by (nonlinear_arith)
            requires
                0 <= max <= 16_777_216,
                0 <= count <= 8,
        ;
        assert((2 * count) * max == 2 * count * max);
    }
    let reserved = reserve(max, count, default_alignment);
    let end = 0x3000 + 2 * count as u64 * max as u64;
    let reached = reserved / 512;
    let free = (end + 511) / 512;
    if reached < free {
        (free, reserved)
    } else {
        (reached, reserved)
    }
}

/// The first device from the `i`-th on that is too small or not made of whole
/// sectors.
pub open spec fn size_fault(devices: Seq<DeviceSpecView>, reserved: u64, i: int) -> Option<MakeError>
    decreases devices.len() - i,
{
    if i < 0 || i >= devices.len() {
        None
    } else if devices[i].size < reserved + 512 {
        Some(
            MakeError::Device {
                item: i as usize,
                error: Error::Invalid(Fault::DeviceSmall { size: devices[i].size, reserved }),
            },
        )
    } else if devices[i].size % 512 != 0 {
        Some(
            MakeError::Device {
                item: i as usize,
                error: Error::Invalid(Fault::DeviceUnaligned),
            },
        )
    } else {
        size_fault(devices, reserved, i + 1)
    }
}

/// The block device table from the `i`-th device on, behind the entries before.
/// Data starts at `start` at the earliest.
pub open spec fn table_from(
    devices: Seq<DeviceSpecView>,
    start: u64,
    i: int,
    done: Seq<BlockDeviceView>,
) -> Result<Seq<BlockDeviceView>, MakeError>
    decreases devices.len() - i,
{
    if i < 0 || i >= devices.len() {
        Ok(done)
    } else {
        let d = devices[i];
        match align_to(start, d.alignment, d.alignment_offset) {
            None => Err(
                MakeError::Device {
                    item: i as usize,
                    error: Error::Invalid(Fault::Alignment),
                },
            ),
            Some(first_logical_sector) => table_from(
                devices,
                start,
                i + 1,
                done.push(
                    BlockDeviceView {
                        first_logical_sector,
                        alignment: d.alignment,
                        alignment_offset: d.alignment_offset,
                        size: d.size,
                        partition_name: d.name,
                    },
                ),
            ),
        }
    }
}

/// The block device table. Each device has to hold the reserved bytes and a sector
/// more.
pub open spec fn device_table(
    devices: Seq<DeviceSpecView>,
    reserved: u64,
    start: u64,
) -> Result<Seq<BlockDeviceView>, MakeError> {
    match size_fault(devices, reserved, 0) {
        Some(e) => Err(e),
        None => table_from(devices, start, 0, Seq::empty()),
    }
}

/// Builds the block device table.
pub fn build_devices(specs: &Vec<DeviceSpec>, reserved: u64, start: u64) -> (r: Result<
    Vec<BlockDevice>,
    MakeError,
>)
    requires
        reserved <= 0x2_0000_0000,
    ensures
        match r {
            Ok(v) => device_table(views(specs@), reserved, start) == Ok::<
                Seq<BlockDeviceView>,
                MakeError,
            >(device_views(v@)) && v@.len() == specs@.len(),
            Err(e) => device_table(views(specs@), reserved, start) == Err::<
                Seq<BlockDeviceView>,
                MakeError,
            >(e),
        },
{
    let ghost all = views(specs@);
    let mut i: usize = 0;
    while i < specs.len()
        invariant
            i <= specs.len(),
            reserved <= 0x2_0000_0000,
            all == views(specs@),
            size_fault(all, reserved, 0) == size_fault(all, reserved, i as int),
        decreases specs.len() - i,
    {
        assert(all[i as int] == specs@[i as int]@);
        let size = specs[i].size;
        if size < reserved + LP_SECTOR_SIZE {
            let error = Error::Invalid(Fault::DeviceSmall { size, reserved });
            return Err(MakeError::Device { item: i, error });
        }
        if size % LP_SECTOR_SIZE != 0 {
            return Err(
                MakeError::Device { item: i, error: Error::Invalid(Fault::DeviceUnaligned) },
            );
        }
        i += 1;
    }
    let mut out: Vec<BlockDevice> = Vec::new();
    let mut k: usize = 0;
    assert(device_views(out@) =~= Seq::<BlockDeviceView>::empty());
    while k < specs.len()
        invariant
            k <= specs.len(),
            all == views(specs@),
            size_fault(all, reserved, 0) is None,
            out@.len() == k,
            table_from(all, start, 0, Seq::empty()) == table_from(
                all,
                start,
                k as int,
                device_views(out@),
            ),
        decreases specs.len() - k,
    {
        let d = &specs[k];
        assert(all[k as int] == d@);
        match LpWriter::align_up(start, d.alignment, d.alignment_offset) {
            None => {
                return Err(
                    MakeError::Device { item: k, error: Error::Invalid(Fault::Alignment) },
                );
            },
            Some(first_logical_sector) => {
                let entry = BlockDevice {
                    first_logical_sector,
                    alignment: d.alignment,
                    alignment_offset: d.alignment_offset,
                    size: d.size,
                    partition_name: d.name.clone(),
                };
                let ghost before = device_views(out@);
                let ghost v = entry@;
                out.push(entry);
                assert(device_views(out@) =~= before.push(v));
            },
        }
        k += 1;
    }
    Ok(out)
}

/// A part of a payload file, and where it goes.
#[derive(Debug, Clone, Copy, PartialEq, Eq, Structural)]
pub struct PayloadJob {
    pub partition: usize,
    pub input_offset: u64,
    pub len: u64,
    pub device: u32,
    pub sector: u64,
}

/// How much of a payload goes into an extent of `sectors` sectors.
pub open spec fn segment_len(sectors: u64, offset: int, payload_len: u64) -> u64 {
    let left = if offset < payload_len {
        payload_len - offset
    } else {
        0
    };
    if sat_mul(sectors, 512) < left {
        sat_mul(sectors, 512)
    } else {
        left as u64
    }
}

/// The parts of a payload from `offset` on, one for each run from the `k`-th on.
pub open spec fn jobs_of(
    plan: Seq<Run>,
    partition: usize,
    payload_len: u64,
    k: int,
    offset: int,
) -> Seq<PayloadJob>
    decreases plan.len() - k,
{
    if k < 0 || k >= plan.len() {
        Seq::empty()
    } else {
        let len = segment_len(plan[k].2, offset, payload_len);
        let job = PayloadJob {
            partition,
            input_offset: offset as u64,
            len,
            device: plan[k].0,
            sector: plan[k].1,
        };
        seq![job] + jobs_of(plan, partition, payload_len, k + 1, offset + len)
    }
}

/// The tables of an image that is being made. `used` counts the sectors of each
/// group.
#[derive(Debug)]
pub struct MakeTables {
    pub partitions: Vec<Partition>,
    pub extents: Vec<Extent>,
    pub jobs: Vec<PayloadJob>,
    pub used: Vec<u64>,
}

/// The tables of an image that is being made, as mathematical values.
#[verifier::ext_equal]
pub struct MakeTablesView {
    pub partitions: Seq<PartitionView>,
    pub extents: Seq<Extent>,
    pub jobs: Seq<PayloadJob>,
    pub used: Seq<u64>,
}

impl View for MakeTables {
    type V = MakeTablesView;

    open spec fn view(&self) -> MakeTablesView {
        MakeTablesView {
            partitions: partition_views(self.partitions@),
            extents: self.extents@,
            jobs: self.jobs@,
            used: self.used@,
        }
    }
}

/// Where a payload goes: onto the device that it is pinned to, or wherever there
/// is room.
pub open spec fn payload_plan(
    extents: Seq<Extent>,
    devices: Seq<BlockDeviceView>,
    pin: Option<u32>,
    needed: u64,
) -> Result<Seq<Run>, Error> {
    match pin {
        None => spanning_plan(extents, devices, needed),
        Some(device) => match first_free(extents, devices, device, needed) {
            Err(e) => Err(e),
            Ok(sector) => Ok(seq![(device, sector, needed)]),
        },
    }
}

/// The device that a partition is pinned to.
pub open spec fn pin_of(devices: Seq<BlockDeviceView>, name: Option<Seq<char>>) -> Result<
    Option<u32>,
    Error,
> {
    match name {
        None => Ok(None),
        Some(n) => match device_named(devices, n, 0) {
            Some(i) => Ok(Some(i)),
            None => Err(Error::NotFound(Fault::BlockDevice)),
        },
    }
}

/// The tables after one more partition. One without payload has no extents.
pub open spec fn with_partition(
    devices: Seq<BlockDeviceView>,
    groups: Seq<GroupView>,
    force: bool,
    b: MakeTablesView,
    p: PartitionSpecView,
) -> Result<MakeTablesView, Error> {
    match group_named(groups, p.group, 0) {
        None => Err(Error::NotFound(Fault::Group)),
        Some(g) => match pin_of(devices, p.device) {
            Err(e) => Err(e),
            Ok(pin) => {
                let needed = in_sectors(p.payload_len);
                let max = groups[g].maximum_size;
                let entry = PartitionView {
                    name: p.name,
                    attributes: p.attrs,
                    first_extent_index: b.extents.len() as u32,
                    num_extents: 0,
                    group_index: g as u32,
                };
                if p.payload is None || p.payload_len == 0 {
                    Ok(MakeTablesView { partitions: b.partitions.push(entry), ..b })
                } else if !force && over_limit(max, b.used[g] as int, needed as int) {
                    Err(Error::Invalid(Fault::GroupLimit { max, used: b.used[g], needed }))
                } else {
                    match payload_plan(b.extents, devices, pin, needed) {
                        Err(e) => Err(e),
                        Ok(plan) => Ok(
                            MakeTablesView {
                                partitions: b.partitions.push(
                                    PartitionView { num_extents: plan.len() as u32, ..entry },
                                ),
                                extents: b.extents + extents_of(plan),
                                jobs: b.jobs + jobs_of(
                                    plan,
                                    b.partitions.len() as usize,
                                    p.payload_len,
                                    0,
                                    0,
                                ),
                                used: b.used.update(g, capped(b.used[g] + needed)),
                            },
                        ),
                    }
                }
            },
        },
    }
}

/// The tables after the partitions from the `i`-th on.
pub open spec fn tables_from(
    devices: Seq<BlockDeviceView>,
    groups: Seq<GroupView>,
    force: bool,
    specs: Seq<PartitionSpecView>,
    i: int,
    b: MakeTablesView,
) -> Result<MakeTablesView, MakeError>
    decreases specs.len() - i,
{
    if i < 0 || i >= specs.len() {
        Ok(b)
    } else {
        match with_partition(devices, groups, force, b, specs[i]) {
            Err(error) => Err(MakeError::Partition { item: i as usize, error }),
            Ok(next) => tables_from(devices, groups, force, specs, i + 1, next),
        }
    }
}

/// The tables before the first partition.
pub open spec fn no_tables(groups: nat) -> MakeTablesView {
    MakeTablesView {
        partitions: Seq::empty(),
        extents: Seq::empty(),
        jobs: Seq::empty(),
        used: Seq::new(groups, |i: int| 0u64),
    }
}

/// The index of the first group of this name.
fn group_position(groups: &Vec<Group>, name: &str) -> (r: Option<usize>)
    ensures
        match r {
            Some(i) => group_named(group_views(groups@), name@, 0) == Some(i as int) && i
                < groups@.len(),
            None => group_named(group_views(groups@), name@, 0) is None,
        },
{
    let ghost all = group_views(groups@);
    let mut i: usize = 0;
    while i < groups.len()
        invariant
            i <= groups.len(),
            all == group_views(groups@),
            group_named(all, name@, 0) == group_named(all, name@, i as int),
        decreases groups.len() - i,
    {
        assert(all[i as int] == groups@[i as int]@);
        if str_eq(groups[i].name.as_str(), name) {
            return Some(i);
        }
        i += 1;
    }
    None
}

/// Finds the place of a payload.
fn plan_payload(
    extents: &[Extent],
    devices: &[BlockDevice],
    pin: Option<u32>,
    needed: u64,
) -> (r: Result<Vec<Run>, Error>)
    requires
        devices@.len() <= u32::MAX,
    ensures
        match r {
            Ok(v) => payload_plan(extents@, device_views(devices@), pin, needed) == Ok::<
                Seq<Run>,
                Error,
            >(v@),
            Err(e) => payload_plan(extents@, device_views(devices@), pin, needed) == Err::<
                Seq<Run>,
                Error,
            >(e),
        },
{
    let writer = LpWriter::new();
    match pin {
        None => writer.plan_spanning_allocation(extents, devices, needed),
        Some(device) => {
            let sector = writer.find_free_sectors(extents, devices, device, needed)?;
            let mut out: Vec<Run> = Vec::new();
            out.push((device, sector, needed));
            assert(out@ =~= seq![(device, sector, needed)]);
            Ok(out)
        },
    }
}

/// Adds the extents of a plan and the parts of its payload.
fn push_runs(b: &mut MakeTables, plan: &Vec<Run>, partition: usize, payload_len: u64)
    ensures
        final(b).partitions == old(b).partitions,
        final(b).used == old(b).used,
        final(b).extents@ == old(b).extents@ + extents_of(plan@),
        final(b).jobs@ == old(b).jobs@ + jobs_of(plan@, partition, payload_len, 0, 0),
{
    let ghost all = jobs_of(plan@, partition, payload_len, 0, 0);
    let mut k: usize = 0;
    let mut offset: u64 = 0;
    proof {
        assert(b.extents@ + extents_of(plan@.take(0)) =~= b.extents@);
    }
    while k < plan.len()
        invariant
            k <= plan.len(),
            offset <= payload_len,
            b.partitions == old(b).partitions,
            b.used == old(b).used,
            b.extents@ == old(b).extents@ + extents_of(plan@.take(k as int)),
            old(b).jobs@ + all == b.jobs@ + jobs_of(
                plan@,
                partition,
                payload_len,
                k as int,
                offset as int,
            ),
        decreases plan.len() - k,
    {
        let (device, sector, sectors) = plan[k];
        let room = saturating_mul(sectors, LP_SECTOR_SIZE);
        let left = payload_len - offset;
        let len = if room < left {
            room
        } else {
            left
        };
        let ghost extents0 = b.extents@;
        let ghost jobs0 = b.jobs@;
        let job = PayloadJob { partition, input_offset: offset, len, device, sector };
        b.extents.push(
            Extent {
                num_sectors: sectors,
                target_type: LP_TARGET_TYPE_LINEAR,
                target_data: sector,
                target_source: device,
            },
        );
        b.jobs.push(job);
        proof {
            assert(b.extents@ =~= old(b).extents@ + extents_of(plan@.take(k + 1)));
            let rest = jobs_of(plan@, partition, payload_len, k + 1, offset + len);
            assert(jobs0 + (seq![job] + rest) =~= b.jobs@ + rest);
        }
        offset = offset + len;
        k += 1;
    }
    proof {
        assert(plan@.take(k as int) =~= plan@);
        assert(b.jobs@ + Seq::<PayloadJob>::empty() =~= b.jobs@);
    }
}

/// Adds a partition.
fn add_partition(
    devices: &Vec<BlockDevice>,
    groups: &Vec<Group>,
    force: bool,
    b: &mut MakeTables,
    p: &PartitionSpec,
) -> (r: Result<(), Error>)
    requires
        devices@.len() <= u32::MAX,
        groups@.len() <= u32::MAX,
        old(b).used@.len() == groups@.len(),
    ensures
        final(b).used@.len() == groups@.len(),
        match r {
            Ok(_) => with_partition(
                device_views(devices@),
                group_views(groups@),
                force,
                old(b)@,
                p@,
            ) == Ok::<MakeTablesView, Error>(final(b)@),
            Err(e) => with_partition(
                device_views(devices@),
                group_views(groups@),
                force,
                old(b)@,
                p@,
            ) == Err::<MakeTablesView, Error>(e),
        },
{
    let group = match group_position(groups, p.group.as_str()) {
        Some(g) => g,
        None => {
            return Err(Error::NotFound(Fault::Group));
        },
    };
    assert(group_views(groups@)[group as int] == groups@[group as int]@);
    let pin = match &p.device {
        None => None,
        Some(name) => match find_device(devices.as_slice(), name.as_str()) {
            Some(i) => Some(i),
            None => {
                return Err(Error::NotFound(Fault::BlockDevice));
            },
        },
    };
    let first = b.extents.len() as u32;
    let index = b.partitions.len();
    let mut count: u32 = 0;
    if p.payload.is_some() && p.payload_len > 0 {
        let needed = sectors_for(p.payload_len);
        let max = groups[group].maximum_size;
        let used = b.used[group];
        if !force && max > 0 && used.saturating_add(needed) > max / LP_SECTOR_SIZE {
            return Err(Error::Invalid(Fault::GroupLimit { max, used, needed }));
        }
        let plan = plan_payload(b.extents.as_slice(), devices.as_slice(), pin, needed)?;
        count = plan.len() as u32;
        push_runs(b, &plan, index, p.payload_len);
        b.used[group] = used.saturating_add(needed);
    }
    let entry = Partition {
        name: p.name.clone(),
        attributes: p.attrs,
        first_extent_index: first,
        num_extents: count,
        group_index: group as u32,
    };
    let ghost v = entry@;
    b.partitions.push(entry);
    assert(partition_views(b.partitions@) =~= partition_views(old(b).partitions@).push(v));
    Ok(())
}

/// Builds the tables of an image, partition by partition.
pub fn build_tables(
    devices: &Vec<BlockDevice>,
    groups: &Vec<Group>,
    force: bool,
    specs: &Vec<PartitionSpec>,
) -> (r: Result<MakeTables, MakeError>)
    requires
        devices@.len() <= u32::MAX,
        groups@.len() <= u32::MAX,
    ensures
        ({
            let wanted = tables_from(
                device_views(devices@),
                group_views(groups@),
                force,
                views(specs@),
                0,
                no_tables(groups@.len()),
            );
            match r {
                Ok(b) => wanted == Ok::<MakeTablesView, MakeError>(b@),
                Err(e) => wanted == Err::<MakeTablesView, MakeError>(e),
            }
        }),
{
    let ghost dv = device_views(devices@);
    let ghost gv = group_views(groups@);
    let ghost all = views(specs@);
    let mut used: Vec<u64> = Vec::new();
    let mut g: usize = 0;
    while g < groups.len()
        invariant
            g <= groups.len(),
            used@ =~= Seq::new(g as nat, |i: int| 0u64),
        decreases groups.len() - g,
    {
        used.push(0);
        g += 1;
    }
    let mut b = MakeTables {
        partitions: Vec::new(),
        extents: Vec::new(),
        jobs: Vec::new(),
        used,
    };
    assert(b@ =~= no_tables(groups@.len()));
    let mut i: usize = 0;
    while i < specs.len()
        invariant
            i <= specs.len(),
            devices@.len() <= u32::MAX,
            groups@.len() <= u32::MAX,
            dv == device_views(devices@),
            gv == group_views(groups@),
            all == views(specs@),
            b.used@.len() == groups@.len(),
            tables_from(dv, gv, force, all, 0, no_tables(groups@.len())) == tables_from(
                dv,
                gv,
                force,
                all,
                i as int,
                b@,
            ),
        decreases specs.len() - i,
    {
        assert(all[i as int] == specs@[i as int]@);
        match add_partition(devices, groups, force, &mut b, &specs[i]) {
            Ok(_) => {},
            Err(error) => {
                return Err(MakeError::Partition { item: i, error });
            },
        }
        i += 1;
    }
    Ok(b)
}

} // verus!
