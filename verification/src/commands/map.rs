//! Mapping a partition with the device mapper: the requests as bytes.

use crate::encoding::{lemma_widths, padded, push_bytes, push_u32, push_u64, push_zeros, zeros};
use crate::error::{Error, Fault};
use crate::format::{
    Extent, TablesView, LP_PARTITION_ATTR_READONLY, LP_TARGET_TYPE_LINEAR, LP_TARGET_TYPE_ZERO,
};
use crate::reader::data::{extents_of_partition, lemma_sector_total, sector_total, SuperData};
use crate::text::{
    concat, decimal, lemma_decimal_len, lemma_encode_concat, lemma_encode_len, to_decimal,
};
use vstd::bytes::*;
use vstd::prelude::*;
use vstd::string::*;
use vstd::utf8::*;

verus! {

/// A request to map a partition.
#[derive(Debug)]
pub struct MapArgs {
    pub image: String,
    pub partition: String,
    pub slot: String,
    pub suffix: String,
    pub force_writable: bool,
}

/// A request to remove a mapping.
#[derive(Debug)]
pub struct UnmapArgs {
    pub partition: String,
}

pub const DM_IOCTL_VERSION: u32 = 4;

/// Size of the field for the name of a mapping.
pub const DM_NAME_LEN: usize = 128;

/// Size of the head of a request.
pub const DM_IOCTL_SIZE: u32 = 312;

/// Size of the head of a target.
pub const DM_TARGET_SIZE: u32 = 40;

/// The mapping is read-only.
pub const DM_READONLY_FLAG: u32 = 1;

/// The front of a byte string, at most `n` bytes.
pub open spec fn cut(b: Seq<u8>, n: int) -> Seq<u8> {
    if b.len() > n {
        b.take(n)
    } else {
        b
    }
}

/// The head of a request: version, sizes, counters, and the name, cut off to
/// leave a zero byte behind it.
pub open spec fn request_head(
    name: Seq<char>,
    data_size: u32,
    data_start: u32,
    target_count: u32,
    flags: u32,
) -> Seq<u8> {
    spec_u32_to_le_bytes(DM_IOCTL_VERSION) + zeros(8) + spec_u32_to_le_bytes(data_size)
        + spec_u32_to_le_bytes(data_start) + spec_u32_to_le_bytes(target_count) + zeros(4)
        + spec_u32_to_le_bytes(flags) + zeros(16) + padded(
        cut(encode_utf8(name), DM_NAME_LEN - 1),
        DM_NAME_LEN as int,
    ) + zeros(136)
}

/// Renders the head of a request.
pub fn dm_head(
    name: &str,
    data_size: u32,
    data_start: u32,
    target_count: u32,
    flags: u32,
) -> (r: Vec<u8>)
    ensures
        r@ == request_head(name@, data_size, data_start, target_count, flags),
        r@.len() == DM_IOCTL_SIZE,
{
    let mut out: Vec<u8> = Vec::new();
    push_u32(&mut out, DM_IOCTL_VERSION);
    proof {
        lemma_widths();
    }
    push_zeros(&mut out, 8);
    push_u32(&mut out, data_size);
    push_u32(&mut out, data_start);
    push_u32(&mut out, target_count);
    push_zeros(&mut out, 4);
    push_u32(&mut out, flags);
    push_zeros(&mut out, 16);
    let bytes = name.as_bytes();
    let len = bytes.len();
    let shown = if len > DM_NAME_LEN - 1 {
        DM_NAME_LEN - 1
    } else {
        len
    };
    let front = vstd::slice::slice_subrange(bytes, 0, shown);
    assert(front@ =~= cut(encode_utf8(name@), DM_NAME_LEN - 1));
    push_bytes(&mut out, front);
    push_zeros(&mut out, DM_NAME_LEN - shown);
    push_zeros(&mut out, 136);
    assert(out@ =~= request_head(name@, data_size, data_start, target_count, flags));
    out
}

/// A request without further data.
pub fn dm_request(name: &str) -> (r: Vec<u8>)
    ensures
        r@ == request_head(name@, DM_IOCTL_SIZE, 0, 0, 0),
{
    dm_head(name, DM_IOCTL_SIZE, 0, 0, 0)
}

/// The head of a target: which sectors of the mapping it covers, where the next
/// target starts, and its kind.
pub open spec fn target_head(start: u64, len: u64, next: u32, kind: Seq<u8>) -> Seq<u8> {
    spec_u64_to_le_bytes(start) + spec_u64_to_le_bytes(len) + zeros(4) + spec_u32_to_le_bytes(next)
        + padded(kind, 16)
}

/// The parameters of a linear target: the device and the first sector on it,
/// closed by a zero byte.
pub open spec fn linear_params(device: Seq<char>, sector: u64) -> Seq<u8> {
    encode_utf8(device + " "@ + decimal(sector as nat)) + zeros(1)
}

/// The zero bytes that fill up `n` bytes to a multiple of eight.
pub open spec fn pad_to_eight(n: int) -> int {
    (8 - n % 8) % 8
}

/// A target that maps sectors to those of a device.
pub open spec fn linear_target(start: u64, len: u64, device: Seq<char>, sector: u64) -> Seq<u8> {
    let params = linear_params(device, sector);
    let size = DM_TARGET_SIZE + params.len();
    target_head(start, len, (size + pad_to_eight(size)) as u32, "linear".spec_bytes()) + params
        + zeros(pad_to_eight(size))
}

/// A target that reads as zeros.
pub open spec fn zero_target(start: u64, len: u64) -> Seq<u8> {
    target_head(start, len, DM_TARGET_SIZE, "zero".spec_bytes())
}

/// Renders the head of a target.
fn push_target(out: &mut Vec<u8>, start: u64, len: u64, next: u32, kind: &str)
    requires
        kind.spec_bytes().len() <= 16,
        old(out)@.len() <= 0x7fff_ffff,
    ensures
        final(out)@ == old(out)@ + target_head(start, len, next, kind.spec_bytes()),
{
    proof {
        lemma_widths();
    }
    push_u64(out, start);
    push_u64(out, len);
    push_zeros(out, 4);
    push_u32(out, next);
    let bytes = kind.as_bytes();
    push_bytes(out, bytes);
    push_zeros(out, 16 - bytes.len());
    assert(out@ =~= old(out)@ + target_head(start, len, next, kind.spec_bytes()));
}

/// Renders a linear target.
pub fn build_linear_target(
    sector_start: u64,
    num_sectors: u64,
    device: &str,
    physical_sector: u64,
) -> (r: Vec<u8>)
    requires
        device.spec_bytes().len() <= 4096,
    ensures
        r@ == linear_target(sector_start, num_sectors, device@, physical_sector),
        r@.len() <= 0x2000,
{
    let mut text = concat(device, " ");
    let digits = to_decimal(physical_sector);
    text.append(digits.as_str());
    proof {
        assert(text@ =~= device@ + " "@ + decimal(physical_sector as nat));
        let number = decimal(physical_sector as nat);
        lemma_decimal_len(physical_sector);
        lemma_encode_concat(device@ + " "@, number);
        lemma_encode_concat(device@, " "@);
        lemma_encode_len(number);
        reveal_strlit(" ");
        lemma_encode_len(" "@);
    }
    let bytes = text.as_str().as_bytes();
    let size = DM_TARGET_SIZE as usize + bytes.len() + 1;
    let padding = (8 - size % 8) % 8;
    let mut out: Vec<u8> = Vec::new();
    proof {
        reveal_strlit("linear");
        assert(is_ascii("linear"));
        is_ascii_spec_bytes("linear");
        lemma_widths();
    }
    push_target(&mut out, sector_start, num_sectors, (size + padding) as u32, "linear");
    push_bytes(&mut out, bytes);
    push_zeros(&mut out, 1);
    push_zeros(&mut out, padding);
    assert(out@ =~= linear_target(sector_start, num_sectors, device@, physical_sector));
    out
}

/// Renders a target that reads as zeros.
pub fn build_zero_target(sector_start: u64, num_sectors: u64) -> (r: Vec<u8>)
    ensures
        r@ == zero_target(sector_start, num_sectors),
        r@.len() == DM_TARGET_SIZE,
{
    let mut out: Vec<u8> = Vec::new();
    proof {
        reveal_strlit("zero");
        assert(is_ascii("zero"));
        is_ascii_spec_bytes("zero");
        lemma_widths();
    }
    push_target(&mut out, sector_start, num_sectors, DM_TARGET_SIZE, "zero");
    assert(out@ =~= zero_target(sector_start, num_sectors));
    out
}

/// The targets of the extents from the `i`-th on, the first of which covers the
/// sectors of the mapping from `start` on.
pub open spec fn targets_from(extents: Seq<Extent>, device: Seq<char>, i: int, start: int) -> Result<
    Seq<u8>,
    Error,
>
    decreases extents.len() - i,
{
    if i < 0 || i >= extents.len() {
        Ok(Seq::empty())
    } else {
        let e = extents[i];
        let rest = targets_from(extents, device, i + 1, start + e.num_sectors);
        if e.target_type == LP_TARGET_TYPE_LINEAR {
            join_targets(
                linear_target(start as u64, e.num_sectors, device, e.target_data),
                rest,
            )
        } else if e.target_type == LP_TARGET_TYPE_ZERO {
            join_targets(zero_target(start as u64, e.num_sectors), rest)
        } else {
            Err(Error::Invalid(Fault::ExtentType { target_type: e.target_type }))
        }
    }
}

/// A target in front of others.
pub open spec fn join_targets(first: Seq<u8>, rest: Result<Seq<u8>, Error>) -> Result<
    Seq<u8>,
    Error,
> {
    match rest {
        Ok(s) => Ok(first + s),
        Err(e) => Err(e),
    }
}

/// Renders the table of a mapping: one target for each extent, in order.
pub fn build_table(extents: &Vec<Extent>, device: &str) -> (r: Result<Vec<u8>, Error>)
    requires
        device.spec_bytes().len() <= 4096,
        sector_total(extents@) <= u64::MAX,
    ensures
        match r {
            Ok(v) => targets_from(extents@, device@, 0, 0) == Ok::<Seq<u8>, Error>(v@),
            Err(e) => targets_from(extents@, device@, 0, 0) == Err::<Seq<u8>, Error>(e),
        },
{
    let ghost whole = targets_from(extents@, device@, 0, 0);
    let mut out: Vec<u8> = Vec::new();
    let mut start: u64 = 0;
    let mut i: usize = 0;
    proof {
        if whole is Ok {
            assert(out@ + whole->Ok_0 =~= whole->Ok_0);
        }
        assert(extents@.take(0) =~= Seq::<Extent>::empty());
    }
    while i < extents.len()
        invariant
            i <= extents.len(),
            device.spec_bytes().len() <= 4096,
            sector_total(extents@) <= u64::MAX,
            start == sector_total(extents@.take(i as int)),
            whole == targets_from(extents@, device@, 0, 0),
            whole == join_targets(
                out@,
                targets_from(extents@, device@, i as int, start as int),
            ),
        decreases extents.len() - i,
    {
        let e = extents[i];
        proof {
            assert(extents@.take(i + 1).drop_last() =~= extents@.take(i as int));
            lemma_prefix_total(extents@, i + 1);
        }
        let ghost before = out@;
        let mut target = if e.target_type == LP_TARGET_TYPE_LINEAR {
            build_linear_target(start, e.num_sectors, device, e.target_data)
        } else if e.target_type == LP_TARGET_TYPE_ZERO {
            build_zero_target(start, e.num_sectors)
        } else {
            return Err(Error::Invalid(Fault::ExtentType { target_type: e.target_type }));
        };
        let ghost added = target@;
        out.append(&mut target);
        proof {
            let rest = targets_from(extents@, device@, i + 1, start + e.num_sectors);
            if rest is Ok {
                assert(before + (added + rest->Ok_0) =~= out@ + rest->Ok_0);
            }
        }
        start = start + e.num_sectors;
        i += 1;
    }
    assert(out@ + Seq::<u8>::empty() =~= out@);
    Ok(out)
}

/// A front of a list of extents has no more sectors than the whole.
pub proof fn lemma_prefix_total(extents: Seq<Extent>, n: int)
    requires
        0 <= n <= extents.len(),
    ensures
        0 <= sector_total(extents.take(n)) <= sector_total(extents),
    decreases extents.len(),
{
    if n == extents.len() {
        assert(extents.take(n) =~= extents);
        lemma_sector_total(extents);
    } else {
        lemma_prefix_total(extents.drop_last(), n);
        assert(extents.drop_last().take(n) =~= extents.take(n));
    }
}

/// A mapping to be made: its name, and the request that loads its table.
#[derive(Debug)]
pub struct MapPlan {
    pub name: String,
    pub readonly: bool,
    pub targets: u32,
    pub load: Vec<u8>,
}

/// The request that loads a table.
pub open spec fn load_request(name: Seq<char>, table: Seq<u8>, targets: u32, readonly: bool) -> Seq<
    u8,
> {
    request_head(
        name,
        (DM_IOCTL_SIZE + table.len()) as u32,
        DM_IOCTL_SIZE,
        targets,
        if readonly {
            DM_READONLY_FLAG
        } else {
            0
        },
    ) + table
}

/// The extents of a partition that are in the table.
fn chain(data: &SuperData, part_idx: usize) -> (r: Vec<Extent>)
    requires
        part_idx < data.partitions@.len(),
    ensures
        r@ == extents_of_partition(data.extents@, data.partitions@[part_idx as int]@),
        r@.len() <= data.partitions@[part_idx as int].num_extents,
{
    let p = &data.partitions[part_idx];
    let ghost all = extents_of_partition(data.extents@, p@);
    let first = p.first_extent_index as u64;
    let mut out: Vec<Extent> = Vec::new();
    let mut i: u32 = 0;
    while i < p.num_extents && first + (i as u64) < data.extents.len() as u64
        invariant
            first == p.first_extent_index,
            i <= p.num_extents,
            i <= all.len(),
            all == extents_of_partition(data.extents@, p@),
            out@ == all.take(i as int),
        decreases p.num_extents - i,
    {
        out.push(data.extents[(first + i as u64) as usize]);
        assert(all.take(i + 1) =~= all.take(i as int).push(all[i as int]));
        i += 1;
    }
    assert(all.take(i as int) =~= all);
    out
}

/// Whether this is the plan of the mapping of the `i`-th partition.
pub open spec fn map_planned(
    t: TablesView,
    i: int,
    device: Seq<char>,
    force_writable: bool,
    r: Result<MapPlan, Error>,
) -> bool {
    let p = t.partitions[i];
    let extents = extents_of_partition(t.extents, p);
    let readonly = p.attributes & LP_PARTITION_ATTR_READONLY != 0 && !force_writable;
    if p.num_extents == 0 {
        r == Err::<MapPlan, Error>(Error::Invalid(Fault::NoExtents))
    } else if sector_total(extents) > u64::MAX {
        r == Err::<MapPlan, Error>(Error::Invalid(Fault::SectorRange))
    } else {
        match targets_from(extents, device, 0, 0) {
            Err(e) => r == Err::<MapPlan, Error>(e),
            Ok(table) => r matches Ok(plan) && {
                &&& plan.name@ == p.name
                &&& plan.readonly == readonly
                &&& plan.targets == extents.len()
                &&& plan.load@ == load_request(p.name, table, extents.len() as u32, readonly)
            },
        }
    }
}

/// Plans the mapping of a partition onto a block device. It is read-only where
/// the partition is, unless that is overridden.
pub fn plan_map(data: &SuperData, part_idx: usize, device: &str, force_writable: bool) -> (r: Result<
    MapPlan,
    Error,
>)
    requires
        part_idx < data.partitions@.len(),
        device.spec_bytes().len() <= 4096,
    ensures
        map_planned(data@.tables, part_idx as int, device@, force_writable, r),
{
    let p = &data.partitions[part_idx];
    assert(data@.tables.partitions[part_idx as int] == p@);
    if p.num_extents == 0 {
        return Err(Error::Invalid(Fault::NoExtents));
    }
    let extents = chain(data, part_idx);
    let mut total: u64 = 0;
    let mut i: usize = 0;
    while i < extents.len()
        invariant
            i <= extents.len(),
            total == sector_total(extents@.take(i as int)),
            extents@ == extents_of_partition(data.extents@, data.partitions@[part_idx as int]@),
            part_idx < data.partitions@.len(),
            data.partitions@[part_idx as int].num_extents > 0,
        decreases extents.len() - i,
    {
        proof {
            assert(extents@.take(i + 1).drop_last() =~= extents@.take(i as int));
            lemma_prefix_total(extents@, i + 1);
        }
        total =
        match total.checked_add(extents[i].num_sectors) {
            Some(v) => v,
            None => {
                return Err(Error::Invalid(Fault::SectorRange));
            },
        };
        i += 1;
    }
    assert(extents@.take(i as int) =~= extents@);
    let mut table = build_table(&extents, device)?;
    let readonly = p.attributes & LP_PARTITION_ATTR_READONLY != 0 && !force_writable;
    let targets = extents.len() as u32;
    let size = table.len() as u128 + DM_IOCTL_SIZE as u128;
    let mut load = dm_head(
        p.name.as_str(),
        size as u32,
        DM_IOCTL_SIZE,
        targets,
        if readonly {
            DM_READONLY_FLAG
        } else {
            0
        },
    );
    load.append(&mut table);
    Ok(MapPlan { name: p.name.clone(), readonly, targets, load })
}

} // verus!
