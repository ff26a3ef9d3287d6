//! The fields of partitions, extents, groups and devices as text.

use crate::encoding::{sat_mul, saturating_mul};
use crate::format::{
    BlockDevice, BlockDeviceView, Extent, Group, GroupView, Partition, PartitionView,
    LP_PARTITION_ATTR_READONLY, LP_PARTITION_ATTR_SLOT_SUFFIXED, LP_SECTOR_SIZE,
    LP_TARGET_TYPE_LINEAR, LP_TARGET_TYPE_ZERO,
};
use crate::reader::data::{
    attr_text, base_of, capped, extents_of_partition, sector_total, suffix_of, SuperData, SuperView,
};
use crate::text::{concat, decimal, hexadecimal, str_eq, to_decimal, to_hexadecimal};
use vstd::prelude::*;
use vstd::string::*;

verus! {

/// The units of sizes for people.
pub const KIB: u64 = 0x400;

pub const MIB: u64 = 0x10_0000;

pub const GIB: u64 = 0x4000_0000;

pub const TIB: u64 = 0x100_0000_0000;

/// A number below one hundred with two digits.
pub open spec fn two_digits(n: nat) -> Seq<char> {
    if n < 10 {
        "0"@ + decimal(n)
    } else {
        decimal(n)
    }
}

/// A size in a unit, with two decimals.
pub open spec fn in_unit(n: u64, unit: u64, name: Seq<char>) -> Seq<char> {
    decimal((n / unit) as nat) + "."@ + two_digits(((n % unit) * 100 / unit as int) as nat) + name
}

/// A size for people: in the largest unit that it reaches.
pub open spec fn human(n: u64) -> Seq<char> {
    if n >= TIB {
        in_unit(n, TIB, " TiB"@)
    } else if n >= GIB {
        in_unit(n, GIB, " GiB"@)
    } else if n >= MIB {
        in_unit(n, MIB, " MiB"@)
    } else if n >= KIB {
        in_unit(n, KIB, " KiB"@)
    } else {
        decimal(n as nat) + " B"@
    }
}

fn write_unit(n: u64, unit: u64, name: &str) -> (r: String)
    requires
        0 < unit <= TIB,
    ensures
        r@ == in_unit(n, unit, name@),
{
    proof {
        assert((n % unit) * 100 <= 0xffff_ffff_ffff) by {
            assert(n % unit < unit);
        }
    }
    let part = (n % unit) * 100 / unit;
    let mut out = concat(to_decimal(n / unit).as_str(), ".");
    if part < 10 {
        out.append("0");
    }
    out.append(to_decimal(part).as_str());
    out.append(name);
    assert(out@ =~= in_unit(n, unit, name@));
    out
}

/// Writes a size for people.
pub fn human_size(n: u64) -> (r: String)
    ensures
        r@ == human(n),
{
    if n >= TIB {
        write_unit(n, TIB, " TiB")
    } else if n >= GIB {
        write_unit(n, GIB, " GiB")
    } else if n >= MIB {
        write_unit(n, MIB, " MiB")
    } else if n >= KIB {
        write_unit(n, KIB, " KiB")
    } else {
        concat(to_decimal(n).as_str(), " B")
    }
}

/// A truth value as text.
pub open spec fn truth(b: bool) -> Seq<char> {
    if b {
        "true"@
    } else {
        "false"@
    }
}

/// Writes a truth value.
pub fn write_truth(b: bool) -> (r: String)
    ensures
        r@ == truth(b),
{
    if b {
        String::from_str("true")
    } else {
        String::from_str("false")
    }
}

/// The size of a partition in bytes.
pub open spec fn size_of(d: SuperView, p: PartitionView) -> u64 {
    capped(512 * sector_total(extents_of_partition(d.tables.extents, p)))
}

/// The size of a partition in sectors.
pub open spec fn sectors_of(d: SuperView, p: PartitionView) -> u64 {
    capped(sector_total(extents_of_partition(d.tables.extents, p)))
}

/// The name of a partition's group.
pub open spec fn group_name_of(d: SuperView, p: PartitionView) -> Seq<char> {
    if p.group_index < d.tables.groups.len() {
        d.tables.groups[p.group_index as int].name
    } else {
        Seq::empty()
    }
}

/// The largest size of a partition's group.
pub open spec fn group_max_of(d: SuperView, p: PartitionView) -> u64 {
    if p.group_index < d.tables.groups.len() {
        d.tables.groups[p.group_index as int].maximum_size
    } else {
        0
    }
}

/// Whether a partition has a first extent in the table.
pub open spec fn has_first(d: SuperView, p: PartitionView) -> bool {
    p.num_extents > 0 && p.first_extent_index < d.tables.extents.len()
}

/// The byte offset of an extent on its device.
pub open spec fn phys_of(e: Extent) -> u64 {
    if e.target_type == LP_TARGET_TYPE_LINEAR {
        sat_mul(e.target_data, 512)
    } else {
        0
    }
}

/// The byte offset of a partition's first extent.
pub open spec fn first_phys_of(d: SuperView, p: PartitionView) -> u64 {
    if has_first(d, p) {
        phys_of(d.tables.extents[p.first_extent_index as int])
    } else {
        0
    }
}

/// The name of an extent's device, or else `missing`.
pub open spec fn device_of(d: SuperView, e: Extent, missing: Seq<char>) -> Seq<char> {
    if e.target_source < d.tables.block_devices.len() {
        d.tables.block_devices[e.target_source as int].partition_name
    } else {
        missing
    }
}

/// The name of the device of a partition's first extent.
pub open spec fn first_device_of(d: SuperView, p: PartitionView) -> Seq<char> {
    if has_first(d, p) {
        device_of(d, d.tables.extents[p.first_extent_index as int], Seq::empty())
    } else {
        Seq::empty()
    }
}

/// The slot letter of a name, or nothing.
pub open spec fn suffix_text(name: Seq<char>) -> Seq<char> {
    match suffix_of(name) {
        Some(s) => s,
        None => Seq::empty(),
    }
}

/// Writes the slot letter of a name.
pub fn write_suffix(name: &str) -> (r: String)
    ensures
        r@ == suffix_text(name@),
{
    match SuperData::find_suffix(name) {
        Some(s) => String::from_str(s),
        None => {
            let s = String::new();
            assert(s@ =~= Seq::<char>::empty());
            s
        },
    }
}

/// The name of an extent's device, or else `missing`.
pub fn device_name<'a>(data: &'a SuperData, e: &Extent, missing: &'a str) -> (r: &'a str)
    ensures
        r@ == device_of(data@, *e, missing@),
{
    if (e.target_source as usize) < data.devices.len() {
        data.devices[e.target_source as usize].partition_name.as_str()
    } else {
        missing
    }
}

/// The byte offset of an extent on its device.
pub fn phys_offset(e: &Extent) -> (r: u64)
    ensures
        r == phys_of(*e),
{
    if e.target_type == LP_TARGET_TYPE_LINEAR {
        saturating_mul(e.target_data, LP_SECTOR_SIZE)
    } else {
        0
    }
}

/// A field of a partition: the columns of a table, and those only for single
/// values.
pub open spec fn partition_field(d: SuperView, p: PartitionView, field: Seq<char>) -> Option<
    Seq<char>,
> {
    if field == "name"@ {
        Some(p.name)
    } else if field == "base_name"@ {
        Some(base_of(p.name))
    } else if field == "suffix"@ {
        Some(suffix_text(p.name))
    } else if field == "group"@ {
        Some(group_name_of(d, p))
    } else if field == "group_index"@ {
        Some(decimal(p.group_index as nat))
    } else if field == "group_max_size"@ {
        Some(decimal(group_max_of(d, p) as nat))
    } else if field == "size"@ {
        Some(decimal(size_of(d, p) as nat))
    } else if field == "sectors"@ {
        Some(decimal(sectors_of(d, p) as nat))
    } else if field == "extents"@ {
        Some(decimal(p.num_extents as nat))
    } else if field == "attrs"@ {
        Some(attr_text(p.attributes))
    } else if field == "attributes"@ {
        Some(decimal(p.attributes as nat))
    } else if field == "first_extent"@ {
        Some(decimal(p.first_extent_index as nat))
    } else if field == "first_phys_offset"@ {
        Some(decimal(first_phys_of(d, p) as nat))
    } else if field == "first_phys_offset_hex"@ {
        Some(hexadecimal(first_phys_of(d, p) as nat))
    } else if field == "device"@ {
        Some(first_device_of(d, p))
    } else if field == "readonly"@ {
        Some(truth(p.attributes & LP_PARTITION_ATTR_READONLY != 0))
    } else {
        None
    }
}

/// Writes a field of a partition.
pub fn write_partition_field(data: &SuperData, p: &Partition, field: &str) -> (r: Option<String>)
    ensures
        match r {
            Some(s) => partition_field(data@, p@, field@) == Some(s@),
            None => partition_field(data@, p@, field@) is None,
        },
{
    if str_eq(field, "name") {
        Some(p.name.clone())
    } else if str_eq(field, "base_name") {
        Some(String::from_str(SuperData::strip_suffix(p.name.as_str())))
    } else if str_eq(field, "suffix") {
        Some(write_suffix(p.name.as_str()))
    } else if str_eq(field, "group") {
        Some(String::from_str(data.partition_group_name(p)))
    } else if str_eq(field, "group_index") {
        Some(to_decimal(p.group_index as u64))
    } else if str_eq(field, "group_max_size") {
        Some(to_decimal(data.partition_group_max_size(p)))
    } else if str_eq(field, "size") {
        Some(to_decimal(data.partition_size(p)))
    } else if str_eq(field, "sectors") {
        Some(to_decimal(data.partition_sectors(p)))
    } else if str_eq(field, "extents") {
        Some(to_decimal(p.num_extents as u64))
    } else if str_eq(field, "attrs") {
        Some(SuperData::partition_attr_string(p.attributes))
    } else if str_eq(field, "attributes") {
        Some(to_decimal(p.attributes as u64))
    } else if str_eq(field, "first_extent") {
        Some(to_decimal(p.first_extent_index as u64))
    } else if str_eq(field, "first_phys_offset") {
        Some(to_decimal(data.partition_first_phys_offset(p)))
    } else if str_eq(field, "first_phys_offset_hex") {
        Some(to_hexadecimal(data.partition_first_phys_offset(p)))
    } else if str_eq(field, "device") {
        Some(String::from_str(data.partition_device_name(p)))
    } else if str_eq(field, "readonly") {
        Some(write_truth(p.attributes & LP_PARTITION_ATTR_READONLY != 0))
    } else {
        None
    }
}

/// A single value of a partition.
pub open spec fn partition_value(d: SuperView, p: PartitionView, field: Seq<char>) -> Option<
    Seq<char>,
> {
    if field == "group_max_size_human"@ {
        Some(human(group_max_of(d, p)))
    } else if field == "size_human"@ {
        Some(human(size_of(d, p)))
    } else if field == "slot_suffixed"@ {
        Some(truth(p.attributes & LP_PARTITION_ATTR_SLOT_SUFFIXED != 0))
    } else {
        partition_field(d, p, field)
    }
}

/// Writes a single value of a partition.
pub fn write_partition_value(data: &SuperData, p: &Partition, field: &str) -> (r: Option<String>)
    ensures
        match r {
            Some(s) => partition_value(data@, p@, field@) == Some(s@),
            None => partition_value(data@, p@, field@) is None,
        },
{
    if str_eq(field, "group_max_size_human") {
        Some(human_size(data.partition_group_max_size(p)))
    } else if str_eq(field, "size_human") {
        Some(human_size(data.partition_size(p)))
    } else if str_eq(field, "slot_suffixed") {
        Some(write_truth(p.attributes & LP_PARTITION_ATTR_SLOT_SUFFIXED != 0))
    } else {
        write_partition_field(data, p, field)
    }
}

/// A column of the partition table. The size is for people unless bytes are
/// asked for; an unknown column is empty.
pub open spec fn column(d: SuperView, p: PartitionView, name: Seq<char>, bytes: bool) -> Seq<char> {
    if name == "size"@ && !bytes {
        human(size_of(d, p))
    } else if name == "size_bytes"@ {
        decimal(size_of(d, p) as nat)
    } else {
        match partition_field(d, p, name) {
            Some(s) => s,
            None => Seq::empty(),
        }
    }
}

/// Writes a column of the partition table.
pub fn tsv_column(data: &SuperData, p: &Partition, col: &str, bytes: bool) -> (r: String)
    ensures
        r@ == column(data@, p@, col@, bytes),
{
    if !bytes && str_eq(col, "size") {
        return human_size(data.partition_size(p));
    }
    if str_eq(col, "size_bytes") {
        return to_decimal(data.partition_size(p));
    }
    match write_partition_field(data, p, col) {
        Some(s) => s,
        None => {
            let s = String::new();
            assert(s@ =~= Seq::<char>::empty());
            s
        },
    }
}

/// The kind of an extent as text.
pub open spec fn kind_text(target_type: u32) -> Seq<char> {
    if target_type == LP_TARGET_TYPE_LINEAR {
        "linear"@
    } else if target_type == LP_TARGET_TYPE_ZERO {
        "zero"@
    } else {
        "unknown"@
    }
}

/// Writes the kind of an extent.
pub fn kind_name(target_type: u32) -> (r: &'static str)
    ensures
        r@ == kind_text(target_type),
{
    if target_type == LP_TARGET_TYPE_LINEAR {
        "linear"
    } else if target_type == LP_TARGET_TYPE_ZERO {
        "zero"
    } else {
        "unknown"
    }
}

/// A single value of an extent.
pub open spec fn extent_value(d: SuperView, e: Extent, field: Seq<char>) -> Option<Seq<char>> {
    let size = sat_mul(e.num_sectors, 512);
    if field == "type"@ {
        Some(kind_text(e.target_type))
    } else if field == "sectors"@ {
        Some(decimal(e.num_sectors as nat))
    } else if field == "size"@ {
        Some(decimal(size as nat))
    } else if field == "size_human"@ {
        Some(human(size))
    } else if field == "phys_offset"@ {
        Some(decimal(phys_of(e) as nat))
    } else if field == "phys_offset_hex"@ {
        Some(hexadecimal(phys_of(e) as nat))
    } else if field == "target_data"@ {
        Some(decimal(e.target_data as nat))
    } else if field == "target_source"@ {
        Some(decimal(e.target_source as nat))
    } else if field == "device"@ {
        Some(device_of(d, e, Seq::empty()))
    } else {
        None
    }
}

/// Writes a single value of an extent.
pub fn write_extent_value(data: &SuperData, e: &Extent, field: &str) -> (r: Option<String>)
    ensures
        match r {
            Some(s) => extent_value(data@, *e, field@) == Some(s@),
            None => extent_value(data@, *e, field@) is None,
        },
{
    let size = saturating_mul(e.num_sectors, LP_SECTOR_SIZE);
    if str_eq(field, "type") {
        Some(String::from_str(kind_name(e.target_type)))
    } else if str_eq(field, "sectors") {
        Some(to_decimal(e.num_sectors))
    } else if str_eq(field, "size") {
        Some(to_decimal(size))
    } else if str_eq(field, "size_human") {
        Some(human_size(size))
    } else if str_eq(field, "phys_offset") {
        Some(to_decimal(phys_offset(e)))
    } else if str_eq(field, "phys_offset_hex") {
        Some(to_hexadecimal(phys_offset(e)))
    } else if str_eq(field, "target_data") {
        Some(to_decimal(e.target_data))
    } else if str_eq(field, "target_source") {
        Some(to_decimal(e.target_source as u64))
    } else if str_eq(field, "device") {
        proof {
            reveal_strlit("");
            assert(""@ =~= Seq::<char>::empty());
        }
        Some(String::from_str(device_name(data, e, "")))
    } else {
        None
    }
}

/// A single value of a group.
pub open spec fn group_value(g: GroupView, field: Seq<char>) -> Option<Seq<char>> {
    if field == "name"@ {
        Some(g.name)
    } else if field == "flags"@ {
        Some(decimal(g.flags as nat))
    } else if field == "max_size"@ {
        Some(decimal(g.maximum_size as nat))
    } else if field == "max_size_human"@ {
        Some(human(g.maximum_size))
    } else {
        None
    }
}

/// Writes a single value of a group.
pub fn write_group_value(g: &Group, field: &str) -> (r: Option<String>)
    ensures
        match r {
            Some(s) => group_value(g@, field@) == Some(s@),
            None => group_value(g@, field@) is None,
        },
{
    if str_eq(field, "name") {
        Some(g.name.clone())
    } else if str_eq(field, "flags") {
        Some(to_decimal(g.flags as u64))
    } else if str_eq(field, "max_size") {
        Some(to_decimal(g.maximum_size))
    } else if str_eq(field, "max_size_human") {
        Some(human_size(g.maximum_size))
    } else {
        None
    }
}

/// A single value of a device.
pub open spec fn device_value(d: BlockDeviceView, field: Seq<char>) -> Option<Seq<char>> {
    if field == "name"@ {
        Some(d.partition_name)
    } else if field == "first_sector"@ {
        Some(decimal(d.first_logical_sector as nat))
    } else if field == "alignment"@ {
        Some(decimal(d.alignment as nat))
    } else if field == "size"@ {
        Some(decimal(d.size as nat))
    } else if field == "size_human"@ {
        Some(human(d.size))
    } else {
        None
    }
}

/// Writes a single value of a device.
pub fn write_device_value(d: &BlockDevice, field: &str) -> (r: Option<String>)
    ensures
        match r {
            Some(s) => device_value(d@, field@) == Some(s@),
            None => device_value(d@, field@) is None,
        },
{
    if str_eq(field, "name") {
        Some(d.partition_name.clone())
    } else if str_eq(field, "first_sector") {
        Some(to_decimal(d.first_logical_sector))
    } else if str_eq(field, "alignment") {
        Some(to_decimal(d.alignment as u64))
    } else if str_eq(field, "size") {
        Some(to_decimal(d.size))
    } else if str_eq(field, "size_human") {
        Some(human_size(d.size))
    } else {
        None
    }
}

/// Two numbers with a point between them.
pub open spec fn version_text(major: u16, minor: u16) -> Seq<char> {
    decimal(major as nat) + "."@ + decimal(minor as nat)
}

/// Writes a version.
pub fn write_version(major: u16, minor: u16) -> (r: String)
    ensures
        r@ == version_text(major, minor),
{
    let mut s = concat(to_decimal(major as u64).as_str(), ".");
    s.append(to_decimal(minor as u64).as_str());
    s
}

} // verus!
