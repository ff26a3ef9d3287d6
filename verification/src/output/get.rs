//! Single values by key.

use crate::commands::split_util::{find_group, group_named};
use crate::format::Partition;
use crate::output::fields::{
    device_value, extent_value, group_value, human, human_size, partition_value, version_text,
    write_device_value, write_extent_value, write_group_value, write_partition_value, write_version,
};
use crate::reader::data::{named, suffix_of, SuperData, SuperView};
use crate::reader::multiblock::{device_named, find_device};
use crate::text::{
    decimal, hexadecimal, join, joined, parse_u32, parsed_number, split, split_all, str_eq, texts,
    to_decimal, to_hexadecimal,
};
use vstd::prelude::*;
use vstd::string::*;

verus! {

/// Why a key has no value.
#[derive(Debug, Clone, Copy, PartialEq, Eq, Structural)]
pub enum GetError {
    /// No such key.
    Key,
    /// No such field.
    Field,
    /// No such partition.
    Partition,
    /// The index of an extent is not a number.
    ExtentText,
    /// The partition has fewer extents.
    ExtentRange { index: u32, count: u32 },
    /// The extent is not in the table.
    Extent,
    /// No such group.
    Group,
    /// No such device.
    Device,
}

/// Whether a suffix occurs among the partitions.
pub open spec fn suffix_occurs(d: SuperView, c: char) -> bool {
    exists|i: int|
        0 <= i < d.tables.partitions.len() && suffix_of(
            #[trigger] d.tables.partitions[i].name,
        ) == Some(seq![c])
}

/// The suffixes that occur, in order.
pub open spec fn suffixes(d: SuperView) -> Seq<Seq<char>> {
    (if suffix_occurs(d, 'a') {
        seq![seq!['a']]
    } else {
        seq![]
    }) + (if suffix_occurs(d, 'b') {
        seq![seq!['b']]
    } else {
        seq![]
    })
}

/// The names of all groups.
pub open spec fn group_names(d: SuperView) -> Seq<Seq<char>> {
    Seq::new(d.tables.groups.len(), |i: int| d.tables.groups[i].name)
}

/// The names of all devices.
pub open spec fn all_device_names(d: SuperView) -> Seq<Seq<char>> {
    Seq::new(d.tables.block_devices.len(), |i: int| d.tables.block_devices[i].partition_name)
}

/// A value of the image as a whole.
pub open spec fn image_value(d: SuperView, key: Seq<char>) -> Option<Seq<char>> {
    if key == "format"@ {
        Some(d.image_format)
    } else if key == "size"@ {
        Some(decimal(d.image_size as nat))
    } else if key == "size_human"@ {
        Some(human(d.image_size))
    } else if key == "geometry_offset"@ {
        Some(hexadecimal(d.geometry_offset as nat))
    } else if key == "metadata_offset"@ {
        Some(hexadecimal(d.metadata_offset as nat))
    } else if key == "metadata_slot"@ {
        Some(decimal(d.metadata_slot as nat))
    } else if key == "metadata_max_size"@ {
        Some(decimal(d.geometry.metadata_max_size as nat))
    } else if key == "metadata_slot_count"@ {
        Some(decimal(d.geometry.metadata_slot_count as nat))
    } else if key == "logical_block_size"@ {
        Some(decimal(d.geometry.logical_block_size as nat))
    } else if key == "metadata_version"@ {
        Some(version_text(d.header.major_version, d.header.minor_version))
    } else if key == "header_size"@ {
        Some(decimal(d.header.header_size as nat))
    } else if key == "tables_size"@ {
        Some(decimal(d.header.tables_size as nat))
    } else if key == "available_suffixes"@ {
        Some(joined(suffixes(d), ","@))
    } else if key == "partition_count"@ {
        Some(decimal(d.tables.partitions.len()))
    } else if key == "groups"@ {
        Some(joined(group_names(d), " "@))
    } else if key == "devices"@ {
        Some(joined(all_device_names(d), " "@))
    } else {
        None
    }
}

/// A value, or the reason why there is none.
pub open spec fn or_error(value: Option<Seq<char>>, e: GetError) -> Result<Seq<char>, GetError> {
    match value {
        Some(s) => Ok(s),
        None => Err(e),
    }
}

/// A value of a partition by name.
pub open spec fn get_partition(d: SuperView, name: Seq<char>, field: Seq<char>) -> Result<
    Seq<char>,
    GetError,
> {
    match named(d.tables.partitions, name, 0) {
        None => Err(GetError::Partition),
        Some(i) => or_error(
            partition_value(d, d.tables.partitions[i], field),
            GetError::Field,
        ),
    }
}

/// A value of an extent of a partition, by the place in its chain.
pub open spec fn get_extent(
    d: SuperView,
    name: Seq<char>,
    index: Seq<char>,
    field: Seq<char>,
) -> Result<Seq<char>, GetError> {
    match named(d.tables.partitions, name, 0) {
        None => Err(GetError::Partition),
        Some(i) => {
            let p = d.tables.partitions[i];
            match parsed_number(index, u32::MAX as nat) {
                None => Err(GetError::ExtentText),
                Some(k) => {
                    let at = p.first_extent_index + k;
                    if k >= p.num_extents {
                        Err(GetError::ExtentRange { index: k as u32, count: p.num_extents })
                    } else if at >= d.tables.extents.len() {
                        Err(GetError::Extent)
                    } else {
                        or_error(extent_value(d, d.tables.extents[at], field), GetError::Field)
                    }
                },
            }
        },
    }
}

/// A value of a group by name.
pub open spec fn get_group(d: SuperView, name: Seq<char>, field: Seq<char>) -> Result<
    Seq<char>,
    GetError,
> {
    match group_named(d.tables.groups, name, 0) {
        None => Err(GetError::Group),
        Some(i) => or_error(group_value(d.tables.groups[i], field), GetError::Field),
    }
}

/// A value of a device by name.
pub open spec fn get_device(d: SuperView, name: Seq<char>, field: Seq<char>) -> Result<
    Seq<char>,
    GetError,
> {
    match device_named(d.tables.block_devices, name, 0) {
        None => Err(GetError::Device),
        Some(i) => or_error(
            device_value(d.tables.block_devices[i as int], field),
            GetError::Field,
        ),
    }
}

/// The value of a key.
pub open spec fn value_of(d: SuperView, key: Seq<char>) -> Result<Seq<char>, GetError> {
    let parts = split_all(key, '.');
    if parts.len() == 1 {
        or_error(image_value(d, parts[0]), GetError::Key)
    } else if parts.len() == 3 && (parts[0] == "partitions"@ || parts[0] == "partition"@) {
        get_partition(d, parts[1], parts[2])
    } else if parts.len() == 3 && parts[0] == "group"@ {
        get_group(d, parts[1], parts[2])
    } else if parts.len() == 3 && parts[0] == "device"@ {
        get_device(d, parts[1], parts[2])
    } else if parts.len() == 5 && (parts[0] == "partitions"@ || parts[0] == "partition"@)
        && parts[2] == "extent"@ {
        get_extent(d, parts[1], parts[3], parts[4])
    } else {
        Err(GetError::Key)
    }
}

/// Whether a suffix occurs among partitions of a table.
pub open spec fn occurs_in(partitions: Seq<Partition>, c: char) -> bool {
    exists|i: int|
        0 <= i < partitions.len() && suffix_of(#[trigger] partitions[i].name@) == Some(seq![c])
}

/// A suffix occurs in the loaded tables where it occurs in their values.
pub proof fn lemma_occurs(data: &SuperData, c: char)
    ensures
        suffix_occurs(data@, c) == occurs_in(data.partitions@, c),
{
    let parts = data@.tables.partitions;
    if suffix_occurs(data@, c) {
        let i = choose|i: int|
            0 <= i < parts.len() && suffix_of(#[trigger] parts[i].name) == Some(seq![c]);
        assert(suffix_of(data.partitions@[i].name@) == Some(seq![c]));
    }
    if occurs_in(data.partitions@, c) {
        let i = choose|i: int|
            0 <= i < data.partitions@.len() && suffix_of(#[trigger] data.partitions@[i].name@)
                == Some(seq![c]);
        assert(suffix_of(parts[i].name) == Some(seq![c]));
    }
}

/// Lists the suffixes that occur.
pub fn list_suffixes(data: &SuperData) -> (r: Vec<String>)
    ensures
        texts(r@) == suffixes(data@),
{
    let list = data.available_suffixes();
    proof {
        lemma_occurs(data, 'a');
        lemma_occurs(data, 'b');
        assert(texts(list@) =~= suffixes(data@));
    }
    list
}

/// Writes the suffixes that occur.
pub fn write_suffixes(data: &SuperData) -> (r: String)
    ensures
        r@ == joined(suffixes(data@), ","@),
{
    join(&list_suffixes(data), ",")
}

/// Writes the names of all groups.
fn write_groups(data: &SuperData) -> (r: String)
    ensures
        r@ == joined(group_names(data@), " "@),
{
    let mut names: Vec<String> = Vec::new();
    let mut i: usize = 0;
    while i < data.groups.len()
        invariant
            i <= data.groups.len(),
            names@.len() == i,
            forall|k: int| 0 <= k < i ==> (#[trigger] names@[k])@ == data.groups@[k].name@,
        decreases data.groups.len() - i,
    {
        names.push(data.groups[i].name.clone());
        i += 1;
    }
    assert(texts(names@) =~= group_names(data@));
    join(&names, " ")
}

/// Writes the names of all devices.
fn write_devices(data: &SuperData) -> (r: String)
    ensures
        r@ == joined(all_device_names(data@), " "@),
{
    let mut names: Vec<String> = Vec::new();
    let mut i: usize = 0;
    while i < data.devices.len()
        invariant
            i <= data.devices.len(),
            names@.len() == i,
            forall|k: int|
                0 <= k < i ==> (#[trigger] names@[k])@ == data.devices@[k].partition_name@,
        decreases data.devices.len() - i,
    {
        names.push(data.devices[i].partition_name.clone());
        i += 1;
    }
    assert(texts(names@) =~= all_device_names(data@));
    join(&names, " ")
}

/// Writes a value of the image as a whole.
fn write_image_value(data: &SuperData, key: &str) -> (r: Option<String>)
    ensures
        match r {
            Some(s) => image_value(data@, key@) == Some(s@),
            None => image_value(data@, key@) is None,
        },
{
    if str_eq(key, "format") {
        Some(data.image_format.clone())
    } else if str_eq(key, "size") {
        Some(to_decimal(data.image_size))
    } else if str_eq(key, "size_human") {
        Some(human_size(data.image_size))
    } else if str_eq(key, "geometry_offset") {
        Some(to_hexadecimal(data.geometry_offset))
    } else if str_eq(key, "metadata_offset") {
        Some(to_hexadecimal(data.metadata_offset))
    } else if str_eq(key, "metadata_slot") {
        Some(to_decimal(data.metadata_slot))
    } else if str_eq(key, "metadata_max_size") {
        Some(to_decimal(data.geometry.metadata_max_size as u64))
    } else if str_eq(key, "metadata_slot_count") {
        Some(to_decimal(data.geometry.metadata_slot_count as u64))
    } else if str_eq(key, "logical_block_size") {
        Some(to_decimal(data.geometry.logical_block_size as u64))
    } else if str_eq(key, "metadata_version") {
        Some(write_version(data.header.major_version, data.header.minor_version))
    } else if str_eq(key, "header_size") {
        Some(to_decimal(data.header.header_size as u64))
    } else if str_eq(key, "tables_size") {
        Some(to_decimal(data.header.tables_size as u64))
    } else if str_eq(key, "available_suffixes") {
        Some(write_suffixes(data))
    } else if str_eq(key, "partition_count") {
        Some(to_decimal(data.partitions.len() as u64))
    } else if str_eq(key, "groups") {
        Some(write_groups(data))
    } else if str_eq(key, "devices") {
        Some(write_devices(data))
    } else {
        None
    }
}

/// A result as mathematical values.
pub open spec fn result_text(r: Result<String, GetError>) -> Result<Seq<char>, GetError> {
    match r {
        Ok(s) => Ok(s@),
        Err(e) => Err(e),
    }
}

fn found(value: Option<String>, e: GetError) -> (r: Result<String, GetError>)
    ensures
        result_text(r) == (match value {
            Some(s) => Ok(s@),
            None => Err(e),
        }),
{
    match value {
        Some(s) => Ok(s),
        None => Err(e),
    }
}

fn find_extent_value(data: &SuperData, name: &str, index: &str, field: &str) -> (r: Result<
    String,
    GetError,
>)
    ensures
        result_text(r) == get_extent(data@, name@, index@, field@),
{
    let i = match data.position(name) {
        Some(i) => i,
        None => {
            return Err(GetError::Partition);
        },
    };
    let p = &data.partitions[i];
    assert(data@.tables.partitions[i as int] == p@);
    let k = match parse_u32(index) {
        Some(k) => k,
        None => {
            return Err(GetError::ExtentText);
        },
    };
    if k >= p.num_extents {
        return Err(GetError::ExtentRange { index: k, count: p.num_extents });
    }
    let at = p.first_extent_index as u64 + k as u64;
    if at >= data.extents.len() as u64 {
        return Err(GetError::Extent);
    }
    let e = data.extents[at as usize];
    found(write_extent_value(data, &e, field), GetError::Field)
}

/// Gets the value of a key.
pub fn get_value(data: &SuperData, key: &str) -> (r: Result<String, GetError>)
    requires
        data.devices@.len() <= u32::MAX,
    ensures
        result_text(r) == value_of(data@, key@),
{
    let parts = split(key, '.');
    let ghost all = split_all(key@, '.');
    let n = parts.len();
    assert(all.len() == n);
    assert forall|k: int| 0 <= k < n implies all[k] == (#[trigger] parts@[k])@ by {}
    if n == 1 {
        return found(write_image_value(data, parts[0].as_str()), GetError::Key);
    }
    if n != 3 && n != 5 {
        return Err(GetError::Key);
    }
    let head = parts[0].as_str();
    let name = parts[1].as_str();
    let part = parts[2].as_str();
    let of_partition = str_eq(head, "partitions") || str_eq(head, "partition");
    if n == 5 {
        if of_partition && str_eq(part, "extent") {
            return find_extent_value(data, name, parts[3].as_str(), parts[4].as_str());
        }
        return Err(GetError::Key);
    }
    if of_partition {
        match data.position(name) {
            None => Err(GetError::Partition),
            Some(i) => {
                assert(data@.tables.partitions[i as int] == data.partitions@[i as int]@);
                found(write_partition_value(data, &data.partitions[i], part), GetError::Field)
            },
        }
    } else if str_eq(head, "group") {
        match find_group(data, name) {
            None => Err(GetError::Group),
            Some(i) => {
                assert(data@.tables.groups[i as int] == data.groups@[i as int]@);
                found(write_group_value(&data.groups[i], part), GetError::Field)
            },
        }
    } else if str_eq(head, "device") {
        match find_device(data.devices.as_slice(), name) {
            None => Err(GetError::Device),
            Some(i) => {
                assert(data@.tables.block_devices[i as int] == data.devices@[i as int]@);
                found(write_device_value(&data.devices[i as usize], part), GetError::Field)
            },
        }
    } else {
        Err(GetError::Key)
    }
}

} // verus!
