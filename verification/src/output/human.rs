//! Metadata as text for people.

use crate::encoding::{sat_mul, saturating_mul};
use crate::format::{
    views, BlockDevice, BlockDeviceView, Extent, Group, GroupView, Partition, PartitionView,
    LP_SECTOR_SIZE, LP_TARGET_TYPE_LINEAR, LP_TARGET_TYPE_ZERO,
};
use crate::output::fields::{
    device_name, device_of, group_name_of, human, human_size, size_of, version_text, write_version,
};
use crate::output::get::{suffixes, write_suffixes};
use crate::output::rows::shown;
use crate::reader::data::{
    attr_text, capped, extents_of_partition, option_view, SuperData, SuperView,
};
use crate::text::{concat, decimal, hexadecimal, joined, texts, to_decimal, to_hexadecimal};
use vstd::prelude::*;
use vstd::string::*;

verus! {

/// The sections of the overview.
#[derive(Debug, Clone, Copy, PartialEq, Eq, Structural)]
pub struct Sections {
    pub info: bool,
    pub groups: bool,
    pub devices: bool,
    pub partitions: bool,
    pub extents: bool,
    pub mapping: bool,
}

/// A size in bytes, and for people in brackets.
pub open spec fn both_sizes(n: u64) -> Seq<char> {
    decimal(n as nat) + " ("@ + human(n) + ")"@
}

fn write_both(n: u64) -> (r: String)
    ensures
        r@ == both_sizes(n),
{
    let mut s = concat(to_decimal(n).as_str(), " (");
    s.append(human_size(n).as_str());
    s.append(")");
    s
}

/// A heading with a count.
pub open spec fn heading(title: Seq<char>, count: nat) -> Seq<char> {
    "=== "@ + title + " ("@ + decimal(count) + ") ==="@
}

fn write_heading(title: &str, count: usize) -> (r: String)
    ensures
        r@ == heading(title@, count as nat),
{
    let mut s = concat("=== ", title);
    s.append(" (");
    s.append(to_decimal(count as u64).as_str());
    s.append(") ===");
    s
}

/// The place of an item in its table.
pub open spec fn place(i: nat) -> Seq<char> {
    "["@ + decimal(i) + "] "@
}

fn write_place(i: usize) -> (r: String)
    ensures
        r@ == place(i as nat),
{
    let mut s = concat("[", to_decimal(i as u64).as_str());
    s.append("] ");
    s
}

/// Adds a line.
fn push_line(out: &mut Vec<String>, line: String)
    ensures
        texts(final(out)@) == texts(old(out)@).push(line@),
{
    let ghost text = line@;
    out.push(line);
    assert(texts(out@) =~= texts(old(out)@).push(text));
}

/// Adds an empty line.
fn push_blank(out: &mut Vec<String>)
    ensures
        texts(final(out)@) == texts(old(out)@).push(Seq::empty()),
{
    let s = String::new();
    assert(s@ =~= Seq::<char>::empty());
    push_line(out, s);
}

/// Adds a line made of a label and a value.
fn push_item(out: &mut Vec<String>, label: &str, value: &str)
    ensures
        texts(final(out)@) == texts(old(out)@).push(label@ + value@),
{
    push_line(out, concat(label, value));
}

/// The lines about the image as a whole.
pub open spec fn info_section(d: SuperView) -> Seq<Seq<char>> {
    seq![
        "=== Super Partition Info ==="@,
        "format: "@ + d.image_format,
        "size: "@ + both_sizes(d.image_size),
        "geometry_offset: "@ + hexadecimal(d.geometry_offset as nat),
        "metadata_offset: "@ + (hexadecimal(d.metadata_offset as nat) + " (slot "@ + decimal(
            d.metadata_slot as nat,
        ) + ")"@),
        "metadata_max_size: "@ + decimal(d.geometry.metadata_max_size as nat),
        "metadata_slot_count: "@ + decimal(d.geometry.metadata_slot_count as nat),
        "logical_block_size: "@ + decimal(d.geometry.logical_block_size as nat),
        "metadata_version: "@ + version_text(d.header.major_version, d.header.minor_version),
        "header_size: "@ + decimal(d.header.header_size as nat),
        "tables_size: "@ + decimal(d.header.tables_size as nat),
        "available_suffixes: "@ + joined(suffixes(d), ","@),
        Seq::empty(),
    ]
}

fn push_info(out: &mut Vec<String>, data: &SuperData)
    ensures
        texts(final(out)@) == texts(old(out)@) + info_section(data@),
{
    push_line(out, String::from_str("=== Super Partition Info ==="));
    push_item(out, "format: ", data.image_format.as_str());
    push_item(out, "size: ", write_both(data.image_size).as_str());
    push_item(out, "geometry_offset: ", to_hexadecimal(data.geometry_offset).as_str());
    let mut at = concat(to_hexadecimal(data.metadata_offset).as_str(), " (slot ");
    at.append(to_decimal(data.metadata_slot).as_str());
    at.append(")");
    push_item(out, "metadata_offset: ", at.as_str());
    push_item(
        out,
        "metadata_max_size: ",
        to_decimal(data.geometry.metadata_max_size as u64).as_str(),
    );
    push_item(
        out,
        "metadata_slot_count: ",
        to_decimal(data.geometry.metadata_slot_count as u64).as_str(),
    );
    push_item(
        out,
        "logical_block_size: ",
        to_decimal(data.geometry.logical_block_size as u64).as_str(),
    );
    push_item(
        out,
        "metadata_version: ",
        write_version(data.header.major_version, data.header.minor_version).as_str(),
    );
    push_item(out, "header_size: ", to_decimal(data.header.header_size as u64).as_str());
    push_item(out, "tables_size: ", to_decimal(data.header.tables_size as u64).as_str());
    push_item(out, "available_suffixes: ", write_suffixes(data).as_str());
    push_blank(out);
    assert(texts(out@) =~= texts(old(out)@) + info_section(data@));
}

/// The line of a group.
pub open spec fn group_line(g: GroupView, i: nat) -> Seq<char> {
    place(i) + "name="@ + g.name + " flags="@ + hexadecimal(g.flags as nat) + " max_size="@
        + both_sizes(g.maximum_size)
}

fn write_group_line(g: &Group, i: usize) -> (r: String)
    ensures
        r@ == group_line(g@, i as nat),
{
    let mut s = write_place(i);
    s.append("name=");
    s.append(g.name.as_str());
    s.append(" flags=");
    s.append(to_hexadecimal(g.flags as u64).as_str());
    s.append(" max_size=");
    s.append(write_both(g.maximum_size).as_str());
    s
}

/// The line of a device.
pub open spec fn device_line(d: BlockDeviceView, i: nat) -> Seq<char> {
    place(i) + "name="@ + d.partition_name + " first_sector="@ + decimal(
        d.first_logical_sector as nat,
    ) + " alignment="@ + decimal(d.alignment as nat) + " size="@ + both_sizes(d.size)
}

fn write_device_line(d: &BlockDevice, i: usize) -> (r: String)
    ensures
        r@ == device_line(d@, i as nat),
{
    let mut s = write_place(i);
    s.append("name=");
    s.append(d.partition_name.as_str());
    s.append(" first_sector=");
    s.append(to_decimal(d.first_logical_sector).as_str());
    s.append(" alignment=");
    s.append(to_decimal(d.alignment as u64).as_str());
    s.append(" size=");
    s.append(write_both(d.size).as_str());
    s
}

/// The line of a partition.
pub open spec fn partition_line(d: SuperView, p: PartitionView, i: nat) -> Seq<char> {
    place(i) + "name="@ + p.name + " group="@ + group_name_of(d, p) + " attrs=["@ + attr_text(
        p.attributes,
    ) + "] extents="@ + decimal(p.num_extents as nat) + " size="@ + both_sizes(size_of(d, p))
}

fn write_partition_line(data: &SuperData, p: &Partition, i: usize) -> (r: String)
    ensures
        r@ == partition_line(data@, p@, i as nat),
{
    let mut s = write_place(i);
    s.append("name=");
    s.append(p.name.as_str());
    s.append(" group=");
    s.append(data.partition_group_name(p));
    s.append(" attrs=[");
    s.append(SuperData::partition_attr_string(p.attributes).as_str());
    s.append("] extents=");
    s.append(to_decimal(p.num_extents as u64).as_str());
    s.append(" size=");
    s.append(write_both(data.partition_size(p)).as_str());
    s
}

/// The line of an extent.
pub open spec fn extent_line(d: SuperView, e: Extent, i: nat) -> Seq<char> {
    let kind = if e.target_type == LP_TARGET_TYPE_LINEAR {
        "linear"@
    } else if e.target_type == LP_TARGET_TYPE_ZERO {
        "zero"@
    } else {
        decimal(e.target_type as nat)
    };
    let front = place(i) + "type="@ + kind + " sectors="@ + decimal(e.num_sectors as nat)
        + " size="@ + decimal(sat_mul(e.num_sectors, 512) as nat);
    if e.target_type == LP_TARGET_TYPE_LINEAR {
        front + " phys_offset="@ + hexadecimal(sat_mul(e.target_data, 512) as nat) + " device="@
            + device_of(d, e, "?"@)
    } else {
        front
    }
}

fn write_extent_line(data: &SuperData, e: &Extent, i: usize) -> (r: String)
    ensures
        r@ == extent_line(data@, *e, i as nat),
{
    let mut s = write_place(i);
    s.append("type=");
    if e.target_type == LP_TARGET_TYPE_LINEAR {
        s.append("linear");
    } else if e.target_type == LP_TARGET_TYPE_ZERO {
        s.append("zero");
    } else {
        s.append(to_decimal(e.target_type as u64).as_str());
    }
    s.append(" sectors=");
    s.append(to_decimal(e.num_sectors).as_str());
    s.append(" size=");
    s.append(to_decimal(saturating_mul(e.num_sectors, LP_SECTOR_SIZE)).as_str());
    if e.target_type == LP_TARGET_TYPE_LINEAR {
        s.append(" phys_offset=");
        s.append(to_hexadecimal(saturating_mul(e.target_data, LP_SECTOR_SIZE)).as_str());
        s.append(" device=");
        s.append(device_name(data, e, "?"));
    }
    s
}

/// The line of an extent in the chain of a partition.
pub open spec fn chain_line(d: SuperView, e: Extent, index: nat) -> Seq<char> {
    let size = sat_mul(e.num_sectors, 512);
    let from = sat_mul(e.target_data, 512);
    let front = "  extent["@ + decimal(index) + "]: "@;
    let middle = if e.target_type == LP_TARGET_TYPE_LINEAR {
        front + "linear dev="@ + device_of(d, e, "?"@) + " "@ + hexadecimal(from as nat) + ".."@
            + hexadecimal(capped(from + size) as nat)
    } else if e.target_type == LP_TARGET_TYPE_ZERO {
        front + "zero"@
    } else {
        front + "type="@ + decimal(e.target_type as nat)
    };
    middle + " ("@ + human(size) + ")"@
}

fn write_chain_line(data: &SuperData, e: &Extent, index: u64) -> (r: String)
    ensures
        r@ == chain_line(data@, *e, index as nat),
{
    let size = saturating_mul(e.num_sectors, LP_SECTOR_SIZE);
    let from = saturating_mul(e.target_data, LP_SECTOR_SIZE);
    let mut s = concat("  extent[", to_decimal(index).as_str());
    s.append("]: ");
    if e.target_type == LP_TARGET_TYPE_LINEAR {
        s.append("linear dev=");
        s.append(device_name(data, e, "?"));
        s.append(" ");
        s.append(to_hexadecimal(from).as_str());
        s.append("..");
        s.append(to_hexadecimal(from.saturating_add(size)).as_str());
    } else if e.target_type == LP_TARGET_TYPE_ZERO {
        s.append("zero");
    } else {
        s.append("type=");
        s.append(to_decimal(e.target_type as u64).as_str());
    }
    s.append(" (");
    s.append(human_size(size).as_str());
    s.append(")");
    s
}

/// The lines of all groups.
pub open spec fn groups_section(d: SuperView) -> Seq<Seq<char>> {
    let n = d.tables.groups.len();
    seq![heading("Groups"@, n)] + Seq::new(n, |i: int| group_line(d.tables.groups[i], i as nat))
        + seq![Seq::empty()]
}

/// The lines of all devices.
pub open spec fn devices_section(d: SuperView) -> Seq<Seq<char>> {
    let n = d.tables.block_devices.len();
    seq![heading("Block Devices"@, n)] + Seq::new(
        n,
        |i: int| device_line(d.tables.block_devices[i], i as nat),
    ) + seq![Seq::empty()]
}

/// The lines of partitions.
pub open spec fn partitions_section(d: SuperView, parts: Seq<PartitionView>) -> Seq<Seq<char>> {
    seq![heading("Partitions"@, parts.len())] + Seq::new(
        parts.len(),
        |i: int| partition_line(d, parts[i], i as nat),
    ) + seq![Seq::empty()]
}

/// The lines of all extents.
pub open spec fn extents_section(d: SuperView) -> Seq<Seq<char>> {
    let n = d.tables.extents.len();
    seq![heading("Extents"@, n)] + Seq::new(
        n,
        |i: int| extent_line(d, d.tables.extents[i], i as nat),
    ) + seq![Seq::empty()]
}

/// The lines of the chain of a partition.
pub open spec fn chain_lines(d: SuperView, p: PartitionView) -> Seq<Seq<char>> {
    let chain = extents_of_partition(d.tables.extents, p);
    seq!["\""@ + p.name + "\":"@] + Seq::new(
        chain.len(),
        |k: int| chain_line(d, chain[k], (p.first_extent_index + k) as nat),
    )
}

/// The lines of the chains of the first `n` partitions.
pub open spec fn mapping_section(d: SuperView, parts: Seq<PartitionView>, n: int) -> Seq<Seq<char>>
    decreases n,
{
    if n <= 0 {
        seq!["=== Partition -> Extent Mapping ==="@]
    } else {
        mapping_section(d, parts, n - 1) + chain_lines(d, parts[n - 1])
    }
}

/// A section, where it is wanted.
pub open spec fn wanted_lines(wanted: bool, lines: Seq<Seq<char>>) -> Seq<Seq<char>> {
    if wanted {
        lines
    } else {
        Seq::empty()
    }
}

/// The overview.
pub open spec fn overview(d: SuperView, parts: Seq<PartitionView>, s: Sections) -> Seq<Seq<char>> {
    wanted_lines(s.info, info_section(d)) + wanted_lines(s.groups, groups_section(d))
        + wanted_lines(s.devices, devices_section(d)) + wanted_lines(
        s.partitions,
        partitions_section(d, parts),
    ) + wanted_lines(s.extents, extents_section(d)) + wanted_lines(
        s.mapping,
        mapping_section(d, parts, parts.len() as int),
    )
}

fn push_groups(out: &mut Vec<String>, data: &SuperData)
    ensures
        texts(final(out)@) == texts(old(out)@) + groups_section(data@),
{
    let ghost d = data@;
    let ghost start = texts(out@);
    let n = data.groups.len();
    push_line(out, write_heading("Groups", n));
    let mut i: usize = 0;
    let ghost all = Seq::new(n as nat, |k: int| group_line(d.tables.groups[k], k as nat));
    assert(start.push(heading("Groups"@, n as nat)) + all.take(0) =~= texts(out@));
    while i < n
        invariant
            i <= n == data.groups@.len(),
            d == data@,
            all == Seq::new(n as nat, |k: int| group_line(d.tables.groups[k], k as nat)),
            texts(out@) == start.push(heading("Groups"@, n as nat)) + all.take(i as int),
        decreases n - i,
    {
        assert(d.tables.groups[i as int] == data.groups@[i as int]@);
        push_line(out, write_group_line(&data.groups[i], i));
        assert(all.take(i + 1) =~= all.take(i as int).push(all[i as int]));
        assert(texts(out@) =~= start.push(heading("Groups"@, n as nat)) + all.take(i + 1));
        i += 1;
    }
    push_blank(out);
    assert(all.take(n as int) =~= all);
    assert(texts(out@) =~= start + groups_section(d));
}

fn push_devices(out: &mut Vec<String>, data: &SuperData)
    ensures
        texts(final(out)@) == texts(old(out)@) + devices_section(data@),
{
    let ghost d = data@;
    let ghost start = texts(out@);
    let n = data.devices.len();
    push_line(out, write_heading("Block Devices", n));
    let mut i: usize = 0;
    let ghost all = Seq::new(n as nat, |k: int| device_line(d.tables.block_devices[k], k as nat));
    assert(start.push(heading("Block Devices"@, n as nat)) + all.take(0) =~= texts(out@));
    while i < n
        invariant
            i <= n == data.devices@.len(),
            d == data@,
            all == Seq::new(n as nat, |k: int| device_line(d.tables.block_devices[k], k as nat)),
            texts(out@) == start.push(heading("Block Devices"@, n as nat)) + all.take(i as int),
        decreases n - i,
    {
        assert(d.tables.block_devices[i as int] == data.devices@[i as int]@);
        push_line(out, write_device_line(&data.devices[i], i));
        assert(all.take(i + 1) =~= all.take(i as int).push(all[i as int]));
        assert(texts(out@) =~= start.push(heading("Block Devices"@, n as nat)) + all.take(i + 1));
        i += 1;
    }
    push_blank(out);
    assert(all.take(n as int) =~= all);
    assert(texts(out@) =~= start + devices_section(d));
}

fn push_extents(out: &mut Vec<String>, data: &SuperData)
    ensures
        texts(final(out)@) == texts(old(out)@) + extents_section(data@),
{
    let ghost d = data@;
    let ghost start = texts(out@);
    let n = data.extents.len();
    push_line(out, write_heading("Extents", n));
    let mut i: usize = 0;
    let ghost all = Seq::new(n as nat, |k: int| extent_line(d, d.tables.extents[k], k as nat));
    assert(start.push(heading("Extents"@, n as nat)) + all.take(0) =~= texts(out@));
    while i < n
        invariant
            i <= n == data.extents@.len(),
            d == data@,
            all == Seq::new(n as nat, |k: int| extent_line(d, d.tables.extents[k], k as nat)),
            texts(out@) == start.push(heading("Extents"@, n as nat)) + all.take(i as int),
        decreases n - i,
    {
        push_line(out, write_extent_line(data, &data.extents[i], i));
        assert(all.take(i + 1) =~= all.take(i as int).push(all[i as int]));
        assert(texts(out@) =~= start.push(heading("Extents"@, n as nat)) + all.take(i + 1));
        i += 1;
    }
    push_blank(out);
    assert(all.take(n as int) =~= all);
    assert(texts(out@) =~= start + extents_section(d));
}

/// References to partitions as mathematical values.
spec fn referenced(list: Seq<&Partition>) -> Seq<PartitionView> {
    views(list.map_values(|p: &Partition| *p))
}

fn push_partitions(out: &mut Vec<String>, data: &SuperData, list: &Vec<&Partition>)
    ensures
        texts(final(out)@) == texts(old(out)@) + partitions_section(data@, referenced(list@)),
{
    let ghost d = data@;
    let ghost parts = referenced(list@);
    let ghost start = texts(out@);
    let n = list.len();
    push_line(out, write_heading("Partitions", n));
    let mut i: usize = 0;
    let ghost all = Seq::new(n as nat, |k: int| partition_line(d, parts[k], k as nat));
    assert(start.push(heading("Partitions"@, n as nat)) + all.take(0) =~= texts(out@));
    while i < n
        invariant
            i <= n == list@.len(),
            d == data@,
            parts == referenced(list@),
            all == Seq::new(n as nat, |k: int| partition_line(d, parts[k], k as nat)),
            texts(out@) == start.push(heading("Partitions"@, n as nat)) + all.take(i as int),
        decreases n - i,
    {
        assert(parts[i as int] == (*list@[i as int])@);
        push_line(out, write_partition_line(data, list[i], i));
        assert(all.take(i + 1) =~= all.take(i as int).push(all[i as int]));
        assert(texts(out@) =~= start.push(heading("Partitions"@, n as nat)) + all.take(i + 1));
        i += 1;
    }
    push_blank(out);
    assert(all.take(n as int) =~= all);
    assert(texts(out@) =~= start + partitions_section(d, parts));
}

fn push_chain(out: &mut Vec<String>, data: &SuperData, p: &Partition)
    ensures
        texts(final(out)@) == texts(old(out)@) + chain_lines(data@, p@),
{
    let ghost d = data@;
    let ghost start = texts(out@);
    let ghost chain = extents_of_partition(d.tables.extents, p@);
    let mut head = concat("\"", p.name.as_str());
    head.append("\":");
    push_line(out, head);
    let first = p.first_extent_index as u64;
    let ghost title = "\""@ + p.name@ + "\":"@;
    let ghost all = Seq::new(
        chain.len(),
        |k: int| chain_line(d, chain[k], (p.first_extent_index + k) as nat),
    );
    assert(start.push(title) + all.take(0) =~= texts(out@));
    let mut i: u32 = 0;
    while i < p.num_extents && first + (i as u64) < data.extents.len() as u64
        invariant
            first == p.first_extent_index,
            i <= p.num_extents,
            i <= chain.len(),
            d == data@,
            chain == extents_of_partition(d.tables.extents, p@),
            all == Seq::new(
                chain.len(),
                |k: int| chain_line(d, chain[k], (p.first_extent_index + k) as nat),
            ),
            texts(out@) == start.push(title) + all.take(i as int),
        decreases p.num_extents - i,
    {
        let at = first + i as u64;
        let e = data.extents[at as usize];
        assert(chain[i as int] == e);
        push_line(out, write_chain_line(data, &e, at));
        assert(all.take(i + 1) =~= all.take(i as int).push(all[i as int]));
        assert(texts(out@) =~= start.push(title) + all.take(i + 1));
        i += 1;
    }
    assert(all.take(i as int) =~= all);
    assert(texts(out@) =~= start + chain_lines(d, p@));
}

fn push_mapping(out: &mut Vec<String>, data: &SuperData, list: &Vec<&Partition>)
    ensures
        texts(final(out)@) == texts(old(out)@) + mapping_section(
            data@,
            referenced(list@),
            list@.len() as int,
        ),
{
    let ghost d = data@;
    let ghost parts = referenced(list@);
    let ghost start = texts(out@);
    push_line(out, String::from_str("=== Partition -> Extent Mapping ==="));
    let mut i: usize = 0;
    assert(texts(out@) =~= start + mapping_section(d, parts, 0));
    while i < list.len()
        invariant
            i <= list.len(),
            d == data@,
            parts == referenced(list@),
            texts(out@) == start + mapping_section(d, parts, i as int),
        decreases list.len() - i,
    {
        assert(parts[i as int] == (*list@[i as int])@);
        push_chain(out, data, list[i]);
        assert(texts(out@) =~= start + mapping_section(d, parts, i + 1));
        i += 1;
    }
}

/// Writes the overview of an image, with the partitions that pass a suffix
/// filter.
pub fn human_lines(data: &SuperData, suffix: Option<&str>, sections: &Sections) -> (r: Vec<String>)
    ensures
        texts(r@) == overview(data@, shown(*data, option_view(suffix)), *sections),
{
    let list = data.filter_by_slot(suffix);
    let ghost d = data@;
    let ghost parts = shown(*data, option_view(suffix));
    assert(referenced(list@) == parts);
    assert(parts.len() == list@.len());
    let mut out: Vec<String> = Vec::new();
    let ghost none = Seq::<Seq<char>>::empty();
    assert(texts(out@) =~= none);
    if sections.info {
        push_info(&mut out, data);
    }
    let ghost a = wanted_lines(sections.info, info_section(d));
    assert(texts(out@) =~= a);
    if sections.groups {
        push_groups(&mut out, data);
    }
    let ghost b = a + wanted_lines(sections.groups, groups_section(d));
    assert(texts(out@) =~= b);
    if sections.devices {
        push_devices(&mut out, data);
    }
    let ghost c = b + wanted_lines(sections.devices, devices_section(d));
    assert(texts(out@) =~= c);
    if sections.partitions {
        push_partitions(&mut out, data, &list);
    }
    let ghost e = c + wanted_lines(sections.partitions, partitions_section(d, parts));
    assert(texts(out@) =~= e);
    if sections.extents {
        push_extents(&mut out, data);
    }
    let ghost g = e + wanted_lines(sections.extents, extents_section(d));
    assert(texts(out@) =~= g);
    if sections.mapping {
        push_mapping(&mut out, data, &list);
    }
    assert(texts(out@) =~= overview(d, parts, *sections));
    out
}

} // verus!
