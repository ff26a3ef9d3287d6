//! Metadata as records of named values, for JSON.

use crate::encoding::{sat_mul, saturating_mul};
use crate::format::{
    views, BlockDevice, BlockDeviceView, Extent, Group, GroupView, Partition, PartitionView,
    LP_SECTOR_SIZE,
};
use crate::output::fields::{
    device_name, device_of, first_device_of, first_phys_of, group_max_of, group_name_of, human,
    human_size, kind_name, kind_text, phys_of, phys_offset, sectors_of, size_of, suffix_text,
    version_text, write_suffix, write_version,
};
use crate::output::get::{list_suffixes, suffixes};
use crate::output::rows::shown;
use crate::reader::data::{attr_text, base_of, capped, option_view, SuperData, SuperView};
use crate::text::{hexadecimal, texts, to_hexadecimal};
use vstd::prelude::*;
use vstd::string::*;

verus! {

/// A value of a record.
#[derive(Debug)]
pub enum JsonScalar {
    Text(String),
    Number(u64),
}

/// A value of a record as a mathematical value.
pub enum ScalarView {
    Text(Seq<char>),
    Number(u64),
}

impl View for JsonScalar {
    type V = ScalarView;

    open spec fn view(&self) -> ScalarView {
        match self {
            JsonScalar::Text(s) => ScalarView::Text(s@),
            JsonScalar::Number(n) => ScalarView::Number(*n),
        }
    }
}

/// A named value of a record.
#[derive(Debug)]
pub struct JsonField {
    pub key: &'static str,
    pub value: JsonScalar,
}

impl View for JsonField {
    type V = (Seq<char>, ScalarView);

    open spec fn view(&self) -> (Seq<char>, ScalarView) {
        (self.key@, self.value@)
    }
}

/// A record as a mathematical value.
pub type RecordView = Seq<(Seq<char>, ScalarView)>;

fn push_text(out: &mut Vec<JsonField>, key: &'static str, value: &str)
    ensures
        views(final(out)@) == views(old(out)@).push((key@, ScalarView::Text(value@))),
{
    let field = JsonField { key, value: JsonScalar::Text(String::from_str(value)) };
    let ghost v = field@;
    out.push(field);
    assert(views(out@) =~= views(old(out)@).push(v));
}

fn push_number(out: &mut Vec<JsonField>, key: &'static str, value: u64)
    ensures
        views(final(out)@) == views(old(out)@).push((key@, ScalarView::Number(value))),
{
    let field = JsonField { key, value: JsonScalar::Number(value) };
    let ghost v = field@;
    out.push(field);
    assert(views(out@) =~= views(old(out)@).push(v));
}

/// The record of a group.
pub open spec fn group_fields(g: GroupView) -> RecordView {
    seq![
        ("name"@, ScalarView::Text(g.name)),
        ("flags"@, ScalarView::Number(g.flags as u64)),
        ("max_size"@, ScalarView::Number(g.maximum_size)),
        ("max_size_human"@, ScalarView::Text(human(g.maximum_size))),
    ]
}

fn group_record(g: &Group) -> (r: Vec<JsonField>)
    ensures
        views(r@) == group_fields(g@),
{
    let mut out: Vec<JsonField> = Vec::new();
    push_text(&mut out, "name", g.name.as_str());
    push_number(&mut out, "flags", g.flags as u64);
    push_number(&mut out, "max_size", g.maximum_size);
    push_text(&mut out, "max_size_human", human_size(g.maximum_size).as_str());
    assert(views(out@) =~= group_fields(g@));
    out
}

/// The record of a device.
pub open spec fn device_fields(d: BlockDeviceView) -> RecordView {
    seq![
        ("name"@, ScalarView::Text(d.partition_name)),
        ("first_sector"@, ScalarView::Number(d.first_logical_sector)),
        ("alignment"@, ScalarView::Number(d.alignment as u64)),
        ("alignment_offset"@, ScalarView::Number(d.alignment_offset as u64)),
        ("size"@, ScalarView::Number(d.size)),
        ("size_human"@, ScalarView::Text(human(d.size))),
    ]
}

fn device_record(d: &BlockDevice) -> (r: Vec<JsonField>)
    ensures
        views(r@) == device_fields(d@),
{
    let mut out: Vec<JsonField> = Vec::new();
    push_text(&mut out, "name", d.partition_name.as_str());
    push_number(&mut out, "first_sector", d.first_logical_sector);
    push_number(&mut out, "alignment", d.alignment as u64);
    push_number(&mut out, "alignment_offset", d.alignment_offset as u64);
    push_number(&mut out, "size", d.size);
    push_text(&mut out, "size_human", human_size(d.size).as_str());
    assert(views(out@) =~= device_fields(d@));
    out
}

/// The record of a partition.
pub open spec fn partition_fields(d: SuperView, p: PartitionView) -> RecordView {
    seq![
        ("name"@, ScalarView::Text(p.name)),
        ("base_name"@, ScalarView::Text(base_of(p.name))),
        ("suffix"@, ScalarView::Text(suffix_text(p.name))),
        ("group"@, ScalarView::Text(group_name_of(d, p))),
        ("group_index"@, ScalarView::Number(p.group_index as u64)),
        ("group_max_size"@, ScalarView::Number(group_max_of(d, p))),
        ("attributes"@, ScalarView::Number(p.attributes as u64)),
        ("attrs"@, ScalarView::Text(attr_text(p.attributes))),
        ("num_extents"@, ScalarView::Number(p.num_extents as u64)),
        ("first_extent"@, ScalarView::Number(p.first_extent_index as u64)),
        ("first_phys_offset"@, ScalarView::Number(first_phys_of(d, p))),
        ("device"@, ScalarView::Text(first_device_of(d, p))),
        ("size"@, ScalarView::Number(size_of(d, p))),
        ("size_human"@, ScalarView::Text(human(size_of(d, p)))),
        ("sectors"@, ScalarView::Number(sectors_of(d, p))),
    ]
}

fn partition_record(data: &SuperData, p: &Partition) -> (r: Vec<JsonField>)
    ensures
        views(r@) == partition_fields(data@, p@),
{
    let size = data.partition_size(p);
    let mut out: Vec<JsonField> = Vec::new();
    push_text(&mut out, "name", p.name.as_str());
    push_text(&mut out, "base_name", SuperData::strip_suffix(p.name.as_str()));
    push_text(&mut out, "suffix", write_suffix(p.name.as_str()).as_str());
    push_text(&mut out, "group", data.partition_group_name(p));
    push_number(&mut out, "group_index", p.group_index as u64);
    push_number(&mut out, "group_max_size", data.partition_group_max_size(p));
    push_number(&mut out, "attributes", p.attributes as u64);
    push_text(&mut out, "attrs", SuperData::partition_attr_string(p.attributes).as_str());
    push_number(&mut out, "num_extents", p.num_extents as u64);
    push_number(&mut out, "first_extent", p.first_extent_index as u64);
    push_number(&mut out, "first_phys_offset", data.partition_first_phys_offset(p));
    push_text(&mut out, "device", data.partition_device_name(p));
    push_number(&mut out, "size", size);
    push_text(&mut out, "size_human", human_size(size).as_str());
    push_number(&mut out, "sectors", data.partition_sectors(p));
    assert(views(out@) =~= partition_fields(data@, p@));
    out
}

/// The record of an extent.
pub open spec fn extent_fields(d: SuperView, e: Extent) -> RecordView {
    let size = sat_mul(e.num_sectors, 512);
    seq![
        ("type"@, ScalarView::Text(kind_text(e.target_type))),
        ("type_id"@, ScalarView::Number(e.target_type as u64)),
        ("sectors"@, ScalarView::Number(e.num_sectors)),
        ("size"@, ScalarView::Number(size)),
        ("size_human"@, ScalarView::Text(human(size))),
        ("phys_offset"@, ScalarView::Number(phys_of(e))),
        ("target_data"@, ScalarView::Number(e.target_data)),
        ("target_source"@, ScalarView::Number(e.target_source as u64)),
        ("device"@, ScalarView::Text(device_of(d, e, "?"@))),
    ]
}

fn extent_record(data: &SuperData, e: &Extent) -> (r: Vec<JsonField>)
    ensures
        views(r@) == extent_fields(data@, *e),
{
    let size = saturating_mul(e.num_sectors, LP_SECTOR_SIZE);
    let mut out: Vec<JsonField> = Vec::new();
    push_text(&mut out, "type", kind_name(e.target_type));
    push_number(&mut out, "type_id", e.target_type as u64);
    push_number(&mut out, "sectors", e.num_sectors);
    push_number(&mut out, "size", size);
    push_text(&mut out, "size_human", human_size(size).as_str());
    push_number(&mut out, "phys_offset", phys_offset(e));
    push_number(&mut out, "target_data", e.target_data);
    push_number(&mut out, "target_source", e.target_source as u64);
    push_text(&mut out, "device", device_name(data, e, "?"));
    assert(views(out@) =~= extent_fields(data@, *e));
    out
}

/// The record of the image as a whole.
pub open spec fn image_fields(d: SuperView) -> RecordView {
    seq![
        ("image_format"@, ScalarView::Text(d.image_format)),
        ("image_size"@, ScalarView::Number(d.image_size)),
        ("image_size_human"@, ScalarView::Text(human(d.image_size))),
        ("geometry_offset"@, ScalarView::Text(hexadecimal(d.geometry_offset as nat))),
        ("metadata_offset"@, ScalarView::Text(hexadecimal(d.metadata_offset as nat))),
        ("metadata_slot"@, ScalarView::Number(d.metadata_slot)),
        ("metadata_max_size"@, ScalarView::Number(d.geometry.metadata_max_size as u64)),
        ("metadata_slot_count"@, ScalarView::Number(d.geometry.metadata_slot_count as u64)),
        ("logical_block_size"@, ScalarView::Number(d.geometry.logical_block_size as u64)),
        (
            "metadata_version"@,
            ScalarView::Text(version_text(d.header.major_version, d.header.minor_version)),
        ),
        ("header_size"@, ScalarView::Number(d.header.header_size as u64)),
        ("tables_size"@, ScalarView::Number(d.header.tables_size as u64)),
    ]
}

fn image_record(data: &SuperData) -> (r: Vec<JsonField>)
    ensures
        views(r@) == image_fields(data@),
{
    let mut out: Vec<JsonField> = Vec::new();
    push_text(&mut out, "image_format", data.image_format.as_str());
    push_number(&mut out, "image_size", data.image_size);
    push_text(&mut out, "image_size_human", human_size(data.image_size).as_str());
    push_text(&mut out, "geometry_offset", to_hexadecimal(data.geometry_offset).as_str());
    push_text(&mut out, "metadata_offset", to_hexadecimal(data.metadata_offset).as_str());
    push_number(&mut out, "metadata_slot", data.metadata_slot);
    push_number(&mut out, "metadata_max_size", data.geometry.metadata_max_size as u64);
    push_number(&mut out, "metadata_slot_count", data.geometry.metadata_slot_count as u64);
    push_number(&mut out, "logical_block_size", data.geometry.logical_block_size as u64);
    push_text(
        &mut out,
        "metadata_version",
        write_version(data.header.major_version, data.header.minor_version).as_str(),
    );
    push_number(&mut out, "header_size", data.header.header_size as u64);
    push_number(&mut out, "tables_size", data.header.tables_size as u64);
    assert(views(out@) =~= image_fields(data@));
    out
}

/// A slot as records.
#[derive(Debug)]
pub struct JsonSlot {
    pub image: Vec<JsonField>,
    pub available_suffixes: Vec<String>,
    pub groups: Vec<Vec<JsonField>>,
    pub devices: Vec<Vec<JsonField>>,
    pub partitions: Vec<Vec<JsonField>>,
    pub extents: Vec<Vec<JsonField>>,
}

/// Records as mathematical values.
pub open spec fn record_views(v: Seq<Vec<JsonField>>) -> Seq<RecordView> {
    v.map_values(|r: Vec<JsonField>| views(r@))
}

/// Whether these are the records of a slot, with these partitions.
pub open spec fn records_of(
    slot: JsonSlot,
    d: SuperView,
    parts: Seq<PartitionView>,
) -> bool {
    &&& views(slot.image@) == image_fields(d)
    &&& texts(slot.available_suffixes@) == suffixes(d)
    &&& record_views(slot.groups@) == d.tables.groups.map_values(|g: GroupView| group_fields(g))
    &&& record_views(slot.devices@) == d.tables.block_devices.map_values(
        |b: BlockDeviceView| device_fields(b),
    )
    &&& record_views(slot.partitions@) == parts.map_values(
        |p: PartitionView| partition_fields(d, p),
    )
    &&& record_views(slot.extents@) == d.tables.extents.map_values(|e: Extent| extent_fields(d, e))
}

fn group_records(data: &SuperData) -> (r: Vec<Vec<JsonField>>)
    ensures
        record_views(r@) == data@.tables.groups.map_values(|g: GroupView| group_fields(g)),
{
    let mut out: Vec<Vec<JsonField>> = Vec::new();
    let mut i: usize = 0;
    while i < data.groups.len()
        invariant
            i <= data.groups.len(),
            out@.len() == i,
            forall|k: int|
                0 <= k < i ==> views((#[trigger] out@[k])@) == group_fields(data.groups@[k]@),
        decreases data.groups.len() - i,
    {
        out.push(group_record(&data.groups[i]));
        i += 1;
    }
    assert(record_views(out@) =~= data@.tables.groups.map_values(|g: GroupView| group_fields(g)));
    out
}

fn device_records(data: &SuperData) -> (r: Vec<Vec<JsonField>>)
    ensures
        record_views(r@) == data@.tables.block_devices.map_values(
            |b: BlockDeviceView| device_fields(b),
        ),
{
    let mut out: Vec<Vec<JsonField>> = Vec::new();
    let mut i: usize = 0;
    while i < data.devices.len()
        invariant
            i <= data.devices.len(),
            out@.len() == i,
            forall|k: int|
                0 <= k < i ==> views((#[trigger] out@[k])@) == device_fields(data.devices@[k]@),
        decreases data.devices.len() - i,
    {
        out.push(device_record(&data.devices[i]));
        i += 1;
    }
    assert(record_views(out@) =~= data@.tables.block_devices.map_values(
        |b: BlockDeviceView| device_fields(b),
    ));
    out
}

fn extent_records(data: &SuperData) -> (r: Vec<Vec<JsonField>>)
    ensures
        record_views(r@) == data@.tables.extents.map_values(
            |e: Extent| extent_fields(data@, e),
        ),
{
    let mut out: Vec<Vec<JsonField>> = Vec::new();
    let mut i: usize = 0;
    while i < data.extents.len()
        invariant
            i <= data.extents.len(),
            out@.len() == i,
            forall|k: int|
                0 <= k < i ==> views((#[trigger] out@[k])@) == extent_fields(
                    data@,
                    data.extents@[k],
                ),
        decreases data.extents.len() - i,
    {
        out.push(extent_record(data, &data.extents[i]));
        i += 1;
    }
    assert(record_views(out@) =~= data@.tables.extents.map_values(
        |e: Extent| extent_fields(data@, e),
    ));
    out
}

fn partition_records(data: &SuperData, suffix: Option<&str>) -> (r: Vec<Vec<JsonField>>)
    ensures
        record_views(r@) == shown(*data, option_view(suffix)).map_values(
            |p: PartitionView| partition_fields(data@, p),
        ),
{
    let list = data.filter_by_slot(suffix);
    let ghost parts = shown(*data, option_view(suffix));
    let ghost plain = list@.map_values(|p: &Partition| *p);
    assert(plain.len() == list@.len());
    let mut out: Vec<Vec<JsonField>> = Vec::new();
    let mut i: usize = 0;
    while i < list.len()
        invariant
            i <= list.len() == parts.len(),
            plain == list@.map_values(|p: &Partition| *p),
            parts == views(plain),
            out@.len() == i,
            forall|k: int|
                0 <= k < i ==> views((#[trigger] out@[k])@) == partition_fields(data@, parts[k]),
        decreases list.len() - i,
    {
        proof {
            assert(plain[i as int] == *list@[i as int]);
            assert(parts[i as int] == plain[i as int]@);
        }
        out.push(partition_record(data, list[i]));
        i += 1;
    }
    assert(record_views(out@) =~= parts.map_values(
        |p: PartitionView| partition_fields(data@, p),
    ));
    out
}

/// Writes a slot as records, with the partitions that pass a suffix filter.
pub fn json_value(data: &SuperData, suffix: Option<&str>) -> (r: JsonSlot)
    ensures
        records_of(r, data@, shown(*data, option_view(suffix))),
{
    JsonSlot {
        image: image_record(data),
        available_suffixes: list_suffixes(data),
        groups: group_records(data),
        devices: device_records(data),
        partitions: partition_records(data, suffix),
        extents: extent_records(data),
    }
}

/// The number of partitions of the first `n` slots.
pub open spec fn partition_total(datas: Seq<SuperView>, n: int) -> int
    decreases n,
{
    if n <= 0 {
        0
    } else {
        partition_total(datas, n - 1) + datas[n - 1].tables.partitions.len()
    }
}

/// The record above several slots; the image is that of the first.
pub open spec fn slots_fields(datas: Seq<SuperView>) -> RecordView {
    let total = capped(partition_total(datas, datas.len() as int));
    let (format, size, count) = if datas.len() > 0 {
        let first = datas[0];
        (first.image_format, first.image_size, first.geometry.metadata_slot_count)
    } else {
        (Seq::empty(), 0u64, 0u32)
    };
    seq![
        ("image_format"@, ScalarView::Text(format)),
        ("image_size"@, ScalarView::Number(size)),
        ("metadata_slot_count"@, ScalarView::Number(count as u64)),
        ("slot_count"@, ScalarView::Number(datas.len() as u64)),
        ("total_partitions"@, ScalarView::Number(total)),
    ]
}

/// Writes the record above several slots.
pub fn slots_record(datas: &Vec<SuperData>) -> (r: Vec<JsonField>)
    ensures
        views(r@) == slots_fields(views(datas@)),
{
    let ghost all = views(datas@);
    let mut total: u64 = 0;
    let mut i: usize = 0;
    while i < datas.len()
        invariant
            i <= datas.len(),
            all == views(datas@),
            total == capped(partition_total(all, i as int)),
        decreases datas.len() - i,
    {
        proof {
            assert(all[i as int] == datas@[i as int]@);
            lemma_partition_total(all, i as int);
        }
        total = total.saturating_add(datas[i].partitions.len() as u64);
        i += 1;
    }
    let mut out: Vec<JsonField> = Vec::new();
    if datas.len() > 0 {
        assert(all[0] == datas@[0]@);
        push_text(&mut out, "image_format", datas[0].image_format.as_str());
        push_number(&mut out, "image_size", datas[0].image_size);
        push_number(
            &mut out,
            "metadata_slot_count",
            datas[0].geometry.metadata_slot_count as u64,
        );
    } else {
        proof {
            reveal_strlit("");
        }
        assert(""@ =~= Seq::<char>::empty());
        push_text(&mut out, "image_format", "");
        push_number(&mut out, "image_size", 0);
        push_number(&mut out, "metadata_slot_count", 0);
    }
    push_number(&mut out, "slot_count", datas.len() as u64);
    push_number(&mut out, "total_partitions", total);
    assert(views(out@) =~= slots_fields(all));
    out
}

proof fn lemma_partition_total(datas: Seq<SuperView>, n: int)
    ensures
        partition_total(datas, n) >= 0,
    decreases n,
{
    if n > 0 {
        lemma_partition_total(datas, n - 1);
    }
}

/// What is written of loaded slots: the records of the only one, or a record
/// above those of several.
#[derive(Debug)]
pub enum JsonDocument {
    One(JsonSlot),
    Several { head: Vec<JsonField>, slots: Vec<JsonSlot> },
}

/// Whether this is the document of loaded slots.
pub open spec fn document_of(
    r: JsonDocument,
    datas: Seq<SuperData>,
    suffix: Option<Seq<char>>,
) -> bool {
    match r {
        JsonDocument::One(slot) => datas.len() == 1 && records_of(
            slot,
            datas[0]@,
            shown(datas[0], suffix),
        ),
        JsonDocument::Several { head, slots } => {
            &&& datas.len() != 1
            &&& views(head@) == slots_fields(views(datas))
            &&& slots@.len() == datas.len()
            &&& forall|k: int|
                0 <= k < datas.len() ==> records_of(
                    #[trigger] slots@[k],
                    datas[k]@,
                    shown(datas[k], suffix),
                )
        },
    }
}

/// Writes loaded slots, with the partitions that pass a suffix filter.
pub fn json_document(datas: &Vec<SuperData>, suffix: Option<&str>) -> (r: JsonDocument)
    ensures
        document_of(r, datas@, option_view(suffix)),
{
    if datas.len() == 1 {
        return JsonDocument::One(json_value(&datas[0], suffix));
    }
    let mut slots: Vec<JsonSlot> = Vec::new();
    let mut i: usize = 0;
    while i < datas.len()
        invariant
            i <= datas.len(),
            slots@.len() == i,
            forall|k: int|
                0 <= k < i ==> records_of(
                    #[trigger] slots@[k],
                    datas@[k]@,
                    shown(datas@[k], option_view(suffix)),
                ),
        decreases datas.len() - i,
    {
        slots.push(json_value(&datas[i], suffix));
        i += 1;
    }
    JsonDocument::Several { head: slots_record(datas), slots }
}

} // verus!
