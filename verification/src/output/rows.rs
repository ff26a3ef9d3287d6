//! Metadata as rows: tab-separated tables and shell variables.

use crate::format::{views, Partition, PartitionView};
use crate::output::fields::{
    column, group_name_of, human, human_size, size_of, suffix_text, tsv_column, version_text,
    write_suffix, write_version,
};
use crate::output::get::{suffixes, write_suffixes};
use crate::reader::data::{attr_text, base_of, option_view, passing, SuperData, SuperView};
use crate::text::{
    concat, decimal, hexadecimal, join, joined, replace_char, replaced, texts, to_decimal,
    to_hexadecimal, to_uppercase, uppercase,
};
use vstd::prelude::*;
use vstd::string::*;

verus! {

/// What a tab-separated table shows.
#[derive(Debug)]
pub struct TsvOptions {
    pub header: bool,
    pub columns: Vec<String>,
    pub bytes: bool,
}

/// The columns that are shown unless others are asked for.
pub open spec fn default_columns() -> Seq<Seq<char>> {
    seq!["name"@, "group"@, "size"@, "extents"@, "attrs"@]
}

impl Default for TsvOptions {
    fn default() -> (r: TsvOptions)
        ensures
            r.header,
            !r.bytes,
            texts(r.columns@) == default_columns(),
    {
        let mut columns: Vec<String> = Vec::new();
        columns.push(String::from_str("name"));
        columns.push(String::from_str("group"));
        columns.push(String::from_str("size"));
        columns.push(String::from_str("extents"));
        columns.push(String::from_str("attrs"));
        assert(texts(columns@) =~= default_columns());
        TsvOptions { header: true, columns, bytes: false }
    }
}

/// A row of a partition.
pub open spec fn tsv_row(d: SuperView, p: PartitionView, columns: Seq<Seq<char>>, bytes: bool) -> Seq<
    char,
> {
    joined(columns.map_values(|c: Seq<char>| column(d, p, c, bytes)), "\t"@)
}

/// The partitions that pass a suffix filter, as mathematical values.
pub open spec fn shown(data: SuperData, suffix: Option<Seq<char>>) -> Seq<PartitionView> {
    views(passing(data.partitions@, suffix))
}

/// The rows of a table.
pub open spec fn tsv_rows(
    d: SuperView,
    parts: Seq<PartitionView>,
    columns: Seq<Seq<char>>,
    header: bool,
    bytes: bool,
) -> Seq<Seq<char>> {
    (if header {
        seq![joined(columns, "\t"@)]
    } else {
        seq![]
    }) + parts.map_values(|p: PartitionView| tsv_row(d, p, columns, bytes))
}

fn write_row(data: &SuperData, p: &Partition, columns: &Vec<String>, bytes: bool) -> (r: String)
    ensures
        r@ == tsv_row(data@, p@, texts(columns@), bytes),
{
    let ghost names = texts(columns@);
    let mut cells: Vec<String> = Vec::new();
    let mut i: usize = 0;
    while i < columns.len()
        invariant
            i <= columns.len(),
            names == texts(columns@),
            cells@.len() == i,
            forall|k: int|
                0 <= k < i ==> (#[trigger] cells@[k])@ == column(data@, p@, names[k], bytes),
        decreases columns.len() - i,
    {
        assert(names[i as int] == columns@[i as int]@);
        cells.push(tsv_column(data, p, columns[i].as_str(), bytes));
        i += 1;
    }
    assert(texts(cells@) =~= names.map_values(|c: Seq<char>| column(data@, p@, c, bytes)));
    join(&cells, "\t")
}

/// Writes a tab-separated table of the partitions that pass a suffix filter.
pub fn tsv_lines(data: &SuperData, suffix: Option<&str>, opts: &TsvOptions) -> (r: Vec<String>)
    ensures
        texts(r@) == tsv_rows(
            data@,
            shown(*data, option_view(suffix)),
            texts(opts.columns@),
            opts.header,
            opts.bytes,
        ),
{
    let list = data.filter_by_slot(suffix);
    let ghost parts = shown(*data, option_view(suffix));
    let ghost columns = texts(opts.columns@);
    let ghost rows = parts.map_values(|p: PartitionView| tsv_row(data@, p, columns, opts.bytes));
    let ghost head: Seq<Seq<char>> = if opts.header {
        seq![joined(columns, "\t"@)]
    } else {
        seq![]
    };
    let ghost plain = list@.map_values(|p: &Partition| *p);
    assert(plain.len() == list@.len());
    let mut out: Vec<String> = Vec::new();
    if opts.header {
        out.push(join(&opts.columns, "\t"));
    }
    assert(texts(out@) =~= head + rows.take(0));
    let mut i: usize = 0;
    while i < list.len()
        invariant
            i <= list.len() == parts.len(),
            plain == list@.map_values(|p: &Partition| *p),
            parts == views(plain),
            columns == texts(opts.columns@),
            rows == parts.map_values(|p: PartitionView| tsv_row(data@, p, columns, opts.bytes)),
            texts(out@) == head + rows.take(i as int),
        decreases list.len() - i,
    {
        proof {
            assert(plain[i as int] == *list@[i as int]);
            assert(parts[i as int] == plain[i as int]@);
        }
        let ghost before = texts(out@);
        let row = write_row(data, list[i], &opts.columns, opts.bytes);
        let ghost text = row@;
        out.push(row);
        proof {
            assert(text == rows[i as int]);
            assert(texts(out@) =~= before.push(text));
            assert(before.push(text) =~= head + rows.take(i + 1));
        }
        i += 1;
    }
    assert(rows.take(i as int) =~= rows);
    out
}

/// A shell variable.
pub open spec fn variable(name: Seq<char>, value: Seq<char>) -> Seq<char> {
    name + "="@ + value
}

/// The variables of the image as a whole.
pub open spec fn image_variables(d: SuperView, count: nat) -> Seq<Seq<char>> {
    seq![
        variable("SUPER_IMAGE_FORMAT"@, d.image_format),
        variable("SUPER_IMAGE_SIZE"@, decimal(d.image_size as nat)),
        variable("SUPER_GEOMETRY_OFFSET"@, hexadecimal(d.geometry_offset as nat)),
        variable("SUPER_METADATA_OFFSET"@, hexadecimal(d.metadata_offset as nat)),
        variable("SUPER_METADATA_SLOT"@, decimal(d.metadata_slot as nat)),
        variable("SUPER_METADATA_MAX_SIZE"@, decimal(d.geometry.metadata_max_size as nat)),
        variable("SUPER_METADATA_SLOT_COUNT"@, decimal(d.geometry.metadata_slot_count as nat)),
        variable("SUPER_LOGICAL_BLOCK_SIZE"@, decimal(d.geometry.logical_block_size as nat)),
        variable(
            "SUPER_METADATA_VERSION"@,
            version_text(d.header.major_version, d.header.minor_version),
        ),
        variable("SUPER_AVAILABLE_SUFFIXES"@, joined(suffixes(d), ","@)),
        variable("SUPER_PARTITION_COUNT"@, decimal(count)),
    ]
}

/// The name of a partition inside the name of a variable.
pub open spec fn variable_part(name: Seq<char>) -> Seq<char> {
    replaced(uppercase(name), '-', '_')
}

/// The start of the names of the variables of a partition.
pub open spec fn variable_stem(part: Seq<char>) -> Seq<char> {
    "SUPER_PART_"@ + part
}

/// The variables of the `i`-th partition.
pub open spec fn partition_variables(d: SuperView, p: PartitionView, i: nat) -> Seq<Seq<char>> {
    let stem = variable_stem(decimal(i));
    let size = size_of(d, p);
    seq![
        variable(stem + "_NAME"@, p.name),
        variable(stem + "_BASE_NAME"@, base_of(p.name)),
        variable(stem + "_SUFFIX"@, suffix_text(p.name)),
        variable(stem + "_GROUP"@, group_name_of(d, p)),
        variable(stem + "_SIZE"@, decimal(size as nat)),
        variable(stem + "_SIZE_HUMAN"@, human(size)),
        variable(stem + "_EXTENTS"@, decimal(p.num_extents as nat)),
        variable(stem + "_ATTRS"@, attr_text(p.attributes)),
        variable(variable_stem(variable_part(p.name)) + "_SIZE"@, decimal(size as nat)),
    ]
}

/// The variables of the first `n` partitions.
pub open spec fn all_variables(d: SuperView, parts: Seq<PartitionView>, n: int) -> Seq<Seq<char>>
    decreases n,
{
    if n <= 0 {
        image_variables(d, parts.len())
    } else {
        all_variables(d, parts, n - 1) + partition_variables(d, parts[n - 1], (n - 1) as nat)
    }
}

/// Adds a variable.
fn push_variable(out: &mut Vec<String>, name: &str, value: &str)
    ensures
        texts(final(out)@) == texts(old(out)@).push(variable(name@, value@)),
{
    let mut line = concat(name, "=");
    line.append(value);
    let ghost text = line@;
    out.push(line);
    assert(texts(out@) =~= texts(old(out)@).push(text));
}

/// Adds a variable of a partition.
fn push_field(out: &mut Vec<String>, stem: &str, field: &str, value: &str)
    ensures
        texts(final(out)@) == texts(old(out)@).push(variable(stem@ + field@, value@)),
{
    let name = concat(stem, field);
    push_variable(out, name.as_str(), value);
}

fn push_image_variables(out: &mut Vec<String>, data: &SuperData, count: usize)
    requires
        old(out)@.len() == 0,
    ensures
        texts(final(out)@) == image_variables(data@, count as nat),
{
    push_variable(out, "SUPER_IMAGE_FORMAT", data.image_format.as_str());
    push_variable(out, "SUPER_IMAGE_SIZE", to_decimal(data.image_size).as_str());
    push_variable(out, "SUPER_GEOMETRY_OFFSET", to_hexadecimal(data.geometry_offset).as_str());
    push_variable(out, "SUPER_METADATA_OFFSET", to_hexadecimal(data.metadata_offset).as_str());
    push_variable(out, "SUPER_METADATA_SLOT", to_decimal(data.metadata_slot).as_str());
    push_variable(
        out,
        "SUPER_METADATA_MAX_SIZE",
        to_decimal(data.geometry.metadata_max_size as u64).as_str(),
    );
    push_variable(
        out,
        "SUPER_METADATA_SLOT_COUNT",
        to_decimal(data.geometry.metadata_slot_count as u64).as_str(),
    );
    push_variable(
        out,
        "SUPER_LOGICAL_BLOCK_SIZE",
        to_decimal(data.geometry.logical_block_size as u64).as_str(),
    );
    push_variable(
        out,
        "SUPER_METADATA_VERSION",
        write_version(data.header.major_version, data.header.minor_version).as_str(),
    );
    push_variable(out, "SUPER_AVAILABLE_SUFFIXES", write_suffixes(data).as_str());
    push_variable(out, "SUPER_PARTITION_COUNT", to_decimal(count as u64).as_str());
    assert(texts(out@) =~= image_variables(data@, count as nat));
}

/// Writes the start of the names of a partition's variables, given its name in
/// upper case.
pub fn write_variable_stem(upper: &str) -> (r: String)
    ensures
        r@ == variable_stem(replaced(upper@, '-', '_')),
{
    let part = replace_char(upper, '-', '_');
    concat("SUPER_PART_", part.as_str())
}

fn push_partition_variables(out: &mut Vec<String>, data: &SuperData, p: &Partition, i: usize)
    ensures
        texts(final(out)@) == texts(old(out)@) + partition_variables(data@, p@, i as nat),
{
    let number = to_decimal(i as u64);
    let stem_text = concat("SUPER_PART_", number.as_str());
    let stem = stem_text.as_str();
    let size = data.partition_size(p);
    let size_text = to_decimal(size);
    push_field(out, stem, "_NAME", p.name.as_str());
    push_field(out, stem, "_BASE_NAME", SuperData::strip_suffix(p.name.as_str()));
    push_field(out, stem, "_SUFFIX", write_suffix(p.name.as_str()).as_str());
    push_field(out, stem, "_GROUP", data.partition_group_name(p));
    push_field(out, stem, "_SIZE", size_text.as_str());
    push_field(out, stem, "_SIZE_HUMAN", human_size(size).as_str());
    push_field(out, stem, "_EXTENTS", to_decimal(p.num_extents as u64).as_str());
    push_field(out, stem, "_ATTRS", SuperData::partition_attr_string(p.attributes).as_str());
    let upper = to_uppercase(p.name.as_str());
    let named_stem = write_variable_stem(upper.as_str());
    push_field(out, named_stem.as_str(), "_SIZE", size_text.as_str());
    assert(texts(out@) =~= texts(old(out)@) + partition_variables(data@, p@, i as nat));
}

/// Writes shell variables for the image and for the partitions that pass a
/// suffix filter.
pub fn env_lines(data: &SuperData, suffix: Option<&str>) -> (r: Vec<String>)
    ensures
        ({
            let parts = shown(*data, option_view(suffix));
            texts(r@) == all_variables(data@, parts, parts.len() as int)
        }),
{
    let list = data.filter_by_slot(suffix);
    let ghost parts = shown(*data, option_view(suffix));
    let ghost plain = list@.map_values(|p: &Partition| *p);
    assert(plain.len() == list@.len());
    let mut out: Vec<String> = Vec::new();
    push_image_variables(&mut out, data, list.len());
    let mut i: usize = 0;
    while i < list.len()
        invariant
            i <= list.len() == parts.len(),
            plain == list@.map_values(|p: &Partition| *p),
            parts == views(plain),
            texts(out@) == all_variables(data@, parts, i as int),
        decreases list.len() - i,
    {
        proof {
            assert(plain[i as int] == *list@[i as int]);
            assert(parts[i as int] == plain[i as int]@);
        }
        push_partition_variables(&mut out, data, list[i], i);
        i += 1;
    }
    out
}

} // verus!
