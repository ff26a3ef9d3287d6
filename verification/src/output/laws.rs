//! That all forms of output tell the same, and that it can be read back.

use crate::commands::arguments::attributes_from;
use crate::commands::binding_laws::law_device_named;
use crate::commands::info::{columns_of, shows_all, InfoArgs};
use crate::commands::name_laws::{has_tail, law_group_named, law_named, law_suffix_is_tail};
use crate::error::Error;
use crate::format::{
    views, BlockDeviceView, Extent, GroupView, Partition, PartitionView, LP_TARGET_TYPE_LINEAR,
    LP_TARGET_TYPE_ZERO,
};
use crate::output::fields::{
    column, device_value, extent_value, first_phys_of, group_value, human, in_unit, partition_value,
    phys_of, sectors_of, size_of, two_digits,
};
use crate::output::get::{
    all_device_names, group_names, image_value, suffix_occurs, suffixes, value_of,
};
use crate::output::human::{
    chain_line, chain_lines, device_line, devices_section, extent_line, extents_section, group_line,
    groups_section, info_section, mapping_section, overview, partition_line, partitions_section,
    wanted_lines, Sections,
};
use crate::output::json::{
    device_fields, document_of, extent_fields, group_fields, image_fields, partition_fields,
    partition_total, record_views, records_of, slots_fields, JsonDocument, JsonSlot, ScalarView,
};
use crate::output::rows::{all_variables, image_variables, partition_variables, tsv_row, tsv_rows};
use crate::reader::data::{
    attr_flags, attr_text, extents_of_partition, flag_text, law_suffix_stripped, lemma_sector_total,
    named, passes, passing, sector_total, suffix_of, SuperData, SuperView,
};
use crate::text::{
    decimal, hexadecimal, joined, parsed_number, position_of, replaced, split_all, trimmed,
    uppercase,
};
use crate::text_laws::{law_number_read_back, law_position, law_trimmed_stays, lemma_joined_front};
use vstd::prelude::*;
use vstd::string::*;

verus! {

/// Cutting what was joined gives the parts back, where none of them holds the separator.
pub proof fn law_joined_read_back(parts: Seq<Seq<char>>, sep: char)
    requires
        parts.len() > 0,
        forall|k: int| 0 <= k < parts.len() ==> !(#[trigger] parts[k]).contains(sep),
    ensures
        split_all(joined(parts, seq![sep]), sep) == parts,
    decreases parts.len(),
{
    let a = parts[0];
    assert(!a.contains(sep));
    if parts.len() == 1 {
        law_position(a, sep, 0);
        let at = position_of(a, sep);
        if at < a.len() {
            assert(a.contains(sep));
        }
        assert(split_all(a, sep) =~= parts);
    } else {
        let rest = parts.skip(1);
        assert(parts =~= seq![a] + rest);
        assert forall|k: int| 0 <= k < rest.len() implies !(#[trigger] rest[k]).contains(sep) by {
            assert(rest[k] == parts[k + 1]);
        }
        lemma_joined_front(a, rest, seq![sep]);
        law_joined_read_back(rest, sep);
        let behind = joined(rest, seq![sep]);
        let s = a + seq![sep] + behind;
        law_position(s, sep, 0);
        let at = position_of(s, sep);
        assert(s[a.len() as int] == sep);
        if at < a.len() {
            assert(a[at] == s[at]);
            assert(a.contains(sep));
        }
        assert(s.subrange(0, at) =~= a);
        assert(s.subrange(at + 1, s.len() as int) =~= behind);
    }
}

/// A row of a table can be cut into its columns again, where no value holds a tab.
pub proof fn law_row_read_back(
    d: SuperView,
    p: PartitionView,
    columns: Seq<Seq<char>>,
    bytes: bool,
)
    requires
        columns.len() > 0,
        forall|k: int|
            0 <= k < columns.len() ==> !column(d, p, #[trigger] columns[k], bytes).contains('\t'),
    ensures
        ({
            let cells = split_all(tsv_row(d, p, columns, bytes), '\t');
            &&& cells.len() == columns.len()
            &&& forall|k: int|
                0 <= k < columns.len() ==> #[trigger] cells[k] == column(d, p, columns[k], bytes)
        }),
{
    reveal_strlit("\t");
    assert("\t"@ =~= seq!['\t']);
    let values = columns.map_values(|c: Seq<char>| column(d, p, c, bytes));
    assert forall|k: int| 0 <= k < values.len() implies !(#[trigger] values[k]).contains('\t') by {
        assert(values[k] == column(d, p, columns[k], bytes));
    }
    law_joined_read_back(values, '\t');
}

/// The names of the fields differ.
proof fn lemma_field_names()
    ensures
        "name"@.len() == 4 && "name"@[0] == 'n',
        "size"@.len() == 4 && "size"@[0] == 's',
        "type"@.len() == 4 && "type"@[0] == 't',
        "group"@.len() == 5 && "group"@[0] == 'g',
        "attrs"@.len() == 5 && "attrs"@[0] == 'a',
        "flags"@.len() == 5 && "flags"@[0] == 'f',
        "suffix"@.len() == 6 && "suffix"@[0] == 's',
        "device"@.len() == 6 && "device"@[0] == 'd',
        "sectors"@.len() == 7 && "sectors"@[0] == 's',
        "extents"@.len() == 7 && "extents"@[0] == 'e',
        "type_id"@.len() == 7 && "type_id"@[0] == 't',
        "max_size"@.len() == 8 && "max_size"@[0] == 'm',
        "readonly"@.len() == 8 && "readonly"@[0] == 'r',
        "base_name"@.len() == 9 && "base_name"@[0] == 'b',
        "alignment"@.len() == 9 && "alignment"@[0] == 'a',
        "attributes"@.len() == 10 && "attributes"@[0] == 'a',
        "size_human"@.len() == 10 && "size_human"@[0] == 's' && "size_human"@[5] == 'h',
        "size_bytes"@.len() == 10 && "size_bytes"@[0] == 's' && "size_bytes"@[5] == 'b',
        "group_index"@.len() == 11 && "group_index"@[0] == 'g',
        "num_extents"@.len() == 11 && "num_extents"@[0] == 'n',
        "phys_offset"@.len() == 11 && "phys_offset"@[0] == 'p',
        "target_data"@.len() == 11 && "target_data"@[0] == 't',
        "first_extent"@.len() == 12 && "first_extent"@[6] == 'e',
        "first_sector"@.len() == 12 && "first_sector"@[6] == 's',
        "slot_suffixed"@.len() == 13 && "slot_suffixed"@[0] == 's',
        "target_source"@.len() == 13 && "target_source"@[0] == 't',
        "group_max_size"@.len() == 14 && "group_max_size"@[0] == 'g',
        "max_size_human"@.len() == 14 && "max_size_human"@[0] == 'm',
        "phys_offset_hex"@.len() == 15,
        "alignment_offset"@.len() == 16,
        "first_phys_offset"@.len() == 17,
        "group_max_size_human"@.len() == 20,
        "first_phys_offset_hex"@.len() == 21,
{
    reveal_strlit("name");
    reveal_strlit("size");
    reveal_strlit("type");
    reveal_strlit("group");
    reveal_strlit("attrs");
    reveal_strlit("flags");
    reveal_strlit("suffix");
    reveal_strlit("device");
    reveal_strlit("sectors");
    reveal_strlit("extents");
    reveal_strlit("type_id");
    reveal_strlit("max_size");
    reveal_strlit("readonly");
    reveal_strlit("base_name");
    reveal_strlit("alignment");
    reveal_strlit("attributes");
    reveal_strlit("size_human");
    reveal_strlit("size_bytes");
    reveal_strlit("group_index");
    reveal_strlit("num_extents");
    reveal_strlit("phys_offset");
    reveal_strlit("target_data");
    reveal_strlit("first_extent");
    reveal_strlit("first_sector");
    reveal_strlit("slot_suffixed");
    reveal_strlit("target_source");
    reveal_strlit("group_max_size");
    reveal_strlit("max_size_human");
    reveal_strlit("phys_offset_hex");
    reveal_strlit("alignment_offset");
    reveal_strlit("first_phys_offset");
    reveal_strlit("group_max_size_human");
    reveal_strlit("first_phys_offset_hex");
}

/// A value of a record as the text that it is shown by.
pub open spec fn shown_as(v: ScalarView) -> Seq<char> {
    match v {
        ScalarView::Text(s) => s,
        ScalarView::Number(n) => decimal(n as nat),
    }
}

/// The record of a partition tells what is told of each of its fields, and the same as
/// a column of a table with bytes.
pub proof fn law_partition_record(d: SuperView, p: PartitionView, k: int)
    requires
        0 <= k < partition_fields(d, p).len(),
    ensures
        ({
            let (key, v) = partition_fields(d, p)[k];
            if key == "num_extents"@ {
                partition_value(d, p, "extents"@) == Some(shown_as(v)) && column(
                    d,
                    p,
                    "extents"@,
                    true,
                ) == shown_as(v)
            } else {
                &&& partition_value(d, p, key) == Some(shown_as(v))
                &&& key != "size_human"@ ==> column(d, p, key, true) == shown_as(v)
            }
        }),
        column(d, p, "size_bytes"@, true) == column(d, p, "size"@, true),
        partition_value(d, p, "size_human"@) == Some(column(d, p, "size"@, false)),
{
    lemma_field_names();
}

/// The record of a group tells what is told of each of its fields.
pub proof fn law_group_record(g: GroupView, k: int)
    requires
        0 <= k < group_fields(g).len(),
    ensures
        ({
            let (key, v) = group_fields(g)[k];
            group_value(g, key) == Some(shown_as(v))
        }),
{
    lemma_field_names();
}

/// The record of a device tells what is told of each of its fields; the alignment's
/// offset is told there only.
pub proof fn law_device_record(d: BlockDeviceView, k: int)
    requires
        0 <= k < device_fields(d).len(),
    ensures
        ({
            let (key, v) = device_fields(d)[k];
            if key == "alignment_offset"@ {
                v == ScalarView::Number(d.alignment_offset as u64)
            } else {
                device_value(d, key) == Some(shown_as(v))
            }
        }),
{
    lemma_field_names();
}

/// The record of an extent tells what is told of each of its fields. Its kind is told as
/// a number there only, and a missing device is marked.
pub proof fn law_extent_record(d: SuperView, e: Extent, k: int)
    requires
        0 <= k < extent_fields(d, e).len(),
    ensures
        ({
            let (key, v) = extent_fields(d, e)[k];
            if key == "type_id"@ {
                v == ScalarView::Number(e.target_type as u64)
            } else if key == "device"@ && e.target_source >= d.tables.block_devices.len() {
                extent_value(d, e, key) == Some(Seq::<char>::empty()) && shown_as(v) == "?"@
            } else {
                extent_value(d, e, key) == Some(shown_as(v))
            }
        }),
{
    lemma_field_names();
}

/// The numbers that are told of a partition read back as what the tables say: its size
/// is 512 bytes for each sector of its chain, and its first extent's place is 512 times
/// its sector.
pub proof fn law_partition_numbers(d: SuperView, p: PartitionView)
    requires
        512 * sector_total(extents_of_partition(d.tables.extents, p)) <= u64::MAX,
    ensures
        ({
            let chain = extents_of_partition(d.tables.extents, p);
            let max = u64::MAX as nat;
            let number = |field: Seq<char>| parsed_number(partition_value(d, p, field)->Some_0, max);
            &&& number("size"@) == Some(512 * sector_total(chain) as nat)
            &&& number("sectors"@) == Some(sector_total(chain) as nat)
            &&& number("extents"@) == Some(p.num_extents as nat)
            &&& number("first_extent"@) == Some(p.first_extent_index as nat)
            &&& number("group_index"@) == Some(p.group_index as nat)
            &&& number("attributes"@) == Some(p.attributes as nat)
            &&& chain.len() > 0 && chain[0].target_type == LP_TARGET_TYPE_LINEAR && 512
                * chain[0].target_data <= u64::MAX ==> number("first_phys_offset"@) == Some(
                512 * chain[0].target_data as nat,
            )
            &&& p.group_index < d.tables.groups.len() ==> number("group_max_size"@) == Some(
                d.tables.groups[p.group_index as int].maximum_size as nat,
            ) && partition_value(d, p, "group"@) == Some(
                d.tables.groups[p.group_index as int].name,
            )
            &&& partition_value(d, p, "name"@) == Some(p.name)
        }),
{
    let chain = extents_of_partition(d.tables.extents, p);
    let max = u64::MAX as nat;
    lemma_field_names();
    lemma_sector_total(chain);
    law_number_read_back(size_of(d, p) as nat, max);
    law_number_read_back(sectors_of(d, p) as nat, max);
    law_number_read_back(p.num_extents as nat, max);
    law_number_read_back(p.first_extent_index as nat, max);
    law_number_read_back(p.group_index as nat, max);
    law_number_read_back(p.attributes as nat, max);
    law_number_read_back(first_phys_of(d, p) as nat, max);
    if p.group_index < d.tables.groups.len() {
        law_number_read_back(d.tables.groups[p.group_index as int].maximum_size as nat, max);
    }
}

/// The numbers that are told of an extent read back as what the table says.
pub proof fn law_extent_numbers(d: SuperView, e: Extent)
    requires
        512 * e.num_sectors <= u64::MAX,
        512 * e.target_data <= u64::MAX,
    ensures
        ({
            let max = u64::MAX as nat;
            let number = |field: Seq<char>| parsed_number(extent_value(d, e, field)->Some_0, max);
            &&& number("sectors"@) == Some(e.num_sectors as nat)
            &&& number("size"@) == Some(512 * e.num_sectors as nat)
            &&& number("target_data"@) == Some(e.target_data as nat)
            &&& number("target_source"@) == Some(e.target_source as nat)
            &&& e.target_type == LP_TARGET_TYPE_LINEAR ==> number("phys_offset"@) == Some(
                512 * e.target_data as nat,
            )
            &&& e.target_source < d.tables.block_devices.len() ==> extent_value(d, e, "device"@)
                == Some(d.tables.block_devices[e.target_source as int].partition_name)
        }),
{
    let max = u64::MAX as nat;
    lemma_field_names();
    law_number_read_back(e.num_sectors as nat, max);
    law_number_read_back((512 * e.num_sectors) as nat, max);
    law_number_read_back(e.target_data as nat, max);
    law_number_read_back(e.target_source as nat, max);
    law_number_read_back(phys_of(e) as nat, max);
}

/// The numbers that are told of groups and devices read back as what the tables say.
pub proof fn law_table_numbers(g: GroupView, b: BlockDeviceView)
    ensures
        ({
            let max = u64::MAX as nat;
            let of_group = |field: Seq<char>| parsed_number(group_value(g, field)->Some_0, max);
            let of_device = |field: Seq<char>| parsed_number(device_value(b, field)->Some_0, max);
            &&& group_value(g, "name"@) == Some(g.name)
            &&& of_group("flags"@) == Some(g.flags as nat)
            &&& of_group("max_size"@) == Some(g.maximum_size as nat)
            &&& device_value(b, "name"@) == Some(b.partition_name)
            &&& of_device("first_sector"@) == Some(b.first_logical_sector as nat)
            &&& of_device("alignment"@) == Some(b.alignment as nat)
            &&& of_device("size"@) == Some(b.size as nat)
        }),
{
    let max = u64::MAX as nat;
    lemma_field_names();
    law_number_read_back(g.flags as nat, max);
    law_number_read_back(g.maximum_size as nat, max);
    law_number_read_back(b.first_logical_sector as nat, max);
    law_number_read_back(b.alignment as nat, max);
    law_number_read_back(b.size as nat, max);
}

/// Whether a size is so many whole units and hundredths, cut off and not rounded.
pub open spec fn reaches(n: u64, unit: int, whole: int, hundredths: int) -> bool {
    &&& unit <= n
    &&& 0 <= hundredths < 100
    &&& unit * (100 * whole + hundredths) <= 100 * n
    &&& 100 * n < unit * (100 * whole + hundredths + 1)
}

proof fn lemma_in_unit(n: u64, unit: u64, name: Seq<char>)
    requires
        0 < unit <= n,
        unit <= 0x100_0000_0000,
    ensures
        ({
            let whole = n as int / unit as int;
            let part = (n % unit) * 100 / unit as int;
            reaches(n, unit as int, whole, part) && in_unit(n, unit, name) == decimal(whole as nat)
                + "."@ + two_digits(part as nat) + name
        }),
{
    let u = unit as int;
    let whole = n as int / u;
    let rest = n as int % u;
    let part = rest * 100 / u;
    vstd::arithmetic::div_mod::lemma_fundamental_div_mod(n as int, u);
    vstd::arithmetic::div_mod::lemma_fundamental_div_mod(rest * 100, u);
    assert(0 <= part < 100) by (nonlinear_arith)
        requires
            0 <= rest < u,
            part == rest * 100 / u,
            u > 0,
    ;
    assert(u * (100 * whole + part) == 100 * (u * whole) + u * part) by (nonlinear_arith);
    assert(u * (100 * whole + part + 1) == 100 * (u * whole) + u * part + u) by (nonlinear_arith);
}

/// A size for people is in the largest unit that it reaches, with two decimals that are
/// cut off; below the first unit it is in bytes.
pub proof fn law_human(n: u64)
    ensures
        n < 1024 ==> human(n) == decimal(n as nat) + " B"@,
        1024 <= n < 0x10_0000 ==> exists|w: int, h: int| #[trigger]
            reaches(n, 1024, w, h) && human(n) == decimal(w as nat) + "."@ + two_digits(h as nat)
                + " KiB"@,
        0x10_0000 <= n < 0x4000_0000 ==> exists|w: int, h: int| #[trigger]
            reaches(n, 0x10_0000, w, h) && human(n) == decimal(w as nat) + "."@ + two_digits(
                h as nat,
            ) + " MiB"@,
        0x4000_0000 <= n < 0x100_0000_0000 ==> exists|w: int, h: int| #[trigger]
            reaches(n, 0x4000_0000, w, h) && human(n) == decimal(w as nat) + "."@ + two_digits(
                h as nat,
            ) + " GiB"@,
        0x100_0000_0000 <= n ==> exists|w: int, h: int| #[trigger]
            reaches(n, 0x100_0000_0000, w, h) && human(n) == decimal(w as nat) + "."@ + two_digits(
                h as nat,
            ) + " TiB"@,
{
    if n >= 1024 {
        lemma_in_unit(n, 1024, " KiB"@);
    }
    if n >= 0x10_0000 {
        lemma_in_unit(n, 0x10_0000, " MiB"@);
    }
    if n >= 0x4000_0000 {
        lemma_in_unit(n, 0x4000_0000, " GiB"@);
    }
    if n >= 0x100_0000_0000 {
        lemma_in_unit(n, 0x100_0000_0000, " TiB"@);
    }
}

/// Hundredths have two digits.
pub proof fn law_two_digits(n: nat)
    requires
        n < 100,
    ensures
        two_digits(n).len() == 2,
        parsed_number(two_digits(n), 99) == Some(n),
{
    reveal_strlit("0");
    assert("0"@ =~= seq!['0']);
    law_number_read_back(n, 99);
    crate::text_laws::law_written(n, 10);
    reveal_with_fuel(crate::text::written, 3);
    let s = two_digits(n);
    if n < 10 {
        let d = decimal(n);
        assert(s =~= seq!['0', d[0]]);
        assert(crate::text::unsigned_part(s) == s);
        assert(s.drop_last() =~= seq!['0']);
        assert(s.drop_last().drop_last() =~= Seq::<char>::empty());
        assert(d.drop_last() =~= Seq::<char>::empty());
        reveal_with_fuel(crate::text::digits_value, 4);
    }
}

proof fn lemma_flags(attrs: u32)
    ensures
        attrs & 15 == (attrs & 1) | (attrs & 2) | (attrs & 4) | (attrs & 8),
        attrs & 1 == 0 || attrs & 1 == 1,
        attrs & 2 == 0 || attrs & 2 == 2,
        attrs & 4 == 0 || attrs & 4 == 4,
        attrs & 8 == 0 || attrs & 8 == 8,
        forall|x: u32| #[trigger] (x | 0) == x,
        forall|x: u32| #[trigger] (0u32 | x) == x,
{
    assert(attrs & 15 == (attrs & 1) | (attrs & 2) | (attrs & 4) | (attrs & 8)) by (bit_vector);
    assert(attrs & 1 == 0 || attrs & 1 == 1) by (bit_vector);
    assert(attrs & 2 == 0 || attrs & 2 == 2) by (bit_vector);
    assert(attrs & 4 == 0 || attrs & 4 == 4) by (bit_vector);
    assert(attrs & 8 == 0 || attrs & 8 == 8) by (bit_vector);
    assert(forall|x: u32| #[trigger] (x | 0) == x) by (bit_vector);
    assert(forall|x: u32| #[trigger] (0u32 | x) == x) by (bit_vector);
}

/// One word of a list of attributes, where its flag is set.
proof fn lemma_flag_read(words: Seq<Seq<char>>, flag: u32, name: Seq<char>, attrs: u32, i: int, f: u32)
    requires
        crate::commands::arguments::attribute_bit(name, true) == Some(flag),
        trimmed(name) == name,
        attrs & flag == 0 || attrs & flag == flag,
        forall|x: u32| #[trigger] (x | 0) == x,
        0 <= i <= words.len(),
        words.skip(i).len() >= flag_text(attrs, flag, name).len(),
        words.skip(i).take(flag_text(attrs, flag, name).len() as int) == flag_text(
            attrs,
            flag,
            name,
        ),
    ensures
        attributes_from(words, true, i, f) == attributes_from(
            words,
            true,
            i + flag_text(attrs, flag, name).len(),
            f | (attrs & flag),
        ),
{
    if attrs & flag != 0 {
        assert(words.skip(i).take(1)[0] == words[i]);
    }
}

/// The flags that are shown of attributes read back as those flags.
pub proof fn law_flags_read_back(attrs: u32)
    ensures
        attributes_from(attr_flags(attrs), true, 0, 0) == Ok::<u32, Error>(attrs & 15),
        attr_flags(attrs).len() == 0 <==> attrs & 15 == 0,
        attr_flags(attrs).len() == 0 ==> attr_text(attrs) == "none"@,
        attr_flags(attrs).len() > 0 ==> split_all(attr_text(attrs), '|') == attr_flags(attrs),
{
    reveal_strlit("readonly");
    reveal_strlit("slot_suffixed");
    reveal_strlit("updated");
    reveal_strlit("disabled");
    reveal_strlit("|");
    assert("|"@ =~= seq!['|']);
    law_trimmed_stays("readonly"@);
    law_trimmed_stays("slot_suffixed"@);
    law_trimmed_stays("updated"@);
    law_trimmed_stays("disabled"@);
    lemma_flags(attrs);
    let words = attr_flags(attrs);
    let a = flag_text(attrs, 1, "readonly"@);
    let b = flag_text(attrs, 2, "slot_suffixed"@);
    let c = flag_text(attrs, 4, "updated"@);
    let e = flag_text(attrs, 8, "disabled"@);
    assert(words == a + b + c + e);
    assert("readonly"@[0] == 'r' && "disabled"@[0] == 'd');
    let i1 = a.len() as int;
    let i2 = i1 + b.len();
    let i3 = i2 + c.len();
    assert(words.skip(0).take(a.len() as int) =~= a);
    lemma_flag_read(words, 1, "readonly"@, attrs, 0, 0);
    let f1 = 0 | (attrs & 1);
    assert(words.skip(i1).take(b.len() as int) =~= b);
    lemma_flag_read(words, 2, "slot_suffixed"@, attrs, i1, f1);
    let f2 = f1 | (attrs & 2);
    assert(words.skip(i2).take(c.len() as int) =~= c);
    lemma_flag_read(words, 4, "updated"@, attrs, i2, f2);
    let f3 = f2 | (attrs & 4);
    assert(words.skip(i3).take(e.len() as int) =~= e);
    lemma_flag_read(words, 8, "disabled"@, attrs, i3, f3);
    assert(0 | 0u32 == 0) by (bit_vector);
    assert((attrs & 15 == 0) <==> (attrs & 1 == 0 && attrs & 2 == 0 && attrs & 4 == 0 && attrs & 8
        == 0)) by (bit_vector);
    if words.len() > 0 {
        assert forall|k: int| 0 <= k < words.len() implies !(#[trigger] words[k]).contains('|') by {
            assert(words[k] == "readonly"@ || words[k] == "slot_suffixed"@ || words[k] == "updated"@
                || words[k] == "disabled"@);
        }
        law_joined_read_back(words, '|');
    }
}

/// The partitions that are shown are those that the filter lets through, in order.
pub proof fn law_passing(partitions: Seq<Partition>, suffix: Option<Seq<char>>)
    ensures
        passing(partitions, suffix) == partitions.filter(
            |p: Partition| passes(p.name@, suffix),
        ),
    decreases partitions.len(),
{
    reveal(Seq::filter);
    if partitions.len() > 0 {
        law_passing(partitions.drop_last(), suffix);
    }
}

/// A suffix is told where some partition has its tail.
pub proof fn law_suffixes(d: SuperView)
    ensures
        suffixes(d).contains(seq!['a']) <==> exists|i: int|
            0 <= i < d.tables.partitions.len() && has_tail(
                (#[trigger] d.tables.partitions[i]).name,
            ) && d.tables.partitions[i].name.last() == 'a',
        suffixes(d).contains(seq!['b']) <==> exists|i: int|
            0 <= i < d.tables.partitions.len() && has_tail(
                (#[trigger] d.tables.partitions[i]).name,
            ) && d.tables.partitions[i].name.last() == 'b',
        suffixes(d).len() <= 2,
{
    lemma_suffix_occurs(d, 'a');
    lemma_suffix_occurs(d, 'b');
    assert(seq!['a'][0] == 'a' && seq!['b'][0] == 'b');
    let all = suffixes(d);
    let has_a = suffix_occurs(d, 'a');
    let has_b = suffix_occurs(d, 'b');
    if has_a {
        assert(all[0] == seq!['a']);
    }
    if has_b {
        assert(all.last() == seq!['b']);
        assert(all[all.len() - 1] == seq!['b']);
    }
    if all.contains(seq!['a']) && !has_a {
        let k = all.index_of(seq!['a']);
        assert(all[k] == seq!['b']);
    }
    if all.contains(seq!['b']) && !has_b {
        let k = all.index_of(seq!['b']);
        assert(all[k] == seq!['a']);
    }
}

proof fn lemma_suffix_occurs(d: SuperView, c: char)
    requires
        c == 'a' || c == 'b',
    ensures
        suffix_occurs(d, c) <==> exists|i: int|
            0 <= i < d.tables.partitions.len() && has_tail(
                (#[trigger] d.tables.partitions[i]).name,
            ) && d.tables.partitions[i].name.last() == c,
{
    let parts = d.tables.partitions;
    assert(seq![c][0] == c);
    if suffix_occurs(d, c) {
        let i = choose|i: int|
            0 <= i < parts.len() && suffix_of(#[trigger] parts[i].name) == Some(seq![c]);
        law_suffix_is_tail(parts[i].name);
        assert(seq![parts[i].name.last()][0] == c);
        assert(has_tail(parts[i].name));
    }
    if exists|i: int|
        0 <= i < parts.len() && has_tail((#[trigger] parts[i]).name) && parts[i].name.last() == c {
        let i = choose|i: int|
            0 <= i < parts.len() && has_tail((#[trigger] parts[i]).name) && parts[i].name.last()
                == c;
        law_suffix_is_tail(parts[i].name);
        assert(suffix_of(parts[i].name) == Some(seq![c]));
    }
}

/// Two, three and five parts that were joined by points are cut again.
proof fn lemma_key(parts: Seq<Seq<char>>)
    requires
        parts.len() > 0,
        forall|k: int| 0 <= k < parts.len() ==> !(#[trigger] parts[k]).contains('.'),
    ensures
        split_all(joined(parts, seq!['.']), '.') == parts,
{
    law_joined_read_back(parts, '.');
}

/// The keys that lead to a partition, a group, a device and an extent.
proof fn lemma_key_words()
    ensures
        "partition"@.len() == 9 && !"partition"@.contains('.'),
        "partitions"@.len() == 10 && !"partitions"@.contains('.'),
        "group"@.len() == 5 && !"group"@.contains('.'),
        "device"@.len() == 6 && !"device"@.contains('.'),
        "extent"@.len() == 6 && !"extent"@.contains('.'),
{
    reveal_strlit("partition");
    reveal_strlit("partitions");
    reveal_strlit("group");
    reveal_strlit("device");
    reveal_strlit("extent");
}

/// A key of three parts gives the field of the first partition, group or device of that
/// name, and a key of five parts the field of an extent of a partition, counted along
/// its chain.
pub proof fn law_get(d: SuperView, name: Seq<char>, field: Seq<char>, k: u32)
    requires
        !name.contains('.'),
        !field.contains('.'),
        d.tables.block_devices.len() <= u32::MAX,
    ensures
        ({
            let dot = seq!['.'];
            let partition = value_of(d, joined(seq!["partition"@, name, field], dot));
            let group = value_of(d, joined(seq!["group"@, name, field], dot));
            let device = value_of(d, joined(seq!["device"@, name, field], dot));
            let extent = value_of(
                d,
                joined(seq!["partition"@, name, "extent"@, decimal(k as nat), field], dot),
            );
            &&& value_of(d, joined(seq!["partitions"@, name, field], dot)) == partition
            &&& partition matches Ok(v) ==> exists|i: int|
                0 <= i < d.tables.partitions.len() && (#[trigger] d.tables.partitions[i]).name
                    == name && partition_value(d, d.tables.partitions[i], field) == Some(v)
            &&& partition is Err ==> (forall|i: int|
                0 <= i < d.tables.partitions.len() ==> (#[trigger] d.tables.partitions[i]).name
                    != name) || exists|i: int|
                0 <= i < d.tables.partitions.len() && (#[trigger] d.tables.partitions[i]).name
                    == name && partition_value(d, d.tables.partitions[i], field) is None
            &&& group matches Ok(v) ==> exists|i: int|
                0 <= i < d.tables.groups.len() && (#[trigger] d.tables.groups[i]).name == name
                    && group_value(d.tables.groups[i], field) == Some(v)
            &&& group is Err ==> (forall|i: int|
                0 <= i < d.tables.groups.len() ==> (#[trigger] d.tables.groups[i]).name != name)
                || exists|i: int|
                0 <= i < d.tables.groups.len() && (#[trigger] d.tables.groups[i]).name == name
                    && group_value(d.tables.groups[i], field) is None
            &&& device matches Ok(v) ==> exists|i: int|
                0 <= i < d.tables.block_devices.len()
                    && (#[trigger] d.tables.block_devices[i]).partition_name == name
                    && device_value(d.tables.block_devices[i], field) == Some(v)
            &&& extent matches Ok(v) ==> exists|i: int|
                0 <= i < d.tables.partitions.len() && (#[trigger] d.tables.partitions[i]).name
                    == name && k < extents_of_partition(
                    d.tables.extents,
                    d.tables.partitions[i],
                ).len() && extent_value(
                    d,
                    extents_of_partition(d.tables.extents, d.tables.partitions[i])[k as int],
                    field,
                ) == Some(v)
        }),
{
    let dot = seq!['.'];
    lemma_key_words();
    law_number_read_back(k as nat, u32::MAX as nat);
    crate::text_laws::law_written(k as nat, 10);
    let digits = decimal(k as nat);
    assert(!digits.contains('.')) by {
        if digits.contains('.') {
            let m = digits.index_of('.');
            assert(crate::text::is_digit(digits[m]));
        }
    }
    lemma_key(seq!["partition"@, name, field]);
    lemma_key(seq!["partitions"@, name, field]);
    lemma_key(seq!["group"@, name, field]);
    lemma_key(seq!["device"@, name, field]);
    lemma_key(seq!["partition"@, name, "extent"@, digits, field]);
    law_named(d.tables.partitions, name, 0);
    law_group_named(d.tables.groups, name, 0);
    law_device_named(d.tables.block_devices, name, 0);
    if let Some(i) = named(d.tables.partitions, name, 0) {
        let p = d.tables.partitions[i];
    }
}

/// The names of the values of an image differ.
proof fn lemma_image_keys()
    ensures
        "format"@.len() == 6 && "format"@[0] == 'f',
        "groups"@.len() == 6 && "groups"@[0] == 'g',
        "size"@.len() == 4,
        "size_human"@.len() == 10 && "size_human"@[0] == 's',
        "image_size"@.len() == 10 && "image_size"@[0] == 'i',
        "geometry_offset"@.len() == 15 && "geometry_offset"@[0] == 'g',
        "metadata_offset"@.len() == 15 && "metadata_offset"@[0] == 'm',
        "partition_count"@.len() == 15 && "partition_count"@[0] == 'p',
        "metadata_slot"@.len() == 13,
        "metadata_max_size"@.len() == 17,
        "metadata_slot_count"@.len() == 19,
        "logical_block_size"@.len() == 18 && "logical_block_size"@[0] == 'l',
        "available_suffixes"@.len() == 18 && "available_suffixes"@[0] == 'a',
        "metadata_version"@.len() == 16 && "metadata_version"@[0] == 'm',
        "image_size_human"@.len() == 16 && "image_size_human"@[0] == 'i',
        "header_size"@.len() == 11 && "header_size"@[0] == 'h',
        "tables_size"@.len() == 11 && "tables_size"@[0] == 't',
        "devices"@.len() == 7,
        "image_format"@.len() == 12,
{
    reveal_strlit("format");
    reveal_strlit("size");
    reveal_strlit("size_human");
    reveal_strlit("geometry_offset");
    reveal_strlit("metadata_offset");
    reveal_strlit("metadata_slot");
    reveal_strlit("metadata_max_size");
    reveal_strlit("metadata_slot_count");
    reveal_strlit("logical_block_size");
    reveal_strlit("metadata_version");
    reveal_strlit("header_size");
    reveal_strlit("tables_size");
    reveal_strlit("available_suffixes");
    reveal_strlit("partition_count");
    reveal_strlit("groups");
    reveal_strlit("devices");
    reveal_strlit("image_format");
    reveal_strlit("image_size");
    reveal_strlit("image_size_human");
}

/// The key under which a value of the image's record is told.
pub open spec fn told_under(key: Seq<char>) -> Seq<char> {
    if key == "image_format"@ {
        "format"@
    } else if key == "image_size"@ {
        "size"@
    } else if key == "image_size_human"@ {
        "size_human"@
    } else {
        key
    }
}

/// The record of the image tells what is told of each of its values.
pub proof fn law_image_record(d: SuperView, k: int)
    requires
        0 <= k < image_fields(d).len(),
    ensures
        ({
            let (key, v) = image_fields(d)[k];
            image_value(d, told_under(key)) == Some(shown_as(v))
        }),
{
    lemma_image_keys();
}

/// A value of the image.
pub open spec fn told(d: SuperView, key: Seq<char>) -> Seq<char> {
    image_value(d, key)->Some_0
}

/// A value of a partition.
pub open spec fn part_told(d: SuperView, p: PartitionView, key: Seq<char>) -> Seq<char> {
    partition_value(d, p, key)->Some_0
}

/// The overview tells the values of the image, one a line.
pub proof fn law_info_lines(d: SuperView)
    ensures
        ({
            let lines = info_section(d);
            &&& lines[1] == "format: "@ + told(d, "format"@)
            &&& lines[2] == "size: "@ + (told(d, "size"@) + " ("@ + told(d, "size_human"@) + ")"@)
            &&& lines[3] == "geometry_offset: "@ + told(d, "geometry_offset"@)
            &&& lines[4] == "metadata_offset: "@ + (told(d, "metadata_offset"@) + " (slot "@ + told(
                d,
                "metadata_slot"@,
            ) + ")"@)
            &&& lines[5] == "metadata_max_size: "@ + told(d, "metadata_max_size"@)
            &&& lines[6] == "metadata_slot_count: "@ + told(d, "metadata_slot_count"@)
            &&& lines[7] == "logical_block_size: "@ + told(d, "logical_block_size"@)
            &&& lines[8] == "metadata_version: "@ + told(d, "metadata_version"@)
            &&& lines[9] == "header_size: "@ + told(d, "header_size"@)
            &&& lines[10] == "tables_size: "@ + told(d, "tables_size"@)
            &&& lines[11] == "available_suffixes: "@ + told(d, "available_suffixes"@)
        }),
{
    lemma_image_keys();
}

/// The numbers that are told of an image read back as what its header and geometry say.
pub proof fn law_image_numbers(d: SuperView)
    ensures
        ({
            let number = |key: Seq<char>| parsed_number(told(d, key), u64::MAX as nat);
            &&& told(d, "format"@) == d.image_format
            &&& number("size"@) == Some(d.image_size as nat)
            &&& number("metadata_slot"@) == Some(d.metadata_slot as nat)
            &&& number("metadata_max_size"@) == Some(d.geometry.metadata_max_size as nat)
            &&& number("metadata_slot_count"@) == Some(d.geometry.metadata_slot_count as nat)
            &&& number("logical_block_size"@) == Some(d.geometry.logical_block_size as nat)
            &&& number("header_size"@) == Some(d.header.header_size as nat)
            &&& number("tables_size"@) == Some(d.header.tables_size as nat)
            &&& d.tables.partitions.len() <= u64::MAX ==> number("partition_count"@) == Some(
                d.tables.partitions.len(),
            )
            &&& told(d, "geometry_offset"@) == hexadecimal(d.geometry_offset as nat)
            &&& told(d, "metadata_offset"@) == hexadecimal(d.metadata_offset as nat)
        }),
{
    let max = u64::MAX as nat;
    lemma_image_keys();
    law_number_read_back(d.image_size as nat, max);
    law_number_read_back(d.metadata_slot as nat, max);
    law_number_read_back(d.geometry.metadata_max_size as nat, max);
    law_number_read_back(d.geometry.metadata_slot_count as nat, max);
    law_number_read_back(d.geometry.logical_block_size as nat, max);
    law_number_read_back(d.header.header_size as nat, max);
    law_number_read_back(d.header.tables_size as nat, max);
    law_number_read_back(d.tables.partitions.len(), max);
}

/// The lines of the overview tell the values of the partition, the group and the device
/// that they stand for.
pub proof fn law_item_lines(
    d: SuperView,
    p: PartitionView,
    g: GroupView,
    b: BlockDeviceView,
    i: nat,
)
    ensures
        partition_line(d, p, i) == "["@ + decimal(i) + "] "@ + "name="@ + part_told(d, p, "name"@)
            + " group="@ + part_told(d, p, "group"@) + " attrs=["@ + part_told(d, p, "attrs"@)
            + "] extents="@ + part_told(d, p, "extents"@) + " size="@ + (part_told(d, p, "size"@)
            + " ("@ + part_told(d, p, "size_human"@) + ")"@),
        group_line(g, i) == "["@ + decimal(i) + "] "@ + "name="@ + g.name + " flags="@
            + hexadecimal(g.flags as nat) + " max_size="@ + (group_value(
            g,
            "max_size"@,
        )->Some_0 + " ("@ + group_value(g, "max_size_human"@)->Some_0 + ")"@),
        device_line(b, i) == "["@ + decimal(i) + "] "@ + "name="@ + b.partition_name
            + " first_sector="@ + device_value(b, "first_sector"@)->Some_0 + " alignment="@
            + device_value(b, "alignment"@)->Some_0 + " size="@ + (device_value(
            b,
            "size"@,
        )->Some_0 + " ("@ + device_value(b, "size_human"@)->Some_0 + ")"@),
{
    lemma_field_names();
}

/// The line of an extent tells its values; the place on the device only of a linear one.
pub proof fn law_extent_line(d: SuperView, e: Extent, i: nat)
    requires
        e.target_type == LP_TARGET_TYPE_LINEAR || e.target_type == LP_TARGET_TYPE_ZERO,
        e.target_source < d.tables.block_devices.len(),
    ensures
        ({
            let v = |key: Seq<char>| extent_value(d, e, key)->Some_0;
            let front = "["@ + decimal(i) + "] "@ + "type="@ + v("type"@) + " sectors="@ + v(
                "sectors"@,
            ) + " size="@ + v("size"@);
            &&& e.target_type == LP_TARGET_TYPE_ZERO ==> extent_line(d, e, i) == front
            &&& e.target_type == LP_TARGET_TYPE_LINEAR ==> extent_line(d, e, i) == front
                + " phys_offset="@ + v("phys_offset_hex"@) + " device="@ + v("device"@)
        }),
{
    lemma_field_names();
}

/// The variables of the image and of a partition tell the same values.
pub proof fn law_variables(d: SuperView, p: PartitionView, i: nat)
    ensures
        ({
            let vars = partition_variables(d, p, i);
            let stem = "SUPER_PART_"@ + decimal(i);
            &&& vars[0] == (stem + "_NAME"@) + "="@ + part_told(d, p, "name"@)
            &&& vars[1] == (stem + "_BASE_NAME"@) + "="@ + part_told(d, p, "base_name"@)
            &&& vars[2] == (stem + "_SUFFIX"@) + "="@ + part_told(d, p, "suffix"@)
            &&& vars[3] == (stem + "_GROUP"@) + "="@ + part_told(d, p, "group"@)
            &&& vars[4] == (stem + "_SIZE"@) + "="@ + part_told(d, p, "size"@)
            &&& vars[5] == (stem + "_SIZE_HUMAN"@) + "="@ + part_told(d, p, "size_human"@)
            &&& vars[6] == (stem + "_EXTENTS"@) + "="@ + part_told(d, p, "extents"@)
            &&& vars[7] == (stem + "_ATTRS"@) + "="@ + part_told(d, p, "attrs"@)
        }),
        ({
            let vars = image_variables(d, d.tables.partitions.len());
            &&& vars[0] == "SUPER_IMAGE_FORMAT"@ + "="@ + told(d, "format"@)
            &&& vars[1] == "SUPER_IMAGE_SIZE"@ + "="@ + told(d, "size"@)
            &&& vars[2] == "SUPER_GEOMETRY_OFFSET"@ + "="@ + told(d, "geometry_offset"@)
            &&& vars[3] == "SUPER_METADATA_OFFSET"@ + "="@ + told(d, "metadata_offset"@)
            &&& vars[4] == "SUPER_METADATA_SLOT"@ + "="@ + told(d, "metadata_slot"@)
            &&& vars[5] == "SUPER_METADATA_MAX_SIZE"@ + "="@ + told(d, "metadata_max_size"@)
            &&& vars[6] == "SUPER_METADATA_SLOT_COUNT"@ + "="@ + told(d, "metadata_slot_count"@)
            &&& vars[7] == "SUPER_LOGICAL_BLOCK_SIZE"@ + "="@ + told(d, "logical_block_size"@)
            &&& vars[8] == "SUPER_METADATA_VERSION"@ + "="@ + told(d, "metadata_version"@)
            &&& vars[9] == "SUPER_AVAILABLE_SUFFIXES"@ + "="@ + told(d, "available_suffixes"@)
            &&& vars[10] == "SUPER_PARTITION_COUNT"@ + "="@ + told(d, "partition_count"@)
        }),
{
    lemma_field_names();
    lemma_image_keys();
}

/// The columns that were asked for are shown, in that order.
pub proof fn law_columns(args: InfoArgs, names: Seq<Seq<char>>)
    requires
        names.len() > 0,
        forall|k: int|
            0 <= k < names.len() ==> !(#[trigger] names[k]).contains(',') && trimmed(names[k])
                == names[k],
        args.columns matches Some(list) && list@ == joined(names, seq![',']),
    ensures
        columns_of(args) == names,
{
    assert forall|k: int| 0 <= k < names.len() implies !(#[trigger] names[k]).contains(',') by {
        assert(trimmed(names[k]) == names[k]);
    }
    law_joined_read_back(names, ',');
    assert(columns_of(args) =~= names) by {
        assert forall|k: int| 0 <= k < names.len() implies trimmed(#[trigger] names[k])
            == names[k] by {}
    }
}

/// Where sections are named, those are shown and no others; where none is, all are.
pub proof fn law_sections(args: InfoArgs)
    ensures
        shows_all(args) <==> args.all || (!args.info && !args.partitions && !args.extents
            && !args.groups && !args.devices && !args.mapping),
{
}

/// Six parts one after another.
proof fn lemma_six(
    a: Seq<Seq<char>>,
    b: Seq<Seq<char>>,
    c: Seq<Seq<char>>,
    e: Seq<Seq<char>>,
    f: Seq<Seq<char>>,
    g: Seq<Seq<char>>,
)
    ensures
        ({
            let all = a + b + c + e + f + g;
            let n1 = a.len() as int;
            let n2 = n1 + b.len();
            let n3 = n2 + c.len();
            let n4 = n3 + e.len();
            let n5 = n4 + f.len();
            let n6 = n5 + g.len();
            &&& all.len() == n6
            &&& all.subrange(0, n1) == a
            &&& all.subrange(n1, n2) == b
            &&& all.subrange(n2, n3) == c
            &&& all.subrange(n3, n4) == e
            &&& all.subrange(n4, n5) == f
            &&& all.subrange(n5, n6) == g
        }),
{
    let all = a + b + c + e + f + g;
    let n1 = a.len() as int;
    let n2 = n1 + b.len();
    let n3 = n2 + c.len();
    let n4 = n3 + e.len();
    let n5 = n4 + f.len();
    let n6 = n5 + g.len();
    assert(all.subrange(0, n1) =~= a);
    assert(all.subrange(n1, n2) =~= b);
    assert(all.subrange(n2, n3) =~= c);
    assert(all.subrange(n3, n4) =~= e);
    assert(all.subrange(n4, n5) =~= f);
    assert(all.subrange(n5, n6) =~= g);
}

/// Where the sections of the overview end, in order.
pub open spec fn section_ends(d: SuperView, parts: Seq<PartitionView>, s: Sections) -> (
    int,
    int,
    int,
    int,
    int,
    int,
) {
    let a: int = if s.info {
        info_section(d).len() as int
    } else {
        0
    };
    let b: int = a + if s.groups {
        groups_section(d).len() as int
    } else {
        0
    };
    let c: int = b + if s.devices {
        devices_section(d).len() as int
    } else {
        0
    };
    let e: int = c + if s.partitions {
        partitions_section(d, parts).len() as int
    } else {
        0
    };
    let f: int = e + if s.extents {
        extents_section(d).len() as int
    } else {
        0
    };
    let g: int = f + if s.mapping {
        mapping_section(d, parts, parts.len() as int).len() as int
    } else {
        0
    };
    (a, b, c, e, f, g)
}

/// The overview has the sections that are wanted, whole and in order, and nothing else.
pub proof fn law_overview(d: SuperView, parts: Seq<PartitionView>, s: Sections)
    ensures
        ({
            let lines = overview(d, parts, s);
            let (a, b, c, e, f, g) = section_ends(d, parts, s);
            &&& lines.len() == g
            &&& s.info ==> lines.subrange(0, a) == info_section(d)
            &&& s.groups ==> lines.subrange(a, b) == groups_section(d)
            &&& s.devices ==> lines.subrange(b, c) == devices_section(d)
            &&& s.partitions ==> lines.subrange(c, e) == partitions_section(d, parts)
            &&& s.extents ==> lines.subrange(e, f) == extents_section(d)
            &&& s.mapping ==> lines.subrange(f, g) == mapping_section(
                d,
                parts,
                parts.len() as int,
            )
        }),
{
    lemma_six(
        wanted_lines(s.info, info_section(d)),
        wanted_lines(s.groups, groups_section(d)),
        wanted_lines(s.devices, devices_section(d)),
        wanted_lines(s.partitions, partitions_section(d, parts)),
        wanted_lines(s.extents, extents_section(d)),
        wanted_lines(s.mapping, mapping_section(d, parts, parts.len() as int)),
    );
}

/// The tables of the overview have a line for each item, under a heading that counts
/// them.
pub proof fn law_table_lines(d: SuperView, parts: Seq<PartitionView>, k: int)
    ensures
        groups_section(d).len() == d.tables.groups.len() + 2,
        devices_section(d).len() == d.tables.block_devices.len() + 2,
        partitions_section(d, parts).len() == parts.len() + 2,
        extents_section(d).len() == d.tables.extents.len() + 2,
        0 <= k < d.tables.groups.len() ==> groups_section(d)[k + 1] == group_line(
            d.tables.groups[k],
            k as nat,
        ),
        0 <= k < d.tables.block_devices.len() ==> devices_section(d)[k + 1] == device_line(
            d.tables.block_devices[k],
            k as nat,
        ),
        0 <= k < parts.len() ==> partitions_section(d, parts)[k + 1] == partition_line(
            d,
            parts[k],
            k as nat,
        ),
        0 <= k < d.tables.extents.len() ==> extents_section(d)[k + 1] == extent_line(
            d,
            d.tables.extents[k],
            k as nat,
        ),
{
}

/// The mapping of the overview has, for each partition, its name and then a line for each
/// extent of its chain; that of a linear extent tells its device and the bytes that it
/// covers there, from its first to behind its last.
pub proof fn law_chain_lines(d: SuperView, p: PartitionView, k: int)
    requires
        0 <= k < extents_of_partition(d.tables.extents, p).len(),
    ensures
        ({
            let chain = extents_of_partition(d.tables.extents, p);
            let e = chain[k];
            let lines = chain_lines(d, p);
            &&& lines.len() == chain.len() + 1
            &&& lines[0] == "\""@ + p.name + "\":"@
            &&& lines[k + 1] == chain_line(d, e, (p.first_extent_index + k) as nat)
            &&& e.target_type == LP_TARGET_TYPE_LINEAR && e.target_source
                < d.tables.block_devices.len() && 512 * (e.target_data + e.num_sectors) <= u64::MAX
                ==> lines[k + 1] == "  extent["@ + decimal((p.first_extent_index + k) as nat)
                + "]: "@ + "linear dev="@
                + d.tables.block_devices[e.target_source as int].partition_name + " "@
                + hexadecimal((512 * e.target_data) as nat) + ".."@ + hexadecimal(
                (512 * (e.target_data + e.num_sectors)) as nat,
            ) + " ("@ + human((512 * e.num_sectors) as u64) + ")"@
        }),
{
}

proof fn lemma_mapping_section(d: SuperView, parts: Seq<PartitionView>, n: int, m: int)
    requires
        0 <= m < n <= parts.len(),
    ensures
        ({
            let at = mapping_section(d, parts, m).len() as int;
            let lines = chain_lines(d, parts[m]);
            &&& at + lines.len() <= mapping_section(d, parts, n).len()
            &&& mapping_section(d, parts, n).subrange(at, at + lines.len()) == lines
        }),
    decreases n,
{
    let all = mapping_section(d, parts, n);
    let front = mapping_section(d, parts, n - 1);
    let lines = chain_lines(d, parts[m]);
    let at = mapping_section(d, parts, m).len() as int;
    if m == n - 1 {
        assert(all.subrange(at, at + lines.len()) =~= lines);
    } else {
        lemma_mapping_section(d, parts, n - 1, m);
        assert(all.subrange(at, at + lines.len()) =~= front.subrange(at, at + lines.len()));
    }
}

/// The mapping of the overview has the lines of every partition, one after another.
pub proof fn law_mapping_section(d: SuperView, parts: Seq<PartitionView>, m: int)
    requires
        0 <= m < parts.len(),
    ensures
        ({
            let all = mapping_section(d, parts, parts.len() as int);
            exists|at: int|
                1 <= at && at + chain_lines(d, parts[m]).len() <= all.len() && #[trigger] all.subrange(
                    at,
                    at + chain_lines(d, parts[m]).len(),
                ) == chain_lines(d, parts[m])
        }),
{
    lemma_mapping_section(d, parts, parts.len() as int, m);
    lemma_mapping_head(d, parts, m);
}

proof fn lemma_mapping_head(d: SuperView, parts: Seq<PartitionView>, n: int)
    ensures
        mapping_section(d, parts, n).len() >= 1,
    decreases n,
{
    if n > 0 {
        lemma_mapping_head(d, parts, n - 1);
    }
}

/// The document of a slot has a record for each group, device and extent of the tables
/// and for each partition that is shown, in order.
pub proof fn law_records(slot: JsonSlot, d: SuperView, parts: Seq<PartitionView>, k: int)
    requires
        records_of(slot, d, parts),
    ensures
        slot.groups@.len() == d.tables.groups.len(),
        slot.devices@.len() == d.tables.block_devices.len(),
        slot.partitions@.len() == parts.len(),
        slot.extents@.len() == d.tables.extents.len(),
        0 <= k < d.tables.groups.len() ==> views(slot.groups@[k]@) == group_fields(
            d.tables.groups[k],
        ),
        0 <= k < d.tables.block_devices.len() ==> views(slot.devices@[k]@) == device_fields(
            d.tables.block_devices[k],
        ),
        0 <= k < parts.len() ==> views(slot.partitions@[k]@) == partition_fields(d, parts[k]),
        0 <= k < d.tables.extents.len() ==> views(slot.extents@[k]@) == extent_fields(
            d,
            d.tables.extents[k],
        ),
        views(slot.image@) == image_fields(d),
{
    let groups = record_views(slot.groups@);
    let devices = record_views(slot.devices@);
    let partitions = record_views(slot.partitions@);
    let extents = record_views(slot.extents@);
    assert(groups.len() == slot.groups@.len());
    assert(devices.len() == slot.devices@.len());
    assert(partitions.len() == slot.partitions@.len());
    assert(extents.len() == slot.extents@.len());
    if 0 <= k < groups.len() {
        assert(groups[k] == views(slot.groups@[k]@));
    }
    if 0 <= k < devices.len() {
        assert(devices[k] == views(slot.devices@[k]@));
    }
    if 0 <= k < partitions.len() {
        assert(partitions[k] == views(slot.partitions@[k]@));
    }
    if 0 <= k < extents.len() {
        assert(extents[k] == views(slot.extents@[k]@));
    }
}

/// The record above several slots counts the slots and their partitions together.
pub proof fn law_slots_record(datas: Seq<SuperView>, d: SuperView)
    requires
        datas.len() < u64::MAX,
        partition_total(datas.push(d), datas.len() as int + 1) <= u64::MAX,
    ensures
        slots_fields(datas)[3].1 == ScalarView::Number(datas.len() as u64),
        slots_fields(datas.push(d))[3].1 == ScalarView::Number((datas.len() + 1) as u64),
        slots_fields(datas)[4].1 matches ScalarView::Number(n) && slots_fields(datas.push(d))[4].1
            == ScalarView::Number((n + d.tables.partitions.len()) as u64),
        datas.len() == 0 ==> slots_fields(datas)[4].1 == ScalarView::Number(0),
        datas.len() > 0 ==> slots_fields(datas)[0].1 == ScalarView::Text(datas[0].image_format)
            && slots_fields(datas)[1].1 == ScalarView::Number(datas[0].image_size),
{
    lemma_total_front(datas, d, datas.len() as int);
}

proof fn lemma_total_front(datas: Seq<SuperView>, d: SuperView, n: int)
    requires
        0 <= n <= datas.len(),
    ensures
        partition_total(datas.push(d), n) == partition_total(datas, n),
        partition_total(datas, n) >= 0,
    decreases n,
{
    if n > 0 {
        lemma_total_front(datas, d, n - 1);
    }
}

/// A table has a row for each partition that is shown, in order, and above them the names
/// of the columns where that is wanted.
pub proof fn law_tsv_rows(
    d: SuperView,
    parts: Seq<PartitionView>,
    columns: Seq<Seq<char>>,
    header: bool,
    bytes: bool,
    k: int,
)
    ensures
        ({
            let rows = tsv_rows(d, parts, columns, header, bytes);
            let top: int = if header {
                1
            } else {
                0
            };
            &&& rows.len() == parts.len() + top
            &&& header ==> rows[0] == joined(columns, seq!['\t'])
            &&& 0 <= k < parts.len() ==> rows[k + top] == tsv_row(d, parts[k], columns, bytes)
        }),
{
    reveal_strlit("\t");
    assert("\t"@ =~= seq!['\t']);
}

proof fn lemma_all_variables(d: SuperView, parts: Seq<PartitionView>, n: int)
    requires
        0 <= n <= parts.len(),
    ensures
        ({
            let all = all_variables(d, parts, n);
            &&& all.len() == 11 + 9 * n
            &&& all.take(11) == image_variables(d, parts.len())
            &&& forall|m: int|
                0 <= m < n ==> #[trigger] nine_at(all, m) == partition_variables(
                    d,
                    parts[m],
                    m as nat,
                )
        }),
    decreases n,
{
    let all = all_variables(d, parts, n);
    if n == 0 {
        assert(all.take(11) =~= image_variables(d, parts.len()));
    } else {
        lemma_all_variables(d, parts, n - 1);
        let front = all_variables(d, parts, n - 1);
        let last = partition_variables(d, parts[n - 1], (n - 1) as nat);
        assert(all == front + last);
        assert(last.len() == 9);
        assert(all.take(11) =~= front.take(11));
        assert forall|m: int| 0 <= m < n implies #[trigger] nine_at(all, m) == partition_variables(
            d,
            parts[m],
            m as nat,
        ) by {
            if m < n - 1 {
                assert(nine_at(all, m) =~= nine_at(front, m));
            } else {
                assert(nine_at(all, m) =~= last);
            }
        }
    }
}

/// The variables of the `m`-th partition among all of them.
pub open spec fn nine_at(all: Seq<Seq<char>>, m: int) -> Seq<Seq<char>> {
    all.subrange(11 + 9 * m, 20 + 9 * m)
}

/// The variables are those of the image and then those of each partition that is shown,
/// in order.
pub proof fn law_all_variables(d: SuperView, parts: Seq<PartitionView>, m: int)
    requires
        0 <= m < parts.len(),
    ensures
        ({
            let all = all_variables(d, parts, parts.len() as int);
            &&& all.len() == 11 + 9 * parts.len()
            &&& all.take(11) == image_variables(d, parts.len())
            &&& all.subrange(11 + 9 * m, 20 + 9 * m) == partition_variables(
                d,
                parts[m],
                m as nat,
            )
        }),
{
    lemma_all_variables(d, parts, parts.len() as int);
    let all = all_variables(d, parts, parts.len() as int);
    assert(nine_at(all, m) == partition_variables(d, parts[m], m as nat));
}

/// What is told of a partition in words: its suffix is the letter of its tail, its base
/// name comes before it, its device is that of its first extent, and it is told to be
/// read-only where it is marked so.
pub proof fn law_partition_words(d: SuperView, p: PartitionView)
    ensures
        ({
            let chain = extents_of_partition(d.tables.extents, p);
            let suffix = part_told(d, p, "suffix"@);
            &&& has_tail(p.name) ==> suffix == seq![p.name.last()] && p.name == part_told(
                d,
                p,
                "base_name"@,
            ) + seq!['_'] + suffix
            &&& !has_tail(p.name) ==> suffix.len() == 0 && part_told(d, p, "base_name"@) == p.name
            &&& chain.len() > 0 && chain[0].target_source < d.tables.block_devices.len()
                ==> part_told(d, p, "device"@)
                == d.tables.block_devices[chain[0].target_source as int].partition_name
            &&& part_told(d, p, "attrs"@) == attr_text(p.attributes)
            &&& part_told(d, p, "readonly"@) == (if p.attributes % 2 == 1 {
                "true"@
            } else {
                "false"@
            })
        }),
{
    lemma_field_names();
    law_suffix_is_tail(p.name);
    law_suffix_stripped(p.name);
    let attrs = p.attributes;
    assert(attrs & 1 != 0 <==> attrs % 2 == 1) by (bit_vector);
}

/// The lists that are told of an image can be cut into the names again, and its version
/// into two numbers.
pub proof fn law_image_lists(d: SuperView)
    requires
        d.tables.groups.len() > 0,
        d.tables.block_devices.len() > 0,
        forall|k: int|
            0 <= k < d.tables.groups.len() ==> !(#[trigger] d.tables.groups[k]).name.contains(' '),
        forall|k: int|
            0 <= k < d.tables.block_devices.len()
                ==> !(#[trigger] d.tables.block_devices[k]).partition_name.contains(' '),
    ensures
        ({
            let groups = split_all(told(d, "groups"@), ' ');
            let devices = split_all(told(d, "devices"@), ' ');
            &&& groups.len() == d.tables.groups.len()
            &&& forall|k: int|
                0 <= k < groups.len() ==> #[trigger] groups[k] == d.tables.groups[k].name
            &&& devices.len() == d.tables.block_devices.len()
            &&& forall|k: int|
                0 <= k < devices.len() ==> #[trigger] devices[k]
                    == d.tables.block_devices[k].partition_name
            &&& told(d, "metadata_version"@) == decimal(d.header.major_version as nat) + seq!['.']
                + decimal(d.header.minor_version as nat)
            &&& told(d, "available_suffixes"@) == joined(suffixes(d), seq![','])
        }),
{
    lemma_image_keys();
    reveal_strlit(" ");
    reveal_strlit(".");
    reveal_strlit(",");
    assert(" "@ =~= seq![' ']);
    assert("."@ =~= seq!['.']);
    assert(","@ =~= seq![',']);
    let groups = group_names(d);
    let devices = all_device_names(d);
    assert forall|k: int| 0 <= k < groups.len() implies !(#[trigger] groups[k]).contains(' ') by {
        assert(groups[k] == d.tables.groups[k].name);
    }
    assert forall|k: int| 0 <= k < devices.len() implies !(#[trigger] devices[k]).contains(' ') by {
        assert(devices[k] == d.tables.block_devices[k].partition_name);
    }
    law_joined_read_back(groups, ' ');
    law_joined_read_back(devices, ' ');
}

/// The size of a partition is told once more under its own name, in capitals and without
/// hyphens.
pub proof fn law_named_variable(d: SuperView, p: PartitionView, i: nat)
    ensures
        partition_variables(d, p, i).len() == 9,
        partition_variables(d, p, i)[8] == ("SUPER_PART_"@ + replaced(uppercase(p.name), '-', '_')
            + "_SIZE"@) + "="@ + part_told(d, p, "size"@),
        !replaced(uppercase(p.name), '-', '_').contains('-'),
{
    lemma_field_names();
    let s = replaced(uppercase(p.name), '-', '_');
    if s.contains('-') {
        let k = s.index_of('-');
        assert(s[k] == '-');
    }
}

/// The document of one slot is its records; that of several has the records of each, in
/// order, with the partitions that the filter lets through.
pub proof fn law_document(
    r: JsonDocument,
    datas: Seq<SuperData>,
    suffix: Option<Seq<char>>,
    k: int,
)
    requires
        document_of(r, datas, suffix),
        0 <= k < datas.len(),
    ensures
        r is One <==> datas.len() == 1,
        r matches JsonDocument::One(slot) ==> records_of(
            slot,
            datas[k]@,
            views(
                datas[k].partitions@.filter(|p: Partition| passes(p.name@, suffix)),
            ),
        ),
        r matches JsonDocument::Several { head, slots } ==> slots@.len() == datas.len()
            && records_of(
            slots@[k],
            datas[k]@,
            views(
                datas[k].partitions@.filter(|p: Partition| passes(p.name@, suffix)),
            ),
        ) && views(head@) == slots_fields(views(datas)),
{
    law_passing(datas[k].partitions@, suffix);
    if let JsonDocument::Several { head, slots } = r {
        assert(records_of(slots@[k], datas[k]@, crate::output::rows::shown(datas[k], suffix)));
    }
}

} // verus!
