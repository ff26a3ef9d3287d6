//! What the specifications of a new image stand for, and what becomes of them.

use crate::commands::argument_laws::law_size_spelled;
use crate::commands::arguments::{attributes, size_value, slot_selector};
use crate::commands::binding_laws::law_device_named;
use crate::commands::make::{
    block_fault, device_names, devices_from, first_repeat, groups_from, mapped_path, mappings_from,
    output_mapping, output_of, outputs_of, partition_names, place_of, plan_of, settings_of,
    MakeArgs, MakeError, SettingsView,
};
use crate::commands::make_laws::{lemma_rounded, lemma_tables_grow};
use crate::commands::make_layout::{
    data_start, device_table, metadata_end, no_tables, payload_plan, pin_of, reserve_unit,
    reserved_bytes, size_fault, table_from, tables_from, with_partition, MakeTablesView,
};
use crate::commands::make_specs::{
    chosen_slots, device_spec, group_spec, partition_spec, DeviceSpecView, PartitionSpecView,
};
use crate::commands::name_laws::law_group_named;
use crate::commands::place_laws::first_group;
use crate::commands::resize_laws::sectors_hold;
use crate::commands::split_util::group_named;
use crate::error::Error;
use crate::format::{BlockDeviceView, GroupView};
use crate::text::{decimal, is_digit, is_white, position_of, split_limit, texts, trimmed};
use crate::text_laws::{law_number_read_back, law_position, law_trimmed_stays, law_written};
use crate::writer::allocation::{align_to, is_next_aligned, lemma_align_to};
use crate::writer::spanning::extents_of;
use vstd::prelude::*;
use vstd::utf8::*;

verus! {

/// Whether a text can stand as one part of a specification: it has no such separator,
/// and no white space at its ends.
pub open spec fn plain_part(s: Seq<char>, sep: char) -> bool {
    &&& !s.contains(sep)
    &&& s.len() > 0 ==> !is_white(s[0]) && !is_white(s.last())
}

/// The first separator behind a text that has none.
proof fn lemma_first_sep(a: Seq<char>, sep: char, rest: Seq<char>)
    requires
        !a.contains(sep),
    ensures
        position_of(a + seq![sep] + rest, sep) == a.len(),
        position_of(a, sep) == a.len(),
{
    let s = a + seq![sep] + rest;
    law_position(s, sep, 0);
    law_position(a, sep, 0);
    let at = position_of(s, sep);
    assert(s[a.len() as int] == sep);
    if at < a.len() {
        assert(a[at] == s[at]);
        assert(a.contains(sep));
    }
    let end = position_of(a, sep);
    if end < a.len() {
        assert(a[end] == sep);
        assert(a.contains(sep));
    }
}

/// A text that starts with a part is cut behind that part.
proof fn lemma_split_first(a: Seq<char>, sep: char, rest: Seq<char>, n: nat)
    requires
        !a.contains(sep),
        n >= 2,
    ensures
        split_limit(a + seq![sep] + rest, sep, n) == seq![a] + split_limit(
            rest,
            sep,
            (n - 1) as nat,
        ),
{
    let s = a + seq![sep] + rest;
    lemma_first_sep(a, sep, rest);
    assert(s.subrange(0, a.len() as int) =~= a);
    assert(s.subrange(a.len() as int + 1, s.len() as int) =~= rest);
}

/// A text without a separator is not cut.
proof fn lemma_split_none(a: Seq<char>, sep: char, n: nat)
    requires
        !a.contains(sep) || n <= 1,
    ensures
        split_limit(a, sep, n) == seq![a],
{
    if n > 1 {
        lemma_first_sep(a, sep, Seq::empty());
    }
}

/// A number in decimal is a plain part.
proof fn lemma_decimal_plain(n: nat, sep: char)
    requires
        !is_digit(sep),
    ensures
        plain_part(decimal(n), sep),
        decimal(n).len() > 0,
        trimmed(decimal(n)) == decimal(n),
{
    law_written(n, 10);
    let s = decimal(n);
    if s.contains(sep) {
        let i = s.index_of(sep);
        assert(is_digit(s[i]));
    }
    assert(is_digit(s[0]) && is_digit(s[s.len() - 1]));
    law_trimmed_stays(s);
}

/// A device is what its specification says: name and size, and behind them the
/// alignment and its offset, which else are the usual alignment and zero.
pub proof fn law_device_spec(
    name: Seq<char>,
    size: u64,
    alignment: u32,
    offset: u32,
    usual: u32,
)
    requires
        plain_part(name, ':'),
        name.len() > 0,
        encode_utf8(name).len() <= 36,
        size > 0,
    ensures
        ({
            let short = name + seq![':'] + decimal(size as nat);
            let longer = name + seq![':'] + (decimal(size as nat) + seq![':'] + decimal(
                alignment as nat,
            ));
            let full = name + seq![':'] + (decimal(size as nat) + seq![':'] + (decimal(
                alignment as nat,
            ) + seq![':'] + decimal(offset as nat)));
            &&& device_spec(short, usual) == Ok::<DeviceSpecView, Error>(
                DeviceSpecView { name, size, alignment: usual, alignment_offset: 0 },
            )
            &&& device_spec(longer, usual) == Ok::<DeviceSpecView, Error>(
                DeviceSpecView { name, size, alignment, alignment_offset: 0 },
            )
            &&& device_spec(full, usual) == Ok::<DeviceSpecView, Error>(
                DeviceSpecView { name, size, alignment, alignment_offset: offset },
            )
        }),
{
    let a = decimal(size as nat);
    let b = decimal(alignment as nat);
    let c = decimal(offset as nat);
    lemma_decimal_plain(size as nat, ':');
    lemma_decimal_plain(alignment as nat, ':');
    lemma_decimal_plain(offset as nat, ':');
    law_trimmed_stays(name);
    law_size_spelled(size, 'K', 1024, false);
    law_size_spelled(alignment as u64, 'K', 1024, false);
    law_number_read_back(offset as nat, u32::MAX as nat);
    let e = Seq::<Seq<char>>::empty();
    lemma_split_first(name, ':', a, 4);
    lemma_split_none(a, ':', 3);
    let short = split_limit(name + seq![':'] + a, ':', 4);
    assert(short =~= seq![name, a]);
    lemma_split_first(name, ':', a + seq![':'] + b, 4);
    lemma_split_first(a, ':', b, 3);
    lemma_split_none(b, ':', 2);
    let longer = split_limit(name + seq![':'] + (a + seq![':'] + b), ':', 4);
    assert(longer =~= seq![name, a, b]);
    lemma_split_first(name, ':', a + seq![':'] + (b + seq![':'] + c), 4);
    lemma_split_first(a, ':', b + seq![':'] + c, 3);
    lemma_split_first(b, ':', c, 2);
    lemma_split_none(c, ':', 1);
    let full = split_limit(
        name + seq![':'] + (a + seq![':'] + (b + seq![':'] + c)),
        ':',
        4,
    );
    assert(full =~= seq![name, a, b, c]);
}

/// A group is what its specification says: its name and its largest size.
pub proof fn law_group_spec(name: Seq<char>, size: u64)
    requires
        plain_part(name, ':'),
        name.len() > 0,
        encode_utf8(name).len() <= 36,
    ensures
        group_spec(name + seq![':'] + decimal(size as nat)) == Ok::<GroupView, Error>(
            GroupView { name, flags: 0, maximum_size: size },
        ),
{
    let a = decimal(size as nat);
    let s = name + seq![':'] + a;
    lemma_decimal_plain(size as nat, ':');
    law_trimmed_stays(name);
    law_size_spelled(size, 'K', 1024, false);
    lemma_first_sep(name, ':', a);
    assert(s.take(name.len() as int) =~= name);
    assert(s.skip(name.len() as int + 1) =~= a);
}

/// A partition is what its specification says: name, attributes and group, the device
/// that it is pinned to behind an `@`, and its payload, each only where it is given.
pub proof fn law_partition_spec(
    name: Seq<char>,
    attrs: Seq<char>,
    group: Seq<char>,
    device: Seq<char>,
    payload: Seq<char>,
)
    requires
        plain_part(name, ':'),
        plain_part(attrs, ':'),
        plain_part(group, ':') && plain_part(group, '@'),
        plain_part(device, ':'),
        name.len() > 0 && group.len() > 0 && device.len() > 0 && payload.len() > 0,
        !is_white(payload[0]) && !is_white(payload.last()),
        encode_utf8(name).len() <= 36,
        attributes(attrs, true) is Ok,
    ensures
        ({
            let bare = name + seq![':'] + (attrs + seq![':'] + group);
            let pinned = name + seq![':'] + (attrs + seq![':'] + (group + seq!['@'] + device));
            let full = name + seq![':'] + (attrs + seq![':'] + ((group + seq!['@'] + device) + seq![
                ':',
            ] + payload));
            let p = PartitionSpecView {
                name,
                attrs: attributes(attrs, true)->Ok_0,
                group,
                device: None,
                payload: None,
                payload_len: 0,
            };
            &&& partition_spec(bare) == Ok::<PartitionSpecView, Error>(p)
            &&& partition_spec(pinned) == Ok::<PartitionSpecView, Error>(
                PartitionSpecView { device: Some(device), ..p },
            )
            &&& partition_spec(full) == Ok::<PartitionSpecView, Error>(
                PartitionSpecView { device: Some(device), payload: Some(payload), ..p },
            )
        }),
{
    law_trimmed_stays(name);
    law_trimmed_stays(attrs);
    law_trimmed_stays(group);
    law_trimmed_stays(device);
    law_trimmed_stays(payload);
    let place = group + seq!['@'] + device;
    assert(place[0] == group[0] && place.last() == device.last());
    law_trimmed_stays(place);
    assert(!place.contains(':')) by {
        if place.contains(':') {
            let i = place.index_of(':');
            if i < group.len() {
                assert(group[i] == ':');
                assert(group.contains(':'));
            } else if i > group.len() {
                assert(device[i - group.len() - 1] == ':');
                assert(device.contains(':'));
            }
        }
    }
    lemma_first_sep(group, '@', device);
    assert(place.take(group.len() as int) =~= group);
    assert(place.skip(group.len() as int + 1) =~= device);
    lemma_split_first(name, ':', attrs + seq![':'] + group, 4);
    lemma_split_first(attrs, ':', group, 3);
    lemma_split_none(group, ':', 2);
    let bare = split_limit(name + seq![':'] + (attrs + seq![':'] + group), ':', 4);
    assert(bare =~= seq![name, attrs, group]);
    lemma_split_first(name, ':', attrs + seq![':'] + place, 4);
    lemma_split_first(attrs, ':', place, 3);
    lemma_split_none(place, ':', 2);
    let pinned = split_limit(name + seq![':'] + (attrs + seq![':'] + place), ':', 4);
    assert(pinned =~= seq![name, attrs, place]);
    lemma_split_first(name, ':', attrs + seq![':'] + (place + seq![':'] + payload), 4);
    lemma_split_first(attrs, ':', place + seq![':'] + payload, 3);
    lemma_split_first(place, ':', payload, 2);
    lemma_split_none(payload, ':', 1);
    let full = split_limit(
        name + seq![':'] + (attrs + seq![':'] + (place + seq![':'] + payload)),
        ':',
        4,
    );
    assert(full =~= seq![name, attrs, place, payload]);
}

/// The slots that are made are slots of the image, in order: the one that was chosen,
/// or all of them.
pub proof fn law_chosen_slots(s: Seq<char>, count: u32)
    ensures
        chosen_slots(s, count) matches Ok(slots) ==> {
            &&& forall|k: int| 0 <= k < slots.len() ==> #[trigger] slots[k] < count
            &&& forall|j: int, k: int|
                0 <= j < k < slots.len() ==> #[trigger] slots[j] < #[trigger] slots[k]
            &&& match slot_selector(trimmed(s)) {
                Ok(Some(n)) => slots == seq![n],
                _ => slots.len() == count,
            }
        },
        chosen_slots(s, count) is Err ==> slot_selector(trimmed(s)) is Err || (slot_selector(
            trimmed(s),
        ) matches Ok(Some(n)) && n >= count),
{
}

proof fn lemma_devices_from(
    specs: Seq<Seq<char>>,
    usual: u32,
    i: int,
    done: Seq<DeviceSpecView>,
)
    requires
        0 <= i == done.len() <= specs.len(),
        forall|k: int|
            0 <= k < i ==> device_spec(#[trigger] specs[k], usual) == Ok::<DeviceSpecView, Error>(
                done[k],
            ),
    ensures
        match devices_from(specs, usual, i, done) {
            Ok(all) => all.len() == specs.len() && forall|k: int|
                0 <= k < specs.len() ==> device_spec(#[trigger] specs[k], usual) == Ok::<
                    DeviceSpecView,
                    Error,
                >(all[k]),
            Err(_) => exists|k: int|
                0 <= k < specs.len() && device_spec(#[trigger] specs[k], usual) is Err,
        },
    decreases specs.len() - i,
{
    if i < specs.len() {
        if let Ok(d) = device_spec(specs[i], usual) {
            let next = done.push(d);
            assert forall|k: int| 0 <= k < i + 1 implies device_spec(#[trigger] specs[k], usual)
                == Ok::<DeviceSpecView, Error>(next[k]) by {
                if k < i {
                    assert(next[k] == done[k]);
                }
            }
            lemma_devices_from(specs, usual, i + 1, next);
        }
    }
}

proof fn lemma_groups_from(specs: Seq<Seq<char>>, i: int, done: Seq<GroupView>)
    requires
        0 <= i == done.len() <= specs.len(),
        forall|k: int|
            0 <= k < i ==> group_spec(#[trigger] specs[k]) == Ok::<GroupView, Error>(done[k]),
    ensures
        match groups_from(specs, i, done) {
            Ok(all) => all.len() == specs.len() && forall|k: int|
                0 <= k < specs.len() ==> group_spec(#[trigger] specs[k]) == Ok::<GroupView, Error>(
                    all[k],
                ),
            Err(_) => exists|k: int|
                0 <= k < specs.len() && group_spec(#[trigger] specs[k]) is Err,
        },
    decreases specs.len() - i,
{
    if i < specs.len() {
        if let Ok(g) = group_spec(specs[i]) {
            let next = done.push(g);
            assert forall|k: int| 0 <= k < i + 1 implies group_spec(#[trigger] specs[k]) == Ok::<
                GroupView,
                Error,
            >(next[k]) by {
                if k < i {
                    assert(next[k] == done[k]);
                }
            }
            lemma_groups_from(specs, i + 1, next);
        }
    }
}

/// A name is found to repeat exactly where it occurred before, and the first such is.
pub proof fn law_first_repeat(names: Seq<Seq<char>>, i: int)
    requires
        0 <= i <= names.len(),
    ensures
        match first_repeat(names, i) {
            Some(k) => i <= k < names.len() && names.take(k).contains(names[k]),
            None => forall|j: int, k: int|
                0 <= j < k < names.len() && i <= k ==> #[trigger] names[j] != #[trigger] names[k],
        },
    decreases names.len() - i,
{
    if i < names.len() {
        law_first_repeat(names, i + 1);
        if first_repeat(names, i) is None {
            assert forall|j: int, k: int| 0 <= j < k < names.len() && i <= k implies #[trigger] names[j]
                != #[trigger] names[k] by {
                if k == i && names[j] == names[k] {
                    assert(names.take(i)[j] == names[i]);
                    assert(names.take(i).contains(names[i]));
                }
            }
        }
    }
}

/// The settings of an image are those asked for: its devices and groups are those of
/// the specifications, in order, with no device name twice, and its metadata size,
/// slots and block size are in bounds.
pub proof fn law_settings(args: MakeArgs)
    ensures
        settings_of(args) matches Ok(s) ==> {
            &&& 1 <= args.metadata_slots <= 8
            &&& args.block_size == 512 || args.block_size == 4096
            &&& size_value(args.metadata_size@, false) == Ok::<u64, Error>(
                s.metadata_max_size as u64,
            )
            &&& 0 < s.metadata_max_size <= 16_777_216
            &&& size_value(args.alignment@, false) == Ok::<u64, Error>(s.default_alignment as u64)
            &&& chosen_slots(args.slot@, args.metadata_slots) == Ok::<Seq<u64>, Error>(s.slots)
            &&& s.devices.len() == args.device@.len() > 0
            &&& forall|k: int|
                0 <= k < s.devices.len() ==> device_spec(
                    texts(args.device@)[k],
                    s.default_alignment,
                ) == Ok::<DeviceSpecView, Error>(#[trigger] s.devices[k])
            &&& forall|j: int, k: int|
                0 <= j < k < s.devices.len() ==> (#[trigger] s.devices[j]).name != (
                #[trigger] s.devices[k]).name
            &&& s.groups.len() == args.group@.len()
            &&& forall|k: int|
                0 <= k < s.groups.len() ==> group_spec(texts(args.group@)[k]) == Ok::<
                    GroupView,
                    Error,
                >(#[trigger] s.groups[k])
        },
{
    if let Ok(s) = settings_of(args) {
        lemma_devices_from(texts(args.device@), s.default_alignment, 0, Seq::empty());
        lemma_groups_from(texts(args.group@), 0, Seq::empty());
        let names = device_names(s.devices);
        law_first_repeat(names, 0);
        assert forall|k: int| 0 <= k < s.devices.len() implies device_spec(
            texts(args.device@)[k],
            s.default_alignment,
        ) == Ok::<DeviceSpecView, Error>(#[trigger] s.devices[k]) by {
            let t = texts(args.device@)[k];
        }
        assert forall|k: int| 0 <= k < s.groups.len() implies group_spec(texts(args.group@)[k])
            == Ok::<GroupView, Error>(#[trigger] s.groups[k]) by {
            let t = texts(args.group@)[k];
        }
        assert forall|j: int, k: int| 0 <= j < k < s.devices.len() implies (
        #[trigger] s.devices[j]).name != (#[trigger] s.devices[k]).name by {
            assert(names[j] != names[k]);
        }
    }
}

/// What is set aside for metadata holds it, in whole units of the alignment and not one
/// more than it takes. Data starts at the sector that this reaches, or behind the
/// metadata where that would lie in it.
pub proof fn law_reserved(max: u32, count: u32, default_alignment: u32)
    requires
        max <= 16_777_216,
        count <= 8,
    ensures
        ({
            let unit = reserve_unit(default_alignment);
            let end = 0x3000 + 2 * (count * max);
            let reserved = reserved_bytes(max, count, default_alignment);
            let start = data_start(max, count, default_alignment);
            &&& unit >= 512 && unit >= default_alignment
            &&& unit == 512 || unit == default_alignment
            &&& metadata_end(max, count) == end
            &&& end <= reserved < end + unit
            &&& reserved % unit == 0
            &&& end <= start * 512
            &&& start * 512 <= reserved || start * 512 < end + 512
            &&& reserved < (start + 1) * 512
        }),
{
    let unit = reserve_unit(default_alignment);
    let area = 2 * (count * max);
    assert(2 * count * max == area) by (nonlinear_arith)
        requires
            area == 2 * (count * max),
    ;
    assert(0 <= count * max) by (nonlinear_arith)
        requires
            0 <= count,
            0 <= max,
    ;
    let end = metadata_end(max, count);
    lemma_rounded(end, unit);
    let k = (end + unit - 1) / unit;
    assert(reserved_bytes(max, count, default_alignment) == k * unit);
    vstd::arithmetic::div_mod::lemma_mod_multiples_basic(k, unit);
}

proof fn lemma_sizes(devices: Seq<DeviceSpecView>, reserved: u64, i: int)
    requires
        0 <= i <= devices.len(),
    ensures
        size_fault(devices, reserved, i) is None <==> forall|k: int|
            i <= k < devices.len() ==> (#[trigger] devices[k]).size >= reserved + 512
                && devices[k].size % 512 == 0,
    decreases devices.len() - i,
{
    if i < devices.len() {
        lemma_sizes(devices, reserved, i + 1);
    }
}

proof fn lemma_table(
    devices: Seq<DeviceSpecView>,
    start: u64,
    i: int,
    done: Seq<BlockDeviceView>,
)
    requires
        0 <= i == done.len() <= devices.len(),
        forall|k: int| 0 <= k < i ==> entry_of(devices[k], start, #[trigger] done[k]),
    ensures
        match table_from(devices, start, i, done) {
            Ok(all) => all.len() == devices.len() && forall|k: int|
                0 <= k < devices.len() ==> entry_of(devices[k], start, #[trigger] all[k]),
            Err(_) => exists|k: int|
                0 <= k < devices.len() && align_to(
                    start,
                    (#[trigger] devices[k]).alignment,
                    devices[k].alignment_offset,
                ) is None,
        },
    decreases devices.len() - i,
{
    if i < devices.len() {
        let d = devices[i];
        lemma_align_to(start, d.alignment, d.alignment_offset);
        if let Some(first) = align_to(start, d.alignment, d.alignment_offset) {
            let e = BlockDeviceView {
                first_logical_sector: first,
                alignment: d.alignment,
                alignment_offset: d.alignment_offset,
                size: d.size,
                partition_name: d.name,
            };
            let next = done.push(e);
            assert forall|k: int| 0 <= k < i + 1 implies entry_of(
                devices[k],
                start,
                #[trigger] next[k],
            ) by {
                if k < i {
                    assert(next[k] == done[k]);
                }
            }
            lemma_table(devices, start, i + 1, next);
        }
    }
}

/// Whether an entry of the device table is that of a device: its name, size and
/// alignment, and as its first sector the first aligned one from `start` on.
pub open spec fn entry_of(d: DeviceSpecView, start: u64, e: BlockDeviceView) -> bool {
    &&& e.partition_name == d.name
    &&& e.size == d.size
    &&& e.alignment == d.alignment
    &&& e.alignment_offset == d.alignment_offset
    &&& is_next_aligned(
        e.first_logical_sector as int,
        start as int,
        d.alignment,
        d.alignment_offset,
    )
}

/// The device table has an entry for each device, in order, as it was specified. It is
/// refused only for a device that is too small or not made of whole sectors, or whose
/// alignment leads out of the 64-bit range.
pub proof fn law_device_table(devices: Seq<DeviceSpecView>, reserved: u64, start: u64)
    ensures
        match device_table(devices, reserved, start) {
            Ok(all) => {
                &&& all.len() == devices.len()
                &&& forall|k: int|
                    0 <= k < devices.len() ==> entry_of(devices[k], start, #[trigger] all[k])
                &&& forall|k: int|
                    0 <= k < devices.len() ==> (#[trigger] devices[k]).size >= reserved + 512
                        && devices[k].size % 512 == 0
            },
            Err(_) => exists|k: int|
                0 <= k < devices.len() && ((#[trigger] devices[k]).size < reserved + 512
                    || devices[k].size % 512 != 0 || align_to(
                    start,
                    devices[k].alignment,
                    devices[k].alignment_offset,
                ) is None),
        },
{
    lemma_sizes(devices, reserved, 0);
    lemma_table(devices, start, 0, Seq::empty());
}

/// Whether a partition was put where its specification says: into the first group of
/// that name, and onto the device that it is pinned to.
pub open spec fn put_as_told(
    devices: Seq<BlockDeviceView>,
    groups: Seq<GroupView>,
    b: MakeTablesView,
    spec: PartitionSpecView,
    i: int,
) -> bool {
    let p = b.partitions[i];
    &&& p.name == spec.name
    &&& p.attributes == spec.attrs
    &&& first_group(groups, spec.group, p.group_index as int)
    &&& p.first_extent_index + p.num_extents <= b.extents.len()
    &&& spec.device matches Some(n) ==> p.num_extents <= 1 && forall|k: int|
        p.first_extent_index <= k < p.first_extent_index + p.num_extents ==> {
            let e = #[trigger] b.extents[k];
            &&& e.target_source < devices.len()
            &&& devices[e.target_source as int].partition_name == n
        }
}

proof fn lemma_put(
    devices: Seq<BlockDeviceView>,
    groups: Seq<GroupView>,
    force: bool,
    specs: Seq<PartitionSpecView>,
    i: int,
    b: MakeTablesView,
)
    requires
        devices.len() <= u32::MAX,
        groups.len() <= u32::MAX,
        0 <= i == b.partitions.len() <= specs.len(),
        forall|j: int| 0 <= j < i ==> put_as_told(devices, groups, b, #[trigger] specs[j], j),
        tables_from(devices, groups, force, specs, i, b) matches Ok(r) && r.extents.len()
            <= u32::MAX,
    ensures
        ({
            let r = tables_from(devices, groups, force, specs, i, b)->Ok_0;
            &&& r.partitions.len() == specs.len()
            &&& forall|j: int|
                0 <= j < specs.len() ==> put_as_told(devices, groups, r, #[trigger] specs[j], j)
        }),
    decreases specs.len() - i,
{
    if i < specs.len() {
        let spec = specs[i];
        let next = with_partition(devices, groups, force, b, spec)->Ok_0;
        lemma_tables_grow(devices, groups, force, specs, i + 1, next);
        law_group_named(groups, spec.group, 0);
        if let Some(n) = spec.device {
            law_device_named(devices, n, 0);
        }
        let at = b.extents.len() as int;
        assert forall|j: int| 0 <= j < i + 1 implies put_as_told(
            devices,
            groups,
            next,
            #[trigger] specs[j],
            j,
        ) by {
            if j < i {
                assert(put_as_told(devices, groups, b, specs[j], j));
                let p = b.partitions[j];
                assert(next.partitions[j] == p);
                assert forall|k: int|
                    p.first_extent_index <= k < p.first_extent_index + p.num_extents implies (
                #[trigger] next.extents[k]) == b.extents[k] by {}
            } else {
                let p = next.partitions[i];
                if spec.payload is Some && spec.payload_len > 0 {
                    if let Some(n) = spec.device {
                        let pin = pin_of(devices, spec.device)->Ok_0;
                        let needed = crate::commands::commit::in_sectors(spec.payload_len);
                        let plan = payload_plan(b.extents, devices, pin, needed)->Ok_0;
                        assert(plan.len() == 1);
                        assert(next.extents[at] == extents_of(plan)[0]);
                    }
                }
            }
        }
        lemma_put(devices, groups, force, specs, i + 1, next);
    }
}

/// Every partition of a new image is the one of its specification: its name and its
/// attributes, in the group that was named, and on the device that it was pinned to.
pub proof fn law_made_as_told(
    devices: Seq<BlockDeviceView>,
    groups: Seq<GroupView>,
    force: bool,
    specs: Seq<PartitionSpecView>,
)
    requires
        devices.len() <= u32::MAX,
        groups.len() <= u32::MAX,
        tables_from(
            devices,
            groups,
            force,
            specs,
            0,
            no_tables(groups.len()),
        ) matches Ok(b) && b.extents.len() <= u32::MAX,
    ensures
        ({
            let b = tables_from(devices, groups, force, specs, 0, no_tables(groups.len()))->Ok_0;
            &&& b.partitions.len() == specs.len()
            &&& forall|j: int|
                0 <= j < specs.len() ==> put_as_told(devices, groups, b, #[trigger] specs[j], j)
        }),
{
    lemma_put(devices, groups, force, specs, 0, no_tables(groups.len()));
}

/// A plan has the devices, the partitions and the outputs of the request; no two
/// partitions have one name, and several devices go to several outputs.
pub proof fn law_plan(args: MakeArgs, s: SettingsView, specs: Seq<PartitionSpecView>)
    requires
        s.devices.len() <= u32::MAX,
        s.groups.len() <= u32::MAX,
        s.metadata_max_size <= 16_777_216,
        args.metadata_slots <= 8,
        plan_of(args, s, specs) matches Ok(plan) && plan.tables.extents.len() <= u32::MAX,
    ensures
        ({
            let plan = plan_of(args, s, specs)->Ok_0;
            let start = data_start(
                s.metadata_max_size,
                args.metadata_slots,
                s.default_alignment,
            ) as u64;
            &&& s.devices.len() > 1 ==> args.retrofit
            &&& plan.devices.len() == s.devices.len()
            &&& forall|k: int|
                0 <= k < s.devices.len() ==> entry_of(s.devices[k], start, #[trigger] plan.devices[k])
            &&& plan.outputs.len() == s.devices.len()
            &&& plan.tables.partitions.len() == specs.len()
            &&& forall|j: int|
                0 <= j < specs.len() ==> put_as_told(
                    plan.devices,
                    s.groups,
                    plan.tables,
                    #[trigger] specs[j],
                    j,
                )
            &&& forall|j: int, k: int|
                0 <= j < k < specs.len() ==> (#[trigger] specs[j]).name != (
                #[trigger] specs[k]).name
        }),
{
    let plan = plan_of(args, s, specs)->Ok_0;
    let names = partition_names(specs);
    law_first_repeat(names, 0);
    law_device_table(
        s.devices,
        reserved_bytes(s.metadata_max_size, args.metadata_slots, s.default_alignment) as u64,
        data_start(s.metadata_max_size, args.metadata_slots, s.default_alignment) as u64,
    );
    law_made_as_told(plan.devices, s.groups, args.force, specs);
    assert forall|j: int, k: int| 0 <= j < k < specs.len() implies (#[trigger] specs[j]).name != (
    #[trigger] specs[k]).name by {
        assert(names[j] != names[k]);
    }
}

/// A path that a device is mapped to is that of the first mapping with its name.
pub proof fn law_mapped_path(maps: Seq<(Seq<char>, Seq<char>)>, name: Seq<char>, k: int)
    requires
        0 <= k <= maps.len(),
    ensures
        match mapped_path(maps, name, k) {
            Some(p) => exists|m: int| k <= m < maps.len() && #[trigger] maps[m] == (name, p),
            None => forall|m: int| k <= m < maps.len() ==> (#[trigger] maps[m]).0 != name,
        },
    decreases maps.len() - k,
{
    if k < maps.len() {
        if maps[k].0 == name {
            assert(maps[k] == (name, maps[k].1));
        } else {
            law_mapped_path(maps, name, k + 1);
        }
    }
}

/// A mapping `name=path` maps that device to that path.
pub proof fn law_output_mapping(name: Seq<char>, path: Seq<char>)
    requires
        plain_part(name, '='),
        name.len() > 0 && path.len() > 0,
        !is_white(path[0]) && !is_white(path.last()),
    ensures
        output_mapping(name + seq!['='] + path) == Some((name, path)),
{
    let s = name + seq!['='] + path;
    lemma_first_sep(name, '=', path);
    law_trimmed_stays(name);
    law_trimmed_stays(path);
    assert(s.take(name.len() as int) =~= name);
    assert(s.skip(name.len() as int + 1) =~= path);
}

proof fn lemma_mappings(
    specs: Seq<Seq<char>>,
    names: Seq<Seq<char>>,
    i: int,
    done: Seq<(Seq<char>, Seq<char>)>,
)
    requires
        0 <= i == done.len() <= specs.len(),
        forall|k: int| 0 <= k < i ==> output_mapping(#[trigger] specs[k]) == Some(done[k]),
        forall|k: int| 0 <= k < i ==> names.contains((#[trigger] done[k]).0),
        forall|j: int, k: int|
            0 <= j < k < i ==> (#[trigger] done[j]).0 != (#[trigger] done[k]).0,
    ensures
        mappings_from(specs, names, i, done) matches Ok(maps) ==> {
            &&& maps.len() == specs.len()
            &&& forall|k: int|
                0 <= k < specs.len() ==> output_mapping(#[trigger] specs[k]) == Some(maps[k])
            &&& forall|k: int| 0 <= k < maps.len() ==> names.contains((#[trigger] maps[k]).0)
            &&& forall|j: int, k: int|
                0 <= j < k < maps.len() ==> (#[trigger] maps[j]).0 != (#[trigger] maps[k]).0
        },
    decreases specs.len() - i,
{
    if i < specs.len() {
        if let Some((name, path)) = output_mapping(specs[i]) {
            law_mapped_path(done, name, 0);
            if names.contains(name) && mapped_path(done, name, 0) is None {
                let next = done.push((name, path));
                assert forall|k: int| 0 <= k < i + 1 implies output_mapping(#[trigger] specs[k])
                    == Some(next[k]) by {
                    if k < i {
                        assert(next[k] == done[k]);
                    }
                }
                assert forall|k: int| 0 <= k < i + 1 implies names.contains(
                    (#[trigger] next[k]).0,
                ) by {
                    if k < i {
                        assert(next[k] == done[k]);
                    }
                }
                lemma_mappings(specs, names, i + 1, next);
            }
        }
    }
}

/// The output of a device is the path that it was mapped to. One that was not mapped
/// goes to the output path, with its own name in it where each device has an output of
/// its own. A mapping names a device of the image, and no device twice.
pub proof fn law_outputs(args: MakeArgs, devices: Seq<DeviceSpecView>)
    ensures
        outputs_of(args, devices) matches Ok(outputs) ==> {
            let maps = texts(args.output_map@);
            &&& outputs.len() == devices.len()
            &&& forall|m: int|
                0 <= m < maps.len() ==> (output_mapping(#[trigger] maps[m]) matches Some(
                    (name, path),
                ) && exists|k: int|
                    0 <= k < devices.len() && (#[trigger] devices[k]).name == name && outputs[k]
                        == path)
            &&& forall|k: int|
                0 <= k < devices.len() && (forall|m: int|
                    0 <= m < maps.len() ==> (output_mapping(#[trigger] maps[m]) matches Some(
                        (name, path),
                    ) && name != devices[k].name)) ==> #[trigger] outputs[k] == (if args.retrofit
                    || devices.len() > 1 {
                    args.output@ + seq!['_'] + devices[k].name + seq!['.', 'i', 'm', 'g']
                } else {
                    args.output@
                })
        },
{
    let specs = texts(args.output_map@);
    let names = device_names(devices);
    let none = Seq::<(Seq<char>, Seq<char>)>::empty();
    reveal_strlit("_");
    reveal_strlit(".img");
    assert("_"@ =~= seq!['_']);
    assert(".img"@ =~= seq!['.', 'i', 'm', 'g']);
    lemma_mappings(specs, names, 0, none);
    if let Ok(outputs) = outputs_of(args, devices) {
        let maps = mappings_from(specs, names, 0, none)->Ok_0;
        let split = args.retrofit || devices.len() > 1;
        assert forall|m: int| 0 <= m < specs.len() implies (output_mapping(
            #[trigger] specs[m],
        ) matches Some((name, path)) && exists|k: int|
            0 <= k < devices.len() && (#[trigger] devices[k]).name == name && outputs[k]
                == path) by {
            let (name, path) = maps[m];
            assert(names.contains(maps[m].0));
            let k = names.index_of(name);
            assert(names[k] == devices[k].name);
            law_mapped_path(maps, name, 0);
            let p = mapped_path(maps, name, 0)->Some_0;
            assert(maps[m].0 == name);
            let x = choose|x: int| 0 <= x < maps.len() && #[trigger] maps[x] == (name, p);
            if x < m {
                assert(maps[x].0 != maps[m].0);
            }
            if m < x {
                assert(maps[m].0 != maps[x].0);
            }
            assert(outputs[k] == output_of(args.output@, split, maps, names[k]));
        }
        assert forall|k: int|
            0 <= k < devices.len() && (forall|m: int|
                0 <= m < specs.len() ==> (output_mapping(#[trigger] specs[m]) matches Some(
                    (name, path),
                ) && name != devices[k].name)) implies #[trigger] outputs[k] == (if args.retrofit
            || devices.len() > 1 {
            args.output@ + seq!['_'] + devices[k].name + seq!['.', 'i', 'm', 'g']
        } else {
            args.output@
        }) by {
            law_mapped_path(maps, devices[k].name, 0);
            if mapped_path(maps, devices[k].name, 0) is Some {
                let p = mapped_path(maps, devices[k].name, 0)->Some_0;
                let x = choose|x: int|
                    0 <= x < maps.len() && #[trigger] maps[x] == (devices[k].name, p);
                assert(output_mapping(specs[x]) == Some(maps[x]));
            }
            assert(names[k] == devices[k].name);
        }
    }
}

/// Outputs that are block devices pass where none is asked to hold a sparse container
/// and each has exactly the size of its device; nothing is asked of other outputs.
pub proof fn law_block_fault(
    devices: Seq<BlockDeviceView>,
    probed: Seq<Option<u64>>,
    sparse: bool,
    i: int,
)
    requires
        0 <= i <= devices.len() == probed.len(),
    ensures
        block_fault(devices, probed, sparse, i) is None <==> forall|k: int|
            i <= k < devices.len() && (#[trigger] probed[k]) is Some ==> !sparse && probed[k]
                == Some(devices[k].size),
    decreases devices.len() - i,
{
    if i < devices.len() {
        law_block_fault(devices, probed, sparse, i + 1);
    }
}

/// A slot goes to its own two places: its primary copy among the primary copies, its
/// backup copy behind all of those.
pub proof fn law_place_of(slot: u64, max: u32, count: u32)
    requires
        max <= 16_777_216,
        slot < count <= 8,
    ensures
        ({
            let p = place_of(slot, max, count);
            &&& p.slot == slot
            &&& p.primary == 0x3000 + slot * max
            &&& p.backup == 0x3000 + (count + slot) * max
            &&& p.primary + max <= 0x3000 + count * max <= p.backup
            &&& p.backup + max <= 0x3000 + 2 * (count * max)
        }),
{
    assert(0 <= slot * max && slot * max + max <= count * max && count * max <= (count + slot)
        * max && (count + slot) * max + max <= 2 * (count * max) && 2 * (count * max) <= 16
        * 16_777_216) by (nonlinear_arith)
        requires
            0 <= slot < count <= 8,
            0 <= max <= 16_777_216,
    ;
}

/// Settings are owed: they are refused only for a request without devices, for numbers
/// out of bounds or that cannot be read, for a slot that the image has not, or for a
/// specification that is at fault or names a device twice.
pub proof fn law_settings_owed(args: MakeArgs)
    requires
        args.device@.len() > 0,
        1 <= args.metadata_slots <= 8,
        args.block_size == 512 || args.block_size == 4096,
        size_value(args.metadata_size@, false) matches Ok(n) && 0 < n <= 16_777_216,
        size_value(args.alignment@, false) matches Ok(n) && n <= u32::MAX,
        slot_selector(trimmed(args.slot@)) matches Ok(s) && (s matches Some(n) ==> n
            < args.metadata_slots),
        forall|k: int|
            0 <= k < args.device@.len() ==> device_spec(
                #[trigger] texts(args.device@)[k],
                size_value(args.alignment@, false)->Ok_0 as u32,
            ) is Ok,
        forall|k: int|
            0 <= k < args.group@.len() ==> group_spec(#[trigger] texts(args.group@)[k]) is Ok,
    ensures
        settings_of(args) is Ok || exists|j: int, k: int|
            #![trigger texts(args.device@)[j], texts(args.device@)[k]]
            {
                let usual = size_value(args.alignment@, false)->Ok_0 as u32;
                &&& 0 <= j < k < args.device@.len()
                &&& device_spec(texts(args.device@)[j], usual)->Ok_0.name == device_spec(
                    texts(args.device@)[k],
                    usual,
                )->Ok_0.name
            },
{
    let usual = size_value(args.alignment@, false)->Ok_0 as u32;
    let specs = texts(args.device@);
    lemma_devices_from(specs, usual, 0, Seq::empty());
    lemma_groups_from(texts(args.group@), 0, Seq::empty());
    if let Ok(devices) = devices_from(specs, usual, 0, Seq::empty()) {
        let names = device_names(devices);
        law_first_repeat(names, 0);
        if let Some(k) = first_repeat(names, 0) {
            let j = names.take(k).index_of(names[k]);
            assert(names.take(k)[j] == names[k]);
            assert(names[j] == names[k]);
            assert(device_spec(specs[j], usual) == Ok::<DeviceSpecView, Error>(devices[j]));
            assert(device_spec(specs[k], usual) == Ok::<DeviceSpecView, Error>(devices[k]));
        }
    }
}

proof fn lemma_mappings_owed(
    specs: Seq<Seq<char>>,
    names: Seq<Seq<char>>,
    i: int,
    done: Seq<(Seq<char>, Seq<char>)>,
)
    requires
        0 <= i == done.len() <= specs.len(),
        forall|k: int| 0 <= k < i ==> output_mapping(#[trigger] specs[k]) == Some(done[k]),
        forall|k: int|
            0 <= k < specs.len() ==> (output_mapping(#[trigger] specs[k]) matches Some((n, _))
                && names.contains(n)),
        forall|j: int, k: int|
            0 <= j < k < specs.len() ==> output_mapping(#[trigger] specs[j])->Some_0.0
                != output_mapping(#[trigger] specs[k])->Some_0.0,
    ensures
        mappings_from(specs, names, i, done) is Ok,
    decreases specs.len() - i,
{
    if i < specs.len() {
        let (name, path) = output_mapping(specs[i])->Some_0;
        law_mapped_path(done, name, 0);
        if mapped_path(done, name, 0) is Some {
            let p = mapped_path(done, name, 0)->Some_0;
            let m = choose|m: int| 0 <= m < done.len() && #[trigger] done[m] == (name, p);
            assert(output_mapping(specs[m])->Some_0.0 == name);
            assert(output_mapping(specs[m])->Some_0.0 != output_mapping(specs[i])->Some_0.0);
        }
        let next = done.push((name, path));
        assert forall|k: int| 0 <= k < i + 1 implies output_mapping(#[trigger] specs[k]) == Some(
            next[k],
        ) by {
            if k < i {
                assert(next[k] == done[k]);
            }
        }
        lemma_mappings_owed(specs, names, i + 1, next);
    }
}

/// Outputs are owed wherever every mapping names a device of the image, and no two the
/// same.
pub proof fn law_outputs_owed(args: MakeArgs, devices: Seq<DeviceSpecView>)
    requires
        forall|k: int|
            0 <= k < args.output_map@.len() ==> (output_mapping(
                #[trigger] texts(args.output_map@)[k],
            ) matches Some((n, _)) && device_names(devices).contains(n)),
        forall|j: int, k: int|
            0 <= j < k < args.output_map@.len() ==> output_mapping(
                #[trigger] texts(args.output_map@)[j],
            )->Some_0.0 != output_mapping(#[trigger] texts(args.output_map@)[k])->Some_0.0,
    ensures
        outputs_of(args, devices) is Ok,
{
    lemma_mappings_owed(texts(args.output_map@), device_names(devices), 0, Seq::empty());
}

/// A partition of a new image is refused only for a group or a device that is missing,
/// for a group without room, or for want of a place.
pub proof fn law_partition_refused(
    devices: Seq<BlockDeviceView>,
    groups: Seq<GroupView>,
    force: bool,
    b: MakeTablesView,
    p: PartitionSpecView,
)
    requires
        devices.len() <= u32::MAX,
        with_partition(devices, groups, force, b, p) is Err,
    ensures
        ({
            ||| forall|j: int| 0 <= j < groups.len() ==> (#[trigger] groups[j]).name != p.group
            ||| p.device matches Some(n) && forall|j: int|
                0 <= j < devices.len() ==> (#[trigger] devices[j]).partition_name != n
            ||| p.payload is Some && p.payload_len > 0 && !force && exists|g: int, n: u64|
                #![trigger first_group(groups, p.group, g), sectors_hold(n, p.payload_len)]
                first_group(groups, p.group, g) && sectors_hold(n, p.payload_len)
                    && groups[g].maximum_size > 0 && 512 * (b.used[g] + n) > groups[g].maximum_size
            ||| p.payload is Some && p.payload_len > 0 && exists|n: u64, pin: Option<u32>|
                #![trigger sectors_hold(n, p.payload_len), payload_plan(b.extents, devices, pin, n)]
                sectors_hold(n, p.payload_len) && (pin is Some <==> p.device is Some)
                    && payload_plan(b.extents, devices, pin, n) is Err
        }),
{
    law_group_named(groups, p.group, 0);
    if let Some(n) = p.device {
        law_device_named(devices, n, 0);
    }
    let n = crate::commands::commit::in_sectors(p.payload_len);
    assert(sectors_hold(n, p.payload_len));
    if let Some(g) = group_named(groups, p.group, 0) {
        assert(first_group(groups, p.group, g));
        if let Ok(pin) = pin_of(devices, p.device) {
            if p.payload is Some && p.payload_len > 0 {
                let plan = payload_plan(b.extents, devices, pin, n);
            }
        }
    }
}

/// When a plan is refused: for a name that repeats, for several devices without separate
/// outputs, for a device table or outputs that are at fault, or for a partition that has
/// no place.
pub proof fn law_plan_refused(args: MakeArgs, s: SettingsView, specs: Seq<PartitionSpecView>)
    requires
        plan_of(args, s, specs) is Err,
        s.devices.len() > 1 ==> args.retrofit,
        forall|j: int, k: int|
            0 <= j < k < specs.len() ==> (#[trigger] specs[j]).name != (#[trigger] specs[k]).name,
        outputs_of(args, s.devices) is Ok,
    ensures
        ({
            let reserved = reserved_bytes(
                s.metadata_max_size,
                args.metadata_slots,
                s.default_alignment,
            ) as u64;
            let start = data_start(
                s.metadata_max_size,
                args.metadata_slots,
                s.default_alignment,
            ) as u64;
            let table = device_table(s.devices, reserved, start);
            table is Err || tables_from(
                table->Ok_0,
                s.groups,
                args.force,
                specs,
                0,
                no_tables(s.groups.len()),
            ) is Err
        }),
{
    let names = partition_names(specs);
    law_first_repeat(names, 0);
    if let Some(k) = first_repeat(names, 0) {
        let j = names.take(k).index_of(names[k]);
        assert(names.take(k)[j] == names[k]);
        assert(specs[j].name == specs[k].name);
    }
}

proof fn lemma_device_fault(
    specs: Seq<Seq<char>>,
    usual: u32,
    i: int,
    done: Seq<DeviceSpecView>,
)
    requires
        0 <= i <= specs.len() <= usize::MAX,
    ensures
        devices_from(specs, usual, i, done) matches Err(e) ==> (e matches MakeError::Device {
            item,
            error,
        } && i <= item < specs.len() && device_spec(specs[item as int], usual) == Err::<
            DeviceSpecView,
            Error,
        >(error) && forall|k: int|
            i <= k < item ==> device_spec(#[trigger] specs[k], usual) is Ok),
    decreases specs.len() - i,
{
    if i < specs.len() {
        if let Ok(d) = device_spec(specs[i], usual) {
            lemma_device_fault(specs, usual, i + 1, done.push(d));
        }
    }
}

proof fn lemma_group_fault(specs: Seq<Seq<char>>, i: int, done: Seq<GroupView>)
    requires
        0 <= i <= specs.len() <= usize::MAX,
    ensures
        groups_from(specs, i, done) matches Err(e) ==> (e matches MakeError::Group { item, error }
            && i <= item < specs.len() && group_spec(specs[item as int]) == Err::<GroupView, Error>(
            error,
        ) && forall|k: int| i <= k < item ==> group_spec(#[trigger] specs[k]) is Ok),
    decreases specs.len() - i,
{
    if i < specs.len() {
        if let Ok(g) = group_spec(specs[i]) {
            lemma_group_fault(specs, i + 1, done.push(g));
        }
    }
}

/// A specification that is at fault is told by its place, the first one first, with what
/// is wrong with it.
pub proof fn law_faults_told(
    devices: Seq<Seq<char>>,
    groups: Seq<Seq<char>>,
    usual: u32,
)
    requires
        devices.len() <= usize::MAX,
        groups.len() <= usize::MAX,
    ensures
        devices_from(devices, usual, 0, Seq::empty()) matches Err(e) ==> (
        e matches MakeError::Device { item, error } && item < devices.len() && device_spec(
            devices[item as int],
            usual,
        ) == Err::<DeviceSpecView, Error>(error) && forall|k: int|
            0 <= k < item ==> device_spec(#[trigger] devices[k], usual) is Ok),
        groups_from(groups, 0, Seq::empty()) matches Err(e) ==> (e matches MakeError::Group {
            item,
            error,
        } && item < groups.len() && group_spec(groups[item as int]) == Err::<GroupView, Error>(
            error,
        ) && forall|k: int| 0 <= k < item ==> group_spec(#[trigger] groups[k]) is Ok),
{
    lemma_device_fault(devices, usual, 0, Seq::empty());
    lemma_group_fault(groups, 0, Seq::empty());
}

/// A partition that cannot be made is told by its place: all before it could be made, and
/// it fails for what is told.
pub proof fn law_partition_fault(
    devices: Seq<BlockDeviceView>,
    groups: Seq<GroupView>,
    force: bool,
    specs: Seq<PartitionSpecView>,
    i: int,
    b: MakeTablesView,
)
    requires
        0 <= i <= specs.len() <= usize::MAX,
    ensures
        tables_from(devices, groups, force, specs, i, b) matches Err(e) ==> (
        e matches MakeError::Partition { item, error } && i <= item < specs.len() && exists|
            made: MakeTablesView,
        |
            tables_from(devices, groups, force, specs.take(item as int), i, b) == Ok::<
                MakeTablesView,
                MakeError,
            >(made) && #[trigger] with_partition(
                devices,
                groups,
                force,
                made,
                specs[item as int],
            ) == Err::<MakeTablesView, Error>(error)),
    decreases specs.len() - i,
{
    if i < specs.len() {
        if let Ok(next) = with_partition(devices, groups, force, b, specs[i]) {
            law_partition_fault(devices, groups, force, specs, i + 1, next);
            if let Err(MakeError::Partition { item, error }) = tables_from(
                devices,
                groups,
                force,
                specs,
                i,
                b,
            ) {
                assert(specs.take(item as int)[i] == specs[i]);
            }
        } else {
            assert(tables_from(devices, groups, force, specs.take(i), i, b) == Ok::<
                MakeTablesView,
                MakeError,
            >(b));
        }
    }
}

} // verus!
