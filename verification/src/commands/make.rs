//! Making an image from scratch: where the payloads go, and what the metadata
//! says.

use crate::commands::arguments::{parse_size, size_value};
use crate::commands::make_layout::{
    build_devices, build_tables, data_start, device_table, find_data_start, no_tables,
    reserved_bytes, tables_from, MakeTables, MakeTablesView,
};
use crate::commands::make_specs::{
    chosen_slots, device_spec, group_spec, parse_device_spec, parse_group_spec, parse_slots,
    parse_small_size, small_size, text_of, DeviceSpec, DeviceSpecView, PartitionSpec,
    PartitionSpecView,
};
use crate::error::{Error, Fault};
use crate::format::{
    backup_offset, copy_offset, device_views, group_views, primary_offset, views, BlockDevice,
    BlockDeviceView, Geometry, Group, GroupView, MetadataHeader, TableDescriptor, TablesView,
    LP_METADATA_HEADER_SIZE, LP_METADATA_MAJOR_VERSION, LP_METADATA_MINOR_VERSION,
};
use crate::text::{concat, position_of, split_once, str_eq, texts, trim, trimmed};
use crate::writer::render::{geometry_bytes, slot_bytes, MAX_METADATA_SIZE, MAX_SLOTS};
use crate::writer::LpWriter;
use vstd::prelude::*;
use vstd::string::*;

verus! {

/// A request to make an image.
#[derive(Debug)]
pub struct MakeArgs {
    pub output: String,
    pub device: Vec<String>,
    pub group: Vec<String>,
    pub partition: Vec<String>,
    pub output_map: Vec<String>,
    pub slot: String,
    pub metadata_size: String,
    pub metadata_slots: u32,
    pub block_size: u32,
    pub alignment: String,
    pub retrofit: bool,
    pub sparse: bool,
    pub force: bool,
    pub dry_run: bool,
}

/// What is wrong with a request, and with which of its specifications.
#[derive(Debug, Clone, Copy, PartialEq, Eq, Structural)]
pub enum MakeError {
    /// The request as a whole.
    Request(Error),
    /// A device.
    Device { item: usize, error: Error },
    /// A group.
    Group { item: usize, error: Error },
    /// A partition.
    Partition { item: usize, error: Error },
    /// An output mapping.
    Output { item: usize, error: Error },
}

/// The settings of an image: all but its partitions.
#[derive(Debug)]
pub struct MakeSettings {
    pub metadata_max_size: u32,
    pub default_alignment: u32,
    pub slots: Vec<u64>,
    pub devices: Vec<DeviceSpec>,
    pub groups: Vec<Group>,
}

/// The devices from the `i`-th specification on, behind those before.
pub open spec fn devices_from(
    specs: Seq<Seq<char>>,
    default_alignment: u32,
    i: int,
    done: Seq<DeviceSpecView>,
) -> Result<Seq<DeviceSpecView>, MakeError>
    decreases specs.len() - i,
{
    if i < 0 || i >= specs.len() {
        Ok(done)
    } else {
        match device_spec(specs[i], default_alignment) {
            Err(error) => Err(MakeError::Device { item: i as usize, error }),
            Ok(d) => devices_from(specs, default_alignment, i + 1, done.push(d)),
        }
    }
}

/// The groups from the `i`-th specification on, behind those before.
pub open spec fn groups_from(specs: Seq<Seq<char>>, i: int, done: Seq<GroupView>) -> Result<
    Seq<GroupView>,
    MakeError,
>
    decreases specs.len() - i,
{
    if i < 0 || i >= specs.len() {
        Ok(done)
    } else {
        match group_spec(specs[i]) {
            Err(error) => Err(MakeError::Group { item: i as usize, error }),
            Ok(g) => groups_from(specs, i + 1, done.push(g)),
        }
    }
}

/// The first name from the `i`-th on that occurred before.
pub open spec fn first_repeat(names: Seq<Seq<char>>, i: int) -> Option<int>
    decreases names.len() - i,
{
    if i < 0 || i >= names.len() {
        None
    } else if names.take(i).contains(names[i]) {
        Some(i)
    } else {
        first_repeat(names, i + 1)
    }
}

/// The names of devices.
pub open spec fn device_names(devices: Seq<DeviceSpecView>) -> Seq<Seq<char>> {
    devices.map_values(|d: DeviceSpecView| d.name)
}

/// The names of partitions.
pub open spec fn partition_names(parts: Seq<PartitionSpecView>) -> Seq<Seq<char>> {
    parts.map_values(|p: PartitionSpecView| p.name)
}

/// What is wrong with the settings, before any specification is read.
pub open spec fn settings_fault(args: MakeArgs) -> Option<Error> {
    let metadata = size_value(args.metadata_size@, false);
    let alignment = small_size(args.alignment@);
    let slots = chosen_slots(args.slot@, args.metadata_slots);
    if args.device@.len() == 0 {
        Some(Error::Invalid(Fault::NoDevices))
    } else if !(1 <= args.metadata_slots <= MAX_SLOTS) {
        Some(Error::Invalid(Fault::MetadataSlotCount))
    } else if args.block_size != 512 && args.block_size != 4096 {
        Some(Error::Invalid(Fault::LogicalBlockSize))
    } else if metadata is Err {
        Some(metadata->Err_0)
    } else if metadata->Ok_0 == 0 || metadata->Ok_0 > MAX_METADATA_SIZE {
        Some(Error::Invalid(Fault::MetadataMaxSize))
    } else if alignment is Err {
        Some(alignment->Err_0)
    } else if slots is Err {
        Some(slots->Err_0)
    } else {
        None
    }
}

/// The settings of an image as mathematical values.
#[verifier::ext_equal]
pub struct SettingsView {
    pub metadata_max_size: u32,
    pub default_alignment: u32,
    pub slots: Seq<u64>,
    pub devices: Seq<DeviceSpecView>,
    pub groups: Seq<GroupView>,
}

impl View for MakeSettings {
    type V = SettingsView;

    open spec fn view(&self) -> SettingsView {
        SettingsView {
            metadata_max_size: self.metadata_max_size,
            default_alignment: self.default_alignment,
            slots: self.slots@,
            devices: views(self.devices@),
            groups: group_views(self.groups@),
        }
    }
}

/// The settings that a request asks for.
pub open spec fn settings_of(args: MakeArgs) -> Result<SettingsView, MakeError> {
    match settings_fault(args) {
        Some(e) => Err(MakeError::Request(e)),
        None => {
            let default_alignment = small_size(args.alignment@)->Ok_0;
            match devices_from(texts(args.device@), default_alignment, 0, Seq::empty()) {
                Err(e) => Err(e),
                Ok(devices) => match first_repeat(device_names(devices), 0) {
                    Some(i) => Err(
                        MakeError::Device {
                            item: i as usize,
                            error: Error::Invalid(Fault::Duplicate),
                        },
                    ),
                    None => match groups_from(texts(args.group@), 0, Seq::empty()) {
                        Err(e) => Err(e),
                        Ok(groups) => Ok(
                            SettingsView {
                                metadata_max_size: size_value(
                                    args.metadata_size@,
                                    false,
                                )->Ok_0 as u32,
                                default_alignment,
                                slots: chosen_slots(args.slot@, args.metadata_slots)->Ok_0,
                                devices,
                                groups,
                            },
                        ),
                    },
                },
            }
        },
    }
}

fn check_settings(args: &MakeArgs) -> (r: Result<(u32, u32, Vec<u64>), Error>)
    ensures
        match r {
            Ok((metadata, alignment, slots)) => {
                &&& settings_fault(*args) is None
                &&& size_value(args.metadata_size@, false) == Ok::<u64, Error>(metadata as u64)
                &&& small_size(args.alignment@) == Ok::<u32, Error>(alignment)
                &&& chosen_slots(args.slot@, args.metadata_slots) == Ok::<Seq<u64>, Error>(slots@)
            },
            Err(e) => settings_fault(*args) == Some(e),
        },
{
    if args.device.len() == 0 {
        return Err(Error::Invalid(Fault::NoDevices));
    }
    if args.metadata_slots < 1 || args.metadata_slots > MAX_SLOTS {
        return Err(Error::Invalid(Fault::MetadataSlotCount));
    }
    if args.block_size != 512 && args.block_size != 4096 {
        return Err(Error::Invalid(Fault::LogicalBlockSize));
    }
    let metadata = parse_size(args.metadata_size.as_str(), false)?;
    if metadata == 0 || metadata > MAX_METADATA_SIZE as u64 {
        return Err(Error::Invalid(Fault::MetadataMaxSize));
    }
    let alignment = parse_small_size(args.alignment.as_str())?;
    let slots = parse_slots(args.slot.as_str(), args.metadata_slots)?;
    Ok((metadata as u32, alignment, slots))
}

/// The first name that occurred before.
fn find_repeat(names: &Vec<&str>) -> (r: Option<usize>)
    ensures
        ({
            let all = names@.map_values(|s: &str| s@);
            match r {
                Some(i) => first_repeat(all, 0) == Some(i as int),
                None => first_repeat(all, 0) is None,
            }
        }),
{
    let ghost all = names@.map_values(|s: &str| s@);
    let mut i: usize = 0;
    while i < names.len()
        invariant
            i <= names.len(),
            all == names@.map_values(|s: &str| s@),
            first_repeat(all, 0) == first_repeat(all, i as int),
        decreases names.len() - i,
    {
        let mut k: usize = 0;
        let mut seen = false;
        while k < i
            invariant
                k <= i < names.len(),
                all == names@.map_values(|s: &str| s@),
                seen == all.take(k as int).contains(all[i as int]),
            decreases i - k,
        {
            proof {
                assert(all.take(k + 1) =~= all.take(k as int).push(all[k as int]));
                let a = all.take(k as int);
                let b = all.take(k + 1);
                if a.contains(all[i as int]) {
                    let m = a.index_of(all[i as int]);
                    assert(b[m] == all[i as int]);
                }
                assert(b[k as int] == all[k as int]);
            }
            if str_eq(names[k], names[i]) {
                seen = true;
            }
            k += 1;
        }
        if seen {
            return Some(i);
        }
        i += 1;
    }
    None
}

/// Reads the settings that a request asks for.
pub fn make_settings(args: &MakeArgs) -> (r: Result<MakeSettings, MakeError>)
    ensures
        match r {
            Ok(s) => settings_of(*args) == Ok::<SettingsView, MakeError>(s@),
            Err(e) => settings_of(*args) == Err::<SettingsView, MakeError>(e),
        },
{
    let (metadata_max_size, default_alignment, slots) = match check_settings(args) {
        Ok(v) => v,
        Err(e) => {
            return Err(MakeError::Request(e));
        },
    };
    let ghost specs = texts(args.device@);
    let mut devices: Vec<DeviceSpec> = Vec::new();
    let mut i: usize = 0;
    assert(views(devices@) =~= Seq::<DeviceSpecView>::empty());
    while i < args.device.len()
        invariant
            i <= args.device.len(),
            specs == texts(args.device@),
            settings_fault(*args) is None,
            small_size(args.alignment@) == Ok::<u32, Error>(default_alignment),
            devices_from(specs, default_alignment, 0, Seq::empty()) == devices_from(
                specs,
                default_alignment,
                i as int,
                views(devices@),
            ),
        decreases args.device.len() - i,
    {
        assert(specs[i as int] == args.device@[i as int]@);
        match parse_device_spec(args.device[i].as_str(), default_alignment) {
            Err(error) => {
                return Err(MakeError::Device { item: i, error });
            },
            Ok(d) => {
                let ghost before = views(devices@);
                let ghost v = d@;
                devices.push(d);
                assert(views(devices@) =~= before.push(v));
            },
        }
        i += 1;
    }
    let mut names: Vec<&str> = Vec::new();
    let mut k: usize = 0;
    while k < devices.len()
        invariant
            k <= devices.len(),
            names@.len() == k,
            forall|m: int| 0 <= m < k ==> (#[trigger] names@[m])@ == devices@[m].name@,
        decreases devices.len() - k,
    {
        names.push(devices[k].name.as_str());
        k += 1;
    }
    assert(names@.map_values(|s: &str| s@) =~= device_names(views(devices@)));
    if let Some(item) = find_repeat(&names) {
        return Err(MakeError::Device { item, error: Error::Invalid(Fault::Duplicate) });
    }
    let ghost group_specs = texts(args.group@);
    let mut groups: Vec<Group> = Vec::new();
    let mut j: usize = 0;
    assert(group_views(groups@) =~= Seq::<GroupView>::empty());
    while j < args.group.len()
        invariant
            j <= args.group.len(),
            group_specs == texts(args.group@),
            settings_fault(*args) is None,
            small_size(args.alignment@) == Ok::<u32, Error>(default_alignment),
            devices_from(texts(args.device@), default_alignment, 0, Seq::empty()) == Ok::<
                Seq<DeviceSpecView>,
                MakeError,
            >(views(devices@)),
            first_repeat(device_names(views(devices@)), 0) is None,
            groups_from(group_specs, 0, Seq::empty()) == groups_from(
                group_specs,
                j as int,
                group_views(groups@),
            ),
        decreases args.group.len() - j,
    {
        assert(group_specs[j as int] == args.group@[j as int]@);
        match parse_group_spec(args.group[j].as_str()) {
            Err(error) => {
                return Err(MakeError::Group { item: j, error });
            },
            Ok(g) => {
                let ghost before = group_views(groups@);
                let ghost v = g@;
                groups.push(g);
                assert(group_views(groups@) =~= before.push(v));
            },
        }
        j += 1;
    }
    Ok(MakeSettings { metadata_max_size, default_alignment, slots, devices, groups })
}

/// The device and the path of an output mapping `name=path`.
pub open spec fn output_mapping(s: Seq<char>) -> Option<(Seq<char>, Seq<char>)> {
    let at = position_of(s, '=');
    let name = trimmed(s.take(at));
    let path = trimmed(s.skip(at + 1));
    if at >= s.len() || name.len() == 0 || path.len() == 0 {
        None
    } else {
        Some((name, path))
    }
}

/// The path that a device is mapped to, from the `k`-th mapping on.
pub open spec fn mapped_path(maps: Seq<(Seq<char>, Seq<char>)>, name: Seq<char>, k: int) -> Option<
    Seq<char>,
>
    decreases maps.len() - k,
{
    if k < 0 || k >= maps.len() {
        None
    } else if maps[k].0 == name {
        Some(maps[k].1)
    } else {
        mapped_path(maps, name, k + 1)
    }
}

/// The output mappings from the `i`-th on, behind those before. Each has to name
/// a device, and no device twice.
pub open spec fn mappings_from(
    specs: Seq<Seq<char>>,
    names: Seq<Seq<char>>,
    i: int,
    done: Seq<(Seq<char>, Seq<char>)>,
) -> Result<Seq<(Seq<char>, Seq<char>)>, MakeError>
    decreases specs.len() - i,
{
    if i < 0 || i >= specs.len() {
        Ok(done)
    } else {
        match output_mapping(specs[i]) {
            None => Err(
                MakeError::Output { item: i as usize, error: Error::Invalid(Fault::OutputMap) },
            ),
            Some((name, path)) => if !names.contains(name) {
                Err(
                    MakeError::Output {
                        item: i as usize,
                        error: Error::NotFound(Fault::BlockDevice),
                    },
                )
            } else if mapped_path(done, name, 0) is Some {
                Err(
                    MakeError::Output { item: i as usize, error: Error::Invalid(Fault::Duplicate) },
                )
            } else {
                mappings_from(specs, names, i + 1, done.push((name, path)))
            },
        }
    }
}

/// The output of a device: what it is mapped to, else the output path itself, or
/// that path with the device's name where each device has an output of its own.
pub open spec fn output_of(
    output: Seq<char>,
    split: bool,
    maps: Seq<(Seq<char>, Seq<char>)>,
    name: Seq<char>,
) -> Seq<char> {
    match mapped_path(maps, name, 0) {
        Some(path) => path,
        None => if split {
            output + "_"@ + name + ".img"@
        } else {
            output
        },
    }
}

/// The outputs of all devices.
pub open spec fn outputs_of(args: MakeArgs, devices: Seq<DeviceSpecView>) -> Result<
    Seq<Seq<char>>,
    MakeError,
> {
    let names = device_names(devices);
    let split = args.retrofit || devices.len() > 1;
    match mappings_from(texts(args.output_map@), names, 0, Seq::empty()) {
        Err(e) => Err(e),
        Ok(maps) => Ok(names.map_values(|n: Seq<char>| output_of(args.output@, split, maps, n))),
    }
}

/// The plan of an image.
#[derive(Debug)]
pub struct MakePlan {
    pub devices: Vec<BlockDevice>,
    pub tables: MakeTables,
    pub outputs: Vec<String>,
}

/// The plan of an image as mathematical values.
#[verifier::ext_equal]
pub struct PlanView {
    pub devices: Seq<BlockDeviceView>,
    pub tables: MakeTablesView,
    pub outputs: Seq<Seq<char>>,
}

impl View for MakePlan {
    type V = PlanView;

    open spec fn view(&self) -> PlanView {
        PlanView {
            devices: device_views(self.devices@),
            tables: self.tables@,
            outputs: texts(self.outputs@),
        }
    }
}

/// The plan for a request.
pub open spec fn plan_of(
    args: MakeArgs,
    s: SettingsView,
    specs: Seq<PartitionSpecView>,
) -> Result<PlanView, MakeError> {
    let reserved = reserved_bytes(s.metadata_max_size, args.metadata_slots, s.default_alignment);
    let start = data_start(s.metadata_max_size, args.metadata_slots, s.default_alignment);
    match first_repeat(partition_names(specs), 0) {
        Some(i) => Err(
            MakeError::Partition { item: i as usize, error: Error::Invalid(Fault::Duplicate) },
        ),
        None => if s.devices.len() > 1 && !args.retrofit {
            Err(MakeError::Request(Error::Invalid(Fault::SplitOutput)))
        } else {
            match device_table(s.devices, reserved as u64, start as u64) {
                Err(e) => Err(e),
                Ok(devices) => match tables_from(
                    devices,
                    s.groups,
                    args.force,
                    specs,
                    0,
                    no_tables(s.groups.len()),
                ) {
                    Err(e) => Err(e),
                    Ok(tables) => match outputs_of(args, s.devices) {
                        Err(e) => Err(e),
                        Ok(outputs) => Ok(PlanView { devices, tables, outputs }),
                    },
                },
            }
        },
    }
}

/// Reads an output mapping.
fn parse_output_mapping(s: &str) -> (r: Option<(String, String)>)
    ensures
        match r {
            Some((name, path)) => output_mapping(s@) == Some((name@, path@)),
            None => output_mapping(s@) is None,
        },
{
    match split_once(s, '=') {
        None => None,
        Some((front, back)) => {
            let name = String::from_str(trim(front.as_str()));
            let path = String::from_str(trim(back.as_str()));
            if name.as_str().unicode_len() == 0 || path.as_str().unicode_len() == 0 {
                return None;
            }
            Some((name, path))
        },
    }
}

/// Output mappings as mathematical values.
pub open spec fn mapping_views(v: Seq<(String, String)>) -> Seq<(Seq<char>, Seq<char>)> {
    v.map_values(|m: (String, String)| (m.0@, m.1@))
}

/// The path that a device is mapped to.
fn find_mapping(maps: &Vec<(String, String)>, name: &str) -> (r: Option<String>)
    ensures
        text_of(r) == mapped_path(mapping_views(maps@), name@, 0),
{
    let ghost all = mapping_views(maps@);
    let mut k: usize = 0;
    while k < maps.len()
        invariant
            k <= maps.len(),
            all == mapping_views(maps@),
            mapped_path(all, name@, 0) == mapped_path(all, name@, k as int),
        decreases maps.len() - k,
    {
        assert(all[k as int] == (maps@[k as int].0@, maps@[k as int].1@));
        if str_eq(maps[k].0.as_str(), name) {
            return Some(maps[k].1.clone());
        }
        k += 1;
    }
    None
}

/// Whether a device has this name.
fn has_device(devices: &Vec<DeviceSpec>, name: &str) -> (r: bool)
    ensures
        r == device_names(views(devices@)).contains(name@),
{
    let ghost names = device_names(views(devices@));
    let mut k: usize = 0;
    while k < devices.len()
        invariant
            k <= devices.len(),
            names == device_names(views(devices@)),
            forall|m: int| 0 <= m < k ==> #[trigger] names[m] != name@,
        decreases devices.len() - k,
    {
        assert(names[k as int] == devices@[k as int].name@);
        if str_eq(devices[k].name.as_str(), name) {
            return true;
        }
        k += 1;
    }
    false
}

/// The outputs of all devices.
pub fn plan_outputs(args: &MakeArgs, devices: &Vec<DeviceSpec>) -> (r: Result<
    Vec<String>,
    MakeError,
>)
    ensures
        match r {
            Ok(v) => outputs_of(*args, views(devices@)) == Ok::<Seq<Seq<char>>, MakeError>(
                texts(v@),
            ),
            Err(e) => outputs_of(*args, views(devices@)) == Err::<Seq<Seq<char>>, MakeError>(e),
        },
{
    let ghost specs = texts(args.output_map@);
    let ghost dv = views(devices@);
    let ghost names = device_names(dv);
    let mut maps: Vec<(String, String)> = Vec::new();
    let mut i: usize = 0;
    assert(mapping_views(maps@) =~= Seq::<(Seq<char>, Seq<char>)>::empty());
    while i < args.output_map.len()
        invariant
            i <= args.output_map.len(),
            specs == texts(args.output_map@),
            names == device_names(dv),
            dv == views(devices@),
            mappings_from(specs, names, 0, Seq::empty()) == mappings_from(
                specs,
                names,
                i as int,
                mapping_views(maps@),
            ),
        decreases args.output_map.len() - i,
    {
        assert(specs[i as int] == args.output_map@[i as int]@);
        match parse_output_mapping(args.output_map[i].as_str()) {
            None => {
                return Err(MakeError::Output { item: i, error: Error::Invalid(Fault::OutputMap) });
            },
            Some((name, path)) => {
                if !has_device(devices, name.as_str()) {
                    return Err(
                        MakeError::Output { item: i, error: Error::NotFound(Fault::BlockDevice) },
                    );
                }
                if find_mapping(&maps, name.as_str()).is_some() {
                    return Err(
                        MakeError::Output { item: i, error: Error::Invalid(Fault::Duplicate) },
                    );
                }
                let ghost before = mapping_views(maps@);
                let ghost v = (name@, path@);
                maps.push((name, path));
                assert(mapping_views(maps@) =~= before.push(v));
            },
        }
        i += 1;
    }
    let split = args.retrofit || devices.len() > 1;
    let ghost mv = mapping_views(maps@);
    let ghost all = names.map_values(|n: Seq<char>| output_of(args.output@, split, mv, n));
    let mut out: Vec<String> = Vec::new();
    let mut k: usize = 0;
    while k < devices.len()
        invariant
            k <= devices.len(),
            names == device_names(dv),
            dv == views(devices@),
            mv == mapping_views(maps@),
            out@.len() == k,
            forall|m: int|
                0 <= m < k ==> (#[trigger] out@[m])@ == output_of(
                    args.output@,
                    split,
                    mv,
                    names[m],
                ),
        decreases devices.len() - k,
    {
        assert(names[k as int] == devices@[k as int].name@);
        let path = match find_mapping(&maps, devices[k].name.as_str()) {
            Some(p) => p,
            None => if split {
                let mut p = concat(args.output.as_str(), "_");
                p.append(devices[k].name.as_str());
                p.append(".img");
                p
            } else {
                args.output.clone()
            },
        };
        out.push(path);
        k += 1;
    }
    assert(texts(out@) =~= all);
    Ok(out)
}

/// Plans an image.
pub fn plan_make(args: &MakeArgs, settings: &MakeSettings, specs: &Vec<PartitionSpec>) -> (r:
    Result<MakePlan, MakeError>)
    requires
        settings_of(*args) == Ok::<SettingsView, MakeError>(settings@),
        settings.devices@.len() <= u32::MAX,
        settings.groups@.len() <= u32::MAX,
    ensures
        match r {
            Ok(plan) => plan_of(*args, settings@, views(specs@)) == Ok::<PlanView, MakeError>(
                plan@,
            ),
            Err(e) => plan_of(*args, settings@, views(specs@)) == Err::<PlanView, MakeError>(e),
        },
{
    let mut names: Vec<&str> = Vec::new();
    let mut k: usize = 0;
    while k < specs.len()
        invariant
            k <= specs.len(),
            names@.len() == k,
            forall|m: int| 0 <= m < k ==> (#[trigger] names@[m])@ == specs@[m].name@,
        decreases specs.len() - k,
    {
        names.push(specs[k].name.as_str());
        k += 1;
    }
    assert(names@.map_values(|s: &str| s@) =~= partition_names(views(specs@)));
    if let Some(item) = find_repeat(&names) {
        return Err(MakeError::Partition { item, error: Error::Invalid(Fault::Duplicate) });
    }
    if settings.devices.len() > 1 && !args.retrofit {
        return Err(MakeError::Request(Error::Invalid(Fault::SplitOutput)));
    }
    let (start, reserved) = find_data_start(
        settings.metadata_max_size,
        args.metadata_slots,
        settings.default_alignment,
    );
    let devices = build_devices(&settings.devices, reserved, start)?;
    let tables = build_tables(&devices, &settings.groups, args.force, specs)?;
    let outputs = plan_outputs(args, &settings.devices)?;
    Ok(MakePlan { devices, tables, outputs })
}

/// What is wrong with the outputs that are block devices, from the `i`-th on:
/// each has to have exactly the size of its device, and none takes a sparse
/// container.
pub open spec fn block_fault(
    devices: Seq<BlockDeviceView>,
    probed: Seq<Option<u64>>,
    sparse: bool,
    i: int,
) -> Option<MakeError>
    decreases devices.len() - i,
{
    if i < 0 || i >= devices.len() {
        None
    } else {
        match probed[i] {
            None => block_fault(devices, probed, sparse, i + 1),
            Some(n) => if sparse {
                Some(
                    MakeError::Device {
                        item: i as usize,
                        error: Error::Invalid(Fault::SparseOutput),
                    },
                )
            } else if n != devices[i].size {
                Some(
                    MakeError::Device {
                        item: i as usize,
                        error: Error::Invalid(
                            Fault::OutputSize { size: devices[i].size, probed: n },
                        ),
                    },
                )
            } else {
                block_fault(devices, probed, sparse, i + 1)
            },
        }
    }
}

/// Checks the outputs that are block devices. `probed` gives the size of each
/// output that is one.
pub fn check_block_outputs(plan: &MakePlan, probed: &Vec<Option<u64>>, sparse: bool) -> (r: Option<
    MakeError,
>)
    requires
        probed@.len() == plan.devices@.len(),
    ensures
        r == block_fault(device_views(plan.devices@), probed@, sparse, 0),
{
    let ghost dv = device_views(plan.devices@);
    let mut i: usize = 0;
    while i < plan.devices.len()
        invariant
            i <= plan.devices.len() == probed@.len(),
            dv == device_views(plan.devices@),
            block_fault(dv, probed@, sparse, 0) == block_fault(dv, probed@, sparse, i as int),
        decreases plan.devices.len() - i,
    {
        assert(dv[i as int] == plan.devices@[i as int]@);
        if let Some(n) = probed[i] {
            if sparse {
                return Some(
                    MakeError::Device { item: i, error: Error::Invalid(Fault::SparseOutput) },
                );
            }
            let size = plan.devices[i].size;
            if n != size {
                let error = Error::Invalid(Fault::OutputSize { size, probed: n });
                return Some(MakeError::Device { item: i, error });
            }
        }
        i += 1;
    }
    None
}

/// Where a new slot goes.
#[derive(Debug, Clone, Copy, PartialEq, Eq, Structural)]
pub struct SlotPlace {
    pub slot: u64,
    pub primary: u64,
    pub backup: u64,
}

/// The metadata of a new image: the geometry record, the slot, and the places
/// that the slot goes to.
#[derive(Debug)]
pub struct MakeMetadata {
    pub geometry: Vec<u8>,
    pub slot: Vec<u8>,
    pub places: Vec<SlotPlace>,
}

/// The header of a new slot.
pub open spec fn new_header() -> MetadataHeader {
    let none = TableDescriptor { offset: 0, num_entries: 0, entry_size: 0 };
    MetadataHeader {
        major_version: LP_METADATA_MAJOR_VERSION,
        minor_version: LP_METADATA_MINOR_VERSION,
        header_size: LP_METADATA_HEADER_SIZE,
        tables_size: 0,
        partitions: none,
        extents: none,
        groups: none,
        block_devices: none,
    }
}

/// The geometry of a new image.
pub open spec fn new_geometry(args: MakeArgs, s: SettingsView) -> Geometry {
    Geometry {
        metadata_max_size: s.metadata_max_size,
        metadata_slot_count: args.metadata_slots,
        logical_block_size: args.block_size,
    }
}

/// The tables of a new image.
pub open spec fn new_tables(s: SettingsView, p: PlanView) -> TablesView {
    TablesView {
        partitions: p.tables.partitions,
        extents: p.tables.extents,
        groups: s.groups,
        block_devices: p.devices,
    }
}

/// The place of a slot.
pub open spec fn place_of(slot: u64, max: u32, count: u32) -> SlotPlace {
    SlotPlace {
        slot,
        primary: copy_offset(slot as int, max as int) as u64,
        backup: copy_offset(count + slot, max as int) as u64,
    }
}

/// Whether this is the metadata of a new image.
pub open spec fn metadata_made(
    args: MakeArgs,
    s: SettingsView,
    p: PlanView,
    r: Result<MakeMetadata, Error>,
) -> bool {
    let max = s.metadata_max_size;
    let t = new_tables(s, p);
    match r {
        Ok(m) => {
            &&& m.geometry@ == geometry_bytes(new_geometry(args, s))
            &&& slot_bytes(new_header(), t, max) == Ok::<Seq<u8>, Error>(m.slot@)
            &&& m.places@ == s.slots.map_values(|x: u64| place_of(x, max, args.metadata_slots))
        },
        Err(e) => slot_bytes(new_header(), t, max) == Err::<Seq<u8>, Error>(e),
    }
}

/// Renders the metadata of a new image.
pub fn render_make(args: &MakeArgs, settings: &MakeSettings, plan: &MakePlan) -> (r: Result<
    MakeMetadata,
    Error,
>)
    requires
        settings_of(*args) == Ok::<SettingsView, MakeError>(settings@),
    ensures
        metadata_made(*args, settings@, plan@, r),
{
    let max = settings.metadata_max_size;
    let count = args.metadata_slots;
    let none = TableDescriptor { offset: 0, num_entries: 0, entry_size: 0 };
    let header = MetadataHeader {
        major_version: LP_METADATA_MAJOR_VERSION,
        minor_version: LP_METADATA_MINOR_VERSION,
        header_size: LP_METADATA_HEADER_SIZE,
        tables_size: 0,
        partitions: none,
        extents: none,
        groups: none,
        block_devices: none,
    };
    let geometry = LpWriter::render_geometry(max, count, args.block_size)?;
    let slot = LpWriter::render_slot(
        &header,
        plan.tables.partitions.as_slice(),
        plan.tables.extents.as_slice(),
        settings.groups.as_slice(),
        plan.devices.as_slice(),
        max,
    )?;
    let ghost wanted = settings.slots@.map_values(|s: u64| place_of(s, max, args.metadata_slots));
    let mut places: Vec<SlotPlace> = Vec::new();
    let mut i: usize = 0;
    proof {
        lemma_chosen(args.slot@, count);
    }
    while i < settings.slots.len()
        invariant
            i <= settings.slots.len(),
            max == settings.metadata_max_size <= MAX_METADATA_SIZE,
            count == args.metadata_slots <= MAX_SLOTS,
            forall|k: int| 0 <= k < settings.slots@.len() ==> #[trigger] settings.slots@[k] < count,
            places@.len() == i,
            forall|k: int|
                0 <= k < i ==> (#[trigger] places@[k]) == place_of(settings.slots@[k], max, count),
        decreases settings.slots.len() - i,
    {
        let s = settings.slots[i];
        proof {
            assert(0 <= s * max <= 8 * 16_777_216) by (nonlinear_arith)
                requires
                    0 <= s < 8,
                    0 <= max <= 16_777_216,
            ;
            assert(0 <= (count + s) * max <= 16 * 16_777_216) by (nonlinear_arith)
                requires
                    0 <= count + s < 16,
                    0 <= max <= 16_777_216,
            ;
        }
        match (
            primary_offset(s, max as u64),
            backup_offset(s, count as u64, max as u64),
        ) {
            (Some(primary), Some(backup)) => {
                places.push(SlotPlace { slot: s, primary, backup });
            },
            _ => {
                assert(false);
            },
        }
        i += 1;
    }
    assert(places@ =~= wanted);
    Ok(MakeMetadata { geometry, slot, places })
}

/// The slots that were chosen are slots of the image.
proof fn lemma_chosen(s: Seq<char>, count: u32)
    ensures
        chosen_slots(s, count) matches Ok(slots) ==> forall|k: int|
            0 <= k < slots.len() ==> #[trigger] slots[k] < count,
{
}

} // verus!
