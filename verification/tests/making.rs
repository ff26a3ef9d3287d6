use super_image_worker::commands::make::{
    check_block_outputs, make_settings, plan_make, render_make, MakeArgs, MakeError, MakePlan,
    MakeSettings,
};
use super_image_worker::commands::make_layout::{find_data_start, reserve, PayloadJob};
use super_image_worker::commands::make_specs::{
    parse_device_spec, parse_group_spec, parse_partition_spec, parse_slots, PartitionSpec,
};
use super_image_worker::error::{Error, Fault};
use super_image_worker::reader::load::{load_super_all, load_super_in_slot};
use super_image_worker::reader::extent_stream::ExtentReader;
use super_image_worker::reader::multiblock::open_multiblock;
use super_image_worker::reader::source::MemorySource;

fn strings(list: &[&str]) -> Vec<String> {
    list.iter().map(|s| s.to_string()).collect()
}

fn args(device: &[&str], group: &[&str]) -> MakeArgs {
    MakeArgs {
        output: "out/super.img".to_string(),
        device: strings(device),
        group: strings(group),
        partition: vec![],
        output_map: vec![],
        slot: "0".to_string(),
        metadata_size: "4K".to_string(),
        metadata_slots: 2,
        block_size: 4096,
        alignment: "4096".to_string(),
        retrofit: false,
        sparse: false,
        force: false,
        dry_run: false,
    }
}

fn spec(text: &str, len: u64) -> PartitionSpec {
    let mut p = parse_partition_spec(text).unwrap();
    p.payload_len = len;
    p
}

fn plan(a: &MakeArgs, specs: &[(&str, u64)]) -> Result<(MakeSettings, MakePlan), MakeError> {
    let settings = make_settings(a)?;
    let list: Vec<PartitionSpec> = specs.iter().map(|(t, n)| spec(t, *n)).collect();
    let plan = plan_make(a, &settings, &list)?;
    Ok((settings, plan))
}

fn failure(a: &MakeArgs, specs: &[(&str, u64)]) -> Option<MakeError> {
    plan(a, specs).err()
}

fn request(f: Fault) -> Option<MakeError> {
    Some(MakeError::Request(Error::Invalid(f)))
}

#[test]
fn device_specs() {
    let d = parse_device_spec("super:4G", 1048576).unwrap();
    assert_eq!((d.name.as_str(), d.size, d.alignment, d.alignment_offset), ("super", 4 << 30, 1048576, 0));
    let d = parse_device_spec(" vendor : 1m : 64K : 512 ", 7).unwrap();
    assert_eq!((d.name.as_str(), d.size, d.alignment, d.alignment_offset), ("vendor", 1 << 20, 65536, 512));
    let fail = |s: &str| parse_device_spec(s, 0).err();
    assert_eq!(fail("super"), Some(Error::Invalid(Fault::DeviceSpec)));
    assert_eq!(fail(":1G"), Some(Error::Invalid(Fault::DeviceSpec)));
    assert_eq!(fail("s:0"), Some(Error::Invalid(Fault::DeviceEmpty)));
    assert_eq!(fail("s:x"), Some(Error::Invalid(Fault::SizeText)));
    assert_eq!(fail("s:1G:4G"), Some(Error::Invalid(Fault::AlignmentSize)));
    assert_eq!(fail("s:1G:4K:4K"), Some(Error::Invalid(Fault::AlignmentOffset)));
    assert_eq!(
        fail(&format!("{}:1G", "n".repeat(37))),
        Some(Error::Invalid(Fault::DeviceName))
    );
}

#[test]
fn group_specs() {
    let g = parse_group_spec("default:4G").unwrap();
    assert_eq!((g.name.as_str(), g.flags, g.maximum_size), ("default", 0, 4 << 30));
    assert_eq!(parse_group_spec("default").err(), Some(Error::Invalid(Fault::GroupSpec)));
    assert_eq!(parse_group_spec(" :1").err(), Some(Error::Invalid(Fault::GroupSpec)));
    assert_eq!(parse_group_spec("g:").err(), Some(Error::Invalid(Fault::SizeEmpty)));
    assert_eq!(
        parse_group_spec(&format!("{}:1", "n".repeat(37))).err(),
        Some(Error::Invalid(Fault::GroupName))
    );
}

#[test]
fn partition_specs() {
    let p = parse_partition_spec("system_a:readonly,updated:g:dir/sys.img").unwrap();
    assert_eq!(p.name, "system_a");
    assert_eq!(p.attrs, 5);
    assert_eq!(p.group, "g");
    assert_eq!(p.device, None);
    assert_eq!(p.payload.as_deref(), Some("dir/sys.img"));
    let q = parse_partition_spec("v:none:g@cust:a:b").unwrap();
    assert_eq!(q.device.as_deref(), Some("cust"));
    assert_eq!(q.payload.as_deref(), Some("a:b"));
    assert_eq!(parse_partition_spec("v:none:g").unwrap().payload, None);
    let fail = |s: &str| parse_partition_spec(s).err();
    assert_eq!(fail("v:none"), Some(Error::Invalid(Fault::PartitionSpec)));
    assert_eq!(fail(":none:g"), Some(Error::Invalid(Fault::PartitionSpec)));
    assert_eq!(fail("v:none:g@"), Some(Error::Invalid(Fault::PartitionSpec)));
    assert_eq!(fail("v:odd:g"), Some(Error::Invalid(Fault::Attribute { word: 0 })));
    assert_eq!(
        fail(&format!("{}:none:g", "n".repeat(37))),
        Some(Error::Invalid(Fault::PartitionName))
    );
}

#[test]
fn slots_to_make() {
    assert_eq!(parse_slots("0", 3), Ok(vec![0]));
    assert_eq!(parse_slots(" b ", 3), Ok(vec![1]));
    assert_eq!(parse_slots("all", 3), Ok(vec![0, 1, 2]));
    assert_eq!(
        parse_slots("1", 1),
        Err(Error::NotFound(Fault::SlotRange { slot: 1, count: 1 }))
    );
    assert_eq!(parse_slots("x", 3), Err(Error::Invalid(Fault::SlotText)));
}

#[test]
fn the_metadata_area_is_reserved() {
    assert_eq!(reserve(65536, 3, 1048576), 1048576);
    assert_eq!(reserve(4096, 2, 4096), 0x3000 + 4 * 4096);
    assert_eq!(reserve(4096, 2, 0), 0x3000 + 4 * 4096);
    assert_eq!(reserve(4096, 2, 3000), 30000);
    // Whole sectors of the reserved bytes, unless metadata lies in the last one.
    assert_eq!(find_data_start(4096, 2, 3000), (58, 30000));
    assert_eq!(find_data_start(1000, 1, 14288), (28, 14288));
    let mut a = args(&["super:1M:0"], &["g:512K"]);
    a.alignment = "3000".to_string();
    let (_, p) = plan(&a, &[("p:none:g:x", 512)]).unwrap();
    assert_eq!(p.devices[0].first_logical_sector, 58);
}

#[test]
fn payloads_are_laid_out_one_after_another() {
    let a = args(&["super:1M"], &["g:512K"]);
    let (_, p) = plan(&a, &[("system_a:readonly:g:s.img", 5000), ("empty_a:none:g", 0), ("vendor_a:none:g:v.img", 512)]).unwrap();
    assert_eq!(p.devices[0].first_logical_sector, 56);
    assert_eq!(p.outputs, vec!["out/super.img"]);
    let t = &p.tables;
    assert_eq!(
        t.extents.iter().map(|e| (e.target_data, e.num_sectors)).collect::<Vec<_>>(),
        vec![(56, 10), (72, 1)]
    );
    assert_eq!(
        t.partitions.iter().map(|p| (p.first_extent_index, p.num_extents)).collect::<Vec<_>>(),
        vec![(0, 1), (1, 0), (1, 1)]
    );
    assert_eq!(
        t.jobs,
        vec![
            PayloadJob { partition: 0, input_offset: 0, len: 5000, device: 0, sector: 56 },
            PayloadJob { partition: 2, input_offset: 0, len: 512, device: 0, sector: 72 },
        ]
    );
}

#[test]
fn large_payloads_span_devices() {
    let mut a = args(&["a:64K", "b:64K"], &["g:1M"]);
    a.retrofit = true;
    let room = 64 * 1024 - 28672;
    let (_, p) = plan(&a, &[("system_a:none:g:s.img", room + 700)]).unwrap();
    assert_eq!(p.outputs, vec!["out/super.img_a.img", "out/super.img_b.img"]);
    assert_eq!(p.tables.partitions[0].num_extents, 2);
    assert_eq!(
        p.tables.jobs,
        vec![
            PayloadJob { partition: 0, input_offset: 0, len: room, device: 0, sector: 56 },
            PayloadJob { partition: 0, input_offset: room, len: 700, device: 1, sector: 56 },
        ]
    );
    assert_eq!(
        failure(&a, &[("system_a:none:g:s.img", 2 * room + 1)]),
        Some(MakeError::Partition {
            item: 0,
            error: Error::Invalid(Fault::Short { needed: 145, short: 1 })
        })
    );
}

#[test]
fn partitions_can_be_pinned() {
    let mut a = args(&["a:64K", "b:64K"], &["g:1M"]);
    a.retrofit = true;
    let (_, p) = plan(&a, &[("v:none:g@b:v.img", 512)]).unwrap();
    assert_eq!(p.tables.extents[0].target_source, 1);
    assert_eq!(
        failure(&a, &[("v:none:g@c:v.img", 512)]),
        Some(MakeError::Partition { item: 0, error: Error::NotFound(Fault::BlockDevice) })
    );
    assert_eq!(
        failure(&a, &[("v:none:g@b:v.img", 60000)]),
        Some(MakeError::Partition { item: 0, error: Error::Invalid(Fault::NoSpace) })
    );
}

#[test]
fn group_limits_hold_unless_forced() {
    let mut a = args(&["super:1M"], &["g:1K", "open:0"]);
    assert!(failure(&a, &[("p:none:g:x", 1024)]).is_none());
    assert!(failure(&a, &[("p:none:open:x", 9000)]).is_none());
    let over = [("p:none:g:x", 512), ("q:none:g:y", 1000)];
    assert_eq!(
        failure(&a, &over),
        Some(MakeError::Partition {
            item: 1,
            error: Error::Invalid(Fault::GroupLimit { max: 1024, used: 1, needed: 2 })
        })
    );
    a.force = true;
    assert!(failure(&a, &over).is_none());
}

#[test]
fn requests_are_checked() {
    let base = || args(&["super:1M"], &["g:1M"]);
    let with = |f: &dyn Fn(&mut MakeArgs)| {
        let mut a = base();
        f(&mut a);
        failure(&a, &[])
    };
    assert_eq!(with(&|a| a.device.clear()), request(Fault::NoDevices));
    assert_eq!(with(&|a| a.metadata_slots = 9), request(Fault::MetadataSlotCount));
    assert_eq!(with(&|a| a.block_size = 1024), request(Fault::LogicalBlockSize));
    assert_eq!(with(&|a| a.metadata_size = "0".into()), request(Fault::MetadataMaxSize));
    assert_eq!(with(&|a| a.metadata_size = "17M".into()), request(Fault::MetadataMaxSize));
    assert_eq!(with(&|a| a.alignment = "4G".into()), request(Fault::AlignmentSize));
    assert_eq!(with(&|a| a.slot = "9".into()), request(Fault::SlotText));
    assert_eq!(
        with(&|a| a.device.push("other:1M".into())),
        request(Fault::SplitOutput)
    );
    assert_eq!(
        with(&|a| a.device.push("super:1M".into())),
        Some(MakeError::Device { item: 1, error: Error::Invalid(Fault::Duplicate) })
    );
    assert_eq!(
        with(&|a| a.device[0] = "super:28K".into()),
        Some(MakeError::Device {
            item: 0,
            error: Error::Invalid(Fault::DeviceSmall { size: 28672, reserved: 28672 })
        })
    );
    assert_eq!(
        with(&|a| a.device[0] = "super:100001".into()),
        Some(MakeError::Device { item: 0, error: Error::Invalid(Fault::DeviceUnaligned) })
    );
    assert_eq!(
        with(&|a| a.group.push("h".into())),
        Some(MakeError::Group { item: 1, error: Error::Invalid(Fault::GroupSpec) })
    );
    assert_eq!(
        failure(&base(), &[("p:none:g", 0), ("p:none:g", 0)]),
        Some(MakeError::Partition { item: 1, error: Error::Invalid(Fault::Duplicate) })
    );
    assert_eq!(
        failure(&base(), &[("p:none:h", 0)]),
        Some(MakeError::Partition { item: 0, error: Error::NotFound(Fault::Group) })
    );
}

#[test]
fn outputs_can_be_mapped() {
    let mut a = args(&["a:64K", "b:64K"], &[]);
    a.retrofit = true;
    a.output_map = strings(&["b = /dev/block/by-name/b"]);
    let (_, p) = plan(&a, &[]).unwrap();
    assert_eq!(p.outputs, vec!["out/super.img_a.img", "/dev/block/by-name/b"]);
    assert_eq!(check_block_outputs(&p, &vec![None, Some(65536)], false), None);
    assert_eq!(
        check_block_outputs(&p, &vec![None, Some(65537)], false),
        Some(MakeError::Device {
            item: 1,
            error: Error::Invalid(Fault::OutputSize { size: 65536, probed: 65537 })
        })
    );
    assert_eq!(
        check_block_outputs(&p, &vec![Some(65536), None], true),
        Some(MakeError::Device { item: 0, error: Error::Invalid(Fault::SparseOutput) })
    );
    let fault = |list: &[&str]| {
        let mut b = args(&["a:64K"], &[]);
        b.output_map = strings(list);
        failure(&b, &[])
    };
    assert_eq!(
        fault(&["a"]),
        Some(MakeError::Output { item: 0, error: Error::Invalid(Fault::OutputMap) })
    );
    assert_eq!(
        fault(&["c=x"]),
        Some(MakeError::Output { item: 0, error: Error::NotFound(Fault::BlockDevice) })
    );
    assert_eq!(
        fault(&["a=x", "a=y"]),
        Some(MakeError::Output { item: 1, error: Error::Invalid(Fault::Duplicate) })
    );
}

#[test]
fn a_made_image_loads_in_its_slots_only() {
    let mut a = args(&["super:1M"], &["g:512K"]);
    a.slot = "b".to_string();
    let (s, p) = plan(&a, &[("system_b:readonly:g:s.img", 1024)]).unwrap();
    let m = render_make(&a, &s, &p).unwrap();
    assert_eq!(m.places.len(), 1);
    let place = m.places[0];
    assert_eq!((place.slot, place.primary, place.backup), (1, 0x4000, 0x6000));
    let mut c = vec![0u8; 1 << 20];
    c[0x1000..0x1034].copy_from_slice(&m.geometry);
    c[0x2000..0x2034].copy_from_slice(&m.geometry);
    for at in [place.primary as usize, place.backup as usize] {
        c[at..at + m.slot.len()].copy_from_slice(&m.slot);
    }
    let all = load_super_all(MemorySource { data: c.clone() }).unwrap();
    assert_eq!(all.len(), 1);
    let d = load_super_in_slot(MemorySource { data: c }, 1).unwrap();
    assert_eq!(d.partitions, p.tables.partitions);
    assert_eq!(d.extents, p.tables.extents);
    assert_eq!(d.groups, s.groups);
    assert_eq!(d.devices, p.devices);
    assert_eq!((d.header.major_version, d.header.minor_version), (10, 2));
}

#[test]
fn tables_that_do_not_fit_are_refused() {
    let mut a = args(&["super:1M"], &["g:512K"]);
    a.metadata_size = "400".to_string();
    a.alignment = "4096".to_string();
    let (s, p) = plan(&a, &[("p:none:g", 0)]).unwrap();
    assert_eq!(
        render_make(&a, &s, &p).err(),
        Some(Error::Invalid(Fault::MetadataTooLarge { needed: 256 + 52 + 48 + 64, max: 400 }))
    );
}

#[test]
fn payloads_read_back() {
    let mut a = args(&["a:64K", "b:64K"], &["g:1M"]);
    a.retrofit = true;
    let room = 64 * 1024 - 28672;
    let lens = [700usize, room, 1024];
    let specs =
        [("one_a:none:g:1.img", 700), ("two_a:none:g:2.img", room as u64), ("three_a:none:g:3.img", 1024)];
    let (s, p) = plan(&a, &specs).unwrap();
    let m = render_make(&a, &s, &p).unwrap();
    let payloads: Vec<Vec<u8>> = lens
        .iter()
        .enumerate()
        .map(|(k, n)| (0..*n).map(|i| (i * 7 + k + 1) as u8).collect())
        .collect();
    let mut files: Vec<Vec<u8>> = p.devices.iter().map(|d| vec![0u8; d.size as usize]).collect();
    for job in &p.tables.jobs {
        let from = job.input_offset as usize;
        let at = job.sector as usize * 512;
        let part = &payloads[job.partition][from..from + job.len as usize];
        files[job.device as usize][at..at + part.len()].copy_from_slice(part);
    }
    for at in [0x1000, 0x2000] {
        files[0][at..at + 0x34].copy_from_slice(&m.geometry);
    }
    for place in &m.places {
        for at in [place.primary as usize, place.backup as usize] {
            files[0][at..at + m.slot.len()].copy_from_slice(&m.slot);
        }
    }
    let primary = MemorySource { data: files[0].clone() };
    let mb = open_multiblock(primary, vec![(1, MemorySource { data: files[1].clone() })]).unwrap();
    let d = load_super_in_slot(MemorySource { data: files[0].clone() }, 0).unwrap();
    for (k, part) in d.partitions.iter().enumerate() {
        let first = part.first_extent_index as usize;
        let chain = d.extents[first..first + part.num_extents as usize].to_vec();
        let mut want = payloads[k].clone();
        want.resize((want.len() + 511) / 512 * 512, 0);
        assert_eq!(d.partition_size(part), want.len() as u64);
        assert_eq!(ExtentReader::new(&mb, chain).read(1 << 20).unwrap(), want);
    }
}

#[test]
fn data_starts_behind_metadata_of_odd_sizes() {
    let mut a = args(&["super:1M:512"], &["g:512K"]);
    a.metadata_size = "1000".to_string();
    a.metadata_slots = 1;
    a.alignment = "14288".to_string();
    let (_, p) = plan(&a, &[("p:none:g:x", 512)]).unwrap();
    assert_eq!(p.devices[0].first_logical_sector, 28);
    assert_eq!(p.tables.extents[0].target_data, 28);
}
