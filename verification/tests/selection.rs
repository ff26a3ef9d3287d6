use super_image_worker::commands::arguments::{
    parse_attrs, parse_size, parse_size_or_zero, parse_slot_opt, parse_suffix_opt,
};
use super_image_worker::commands::connect::{
    backing_matches, info_matches, list_candidates, loop_info, loop_path, loop_window, pick_loop,
    LoopNode, LoopWindow, LO_FLAGS_PARTSCAN, LOOP_INFO_SIZE,
};
use super_image_worker::commands::extract::{file_name, needs_bindings, pick, plan_extract};
use super_image_worker::commands::map::{
    build_linear_target, build_table, build_zero_target, dm_request, plan_map,
};
use super_image_worker::commands::read::plan_read;
use super_image_worker::commands::snapshot_status::{
    parse_legacy_state, parse_proto_state, read_update_state, read_varint, state_name,
};
use super_image_worker::error::{Error, Fault, NameError};
use super_image_worker::format::{
    BlockDevice, Extent, Geometry, MetadataHeader, Partition, TableDescriptor,
};
use super_image_worker::reader::data::SuperData;

fn part(name: &str, first: u32, num: u32) -> Partition {
    Partition {
        name: name.to_string(),
        attributes: 1,
        first_extent_index: first,
        num_extents: num,
        group_index: 0,
    }
}

fn extent(n: u64, kind: u32, at: u64) -> Extent {
    Extent { num_sectors: n, target_type: kind, target_data: at, target_source: 0 }
}

fn data() -> SuperData {
    let none = TableDescriptor { offset: 0, num_entries: 0, entry_size: 0 };
    SuperData {
        image_format: "raw".to_string(),
        image_size: 1 << 20,
        geometry: Geometry {
            metadata_max_size: 4096,
            metadata_slot_count: 1,
            logical_block_size: 4096,
        },
        geometry_offset: 0x1000,
        header: MetadataHeader {
            major_version: 10,
            minor_version: 0,
            header_size: 128,
            tables_size: 0,
            partitions: none,
            extents: none,
            groups: none,
            block_devices: none,
        },
        metadata_offset: 0x3000,
        metadata_slot: 0,
        partitions: vec![
            part("system_a", 0, 2),
            part("system_b", 2, 1),
            part("odm", 3, 1),
            part("empty_a", 4, 0),
            part("broken_a", 3, 9),
        ],
        extents: vec![
            extent(8, 0, 64),
            extent(2, 1, 0),
            extent(4, 0, 80),
            extent(6, 1, 7),
        ],
        groups: vec![],
        devices: vec![],
    }
}

#[test]
fn sizes() {
    assert_eq!(parse_size("17", false), Ok(17));
    assert_eq!(parse_size(" 2k ", false), Ok(2048));
    assert_eq!(parse_size("3M", false), Ok(3 << 20));
    assert_eq!(parse_size("4g", false), Ok(4 << 30));
    assert_eq!(parse_size("4s", true), Ok(2048));
    assert_eq!(parse_size("4s", false), Err(Error::Invalid(Fault::SizeText)));
    assert_eq!(parse_size("4S", true), Err(Error::Invalid(Fault::SizeText)));
    assert_eq!(parse_size("K", false), Err(Error::Invalid(Fault::SizeText)));
    assert_eq!(parse_size("-1", false), Err(Error::Invalid(Fault::SizeText)));
    assert_eq!(parse_size(" ", false), Err(Error::Invalid(Fault::SizeEmpty)));
    assert_eq!(
        parse_size("18446744073709551615K", false),
        Err(Error::Invalid(Fault::SizeOverflow))
    );
    assert_eq!(parse_size("18446744073709551615", false), Ok(u64::MAX));
    assert_eq!(
        parse_size("18446744073709551616", false),
        Err(Error::Invalid(Fault::SizeText))
    );
    assert_eq!(parse_size_or_zero(" "), Ok(0));
    assert_eq!(parse_size_or_zero("1K"), Ok(1024));
}

#[test]
fn attribute_lists() {
    assert_eq!(parse_attrs("readonly, slot_suffixed", false), Ok(3));
    assert_eq!(parse_attrs("", false), Ok(0));
    assert_eq!(parse_attrs("updated,disabled", true), Ok(12));
    assert_eq!(parse_attrs("none", true), Ok(0));
    assert_eq!(
        parse_attrs("readonly,none", false),
        Err(Error::Invalid(Fault::Attribute { word: 1 }))
    );
}

#[test]
fn slot_and_suffix_selectors() {
    for s in ["0", "a", "A", "_a", "_A"] {
        assert_eq!(parse_slot_opt(s), Ok(Some(0)));
    }
    for s in ["1", "b", "B", "_b", "_B"] {
        assert_eq!(parse_slot_opt(s), Ok(Some(1)));
    }
    assert_eq!(parse_slot_opt("7"), Ok(Some(7)));
    assert_eq!(parse_slot_opt("all"), Ok(None));
    assert_eq!(parse_slot_opt("8"), Err(Error::Invalid(Fault::SlotText)));
    assert_eq!(parse_suffix_opt("a"), Ok(Some("a")));
    assert_eq!(parse_suffix_opt("B"), Ok(Some("b")));
    assert_eq!(parse_suffix_opt("all"), Ok(None));
    assert_eq!(parse_suffix_opt("0"), Err(Error::Invalid(Fault::SuffixText)));
}

#[test]
fn partitions_to_extract() {
    let datas = vec![data()];
    assert_eq!(
        pick(&datas, None, Some("b")),
        Ok(vec![(0, 1), (0, 2)])
    );
    assert_eq!(pick(&datas, None, None).unwrap().len(), 5);
    assert_eq!(pick(&datas, Some("system_b"), None), Ok(vec![(0, 1)]));
    let both = || vec!["system_a".to_string(), "system_b".to_string()];
    assert_eq!(
        pick(&datas, Some("system"), None),
        Err(NameError::Ambiguous { names: both() })
    );
    assert_eq!(
        pick(&datas, Some("nope"), None),
        Err(NameError::Failed(Error::NotFound(Fault::Partition)))
    );
    assert_eq!(pick(&datas, Some("system"), Some("b")), Ok(vec![(0, 1)]));
    assert_eq!(
        pick(&vec![], None, None),
        Err(NameError::Failed(Error::NotFound(Fault::NothingSelected)))
    );
    // Every slot contributes its own.
    assert_eq!(
        pick(&vec![data(), data()], None, Some("b")),
        Ok(vec![(0, 1), (0, 2), (1, 1), (1, 2)])
    );
    assert_eq!(file_name("system_a"), "system_a.img");
}

#[test]
fn extraction_plans() {
    let datas = vec![data()];
    let picks = vec![(0, 0), (0, 2), (0, 3)];
    let plan = plan_extract(&datas, &picks, &vec![false, true, false], false);
    assert_eq!(plan.error, None);
    assert_eq!(
        plan.jobs.iter().map(|j| (j.name.as_str(), j.extents.len())).collect::<Vec<_>>(),
        vec![("system_a", 2), ("empty_a", 0)]
    );
    let forced = plan_extract(&datas, &picks, &vec![false, true, false], true);
    assert_eq!(forced.jobs[1].extents, vec![extent(6, 1, 7)]);
    let broken = plan_extract(&datas, &vec![(0, 4)], &vec![false], false);
    assert!(broken.jobs.is_empty());
    assert_eq!(broken.error, Some(Error::Invalid(Fault::ExtentIndex)));
    assert!(!needs_bindings(&datas, &vec![]));
    assert!(needs_bindings(&datas, &vec!["v.img".to_string()]));
    let device = |name: &str| BlockDevice {
        first_logical_sector: 0,
        alignment: 0,
        alignment_offset: 0,
        size: 0,
        partition_name: name.to_string(),
    };
    let mut split = data();
    split.devices = vec![device("a"), device("b")];
    assert!(needs_bindings(&vec![split], &vec![]));
}

#[test]
fn ranges_to_read() {
    let d = data();
    let text = |s: &str| Some(s.to_string());
    let plan = |skip: Option<String>, size: Option<String>| {
        plan_read(&d, 0, &skip, &size).map(|p| p.map(|p| (p.extents.len(), p.skip, p.len)))
    };
    assert_eq!(plan(None, None), Ok(Some((2, 0, 5120))));
    assert_eq!(plan(text("1K"), None), Ok(Some((2, 1024, 4096))));
    assert_eq!(plan(text("1K"), text("100")), Ok(Some((2, 1024, 100))));
    assert_eq!(plan(text("5K"), text("1")), Ok(None));
    assert_eq!(plan(None, text("1G")), Ok(Some((2, 0, 5120))));
    assert_eq!(plan(text("x"), None), Err(Error::Invalid(Fault::SizeText)));
    assert!(plan_read(&d, 3, &None, &None).unwrap().is_none());
    assert_eq!(
        plan_read(&d, 4, &None, &None).err(),
        Some(Error::Invalid(Fault::ExtentIndex))
    );
}

#[test]
fn update_states() {
    assert_eq!(state_name(5), Some("merge-completed"));
    assert_eq!(state_name(8), None);
    assert_eq!(read_varint(&vec![0xAC, 0x02], 0), Some((300, 2)));
    assert_eq!(read_varint(&vec![0, 0x7F], 1), Some((127, 1)));
    assert_eq!(read_varint(&vec![0x80], 0), None);
    assert_eq!(read_varint(&vec![1], 1), None);
    assert_eq!(read_varint(&vec![1], 2), None);
    assert_eq!(read_varint(&vec![1], usize::MAX), None);
    assert_eq!(
        read_varint(&vec![0xFF, 0xFF, 0xFF, 0xFF, 0xFF, 0xFF, 0xFF, 0xFF, 0x7F], 0),
        Some(((1 << 63) - 1, 9))
    );
    assert_eq!(read_varint(&vec![0xFF; 10], 0), None);
    // Field 2 (eight bytes), field 3 (text), field 4 (four bytes), then the state.
    let message = vec![
        0x11, 1, 2, 3, 4, 5, 6, 7, 8, 0x1A, 2, b'h', b'i', 0x25, 1, 2, 3, 4, 0x08, 3,
    ];
    assert_eq!(parse_proto_state(&message), Some("merging"));
    assert_eq!(parse_proto_state(&vec![]), None);
    assert_eq!(parse_proto_state(&vec![0x10, 1]), None);
    assert_eq!(parse_proto_state(&vec![0x1A, 9, 1]), None);
    assert_eq!(parse_proto_state(&vec![0x0B]), None);
    assert_eq!(parse_legacy_state(&b" cancelled\n".to_vec()), Some("cancelled"));
    assert_eq!(parse_legacy_state(&b"".to_vec()), Some("none"));
    assert_eq!(parse_legacy_state(&vec![0xFF]), None);
    assert_eq!(read_update_state(&vec![0x08, 1]), ("initiated", true));
    assert_eq!(read_update_state(&b"merge-failed".to_vec()), ("merge-failed", true));
    assert_eq!(read_update_state(&b"odd".to_vec()), ("none", false));
}

#[test]
fn mapping_tables() {
    let linear = build_linear_target(8, 4, "/dev/block/sda", 80);
    let params = b"/dev/block/sda 80\0";
    let next = (40 + params.len() + 7) / 8 * 8;
    assert_eq!(linear.len(), next);
    assert_eq!(linear[0..8], 8u64.to_le_bytes());
    assert_eq!(linear[8..16], 4u64.to_le_bytes());
    assert_eq!(linear[16..20], [0; 4]);
    assert_eq!(linear[20..24], (next as u32).to_le_bytes());
    assert_eq!(&linear[24..40], b"linear\0\0\0\0\0\0\0\0\0\0");
    assert_eq!(&linear[40..40 + params.len()], params);
    assert!(linear[40 + params.len()..].iter().all(|b| *b == 0));
    let zero = build_zero_target(12, 6);
    assert_eq!(zero.len(), 40);
    assert_eq!(zero[20..24], 40u32.to_le_bytes());
    assert_eq!(&zero[24..40], b"zero\0\0\0\0\0\0\0\0\0\0\0\0");
    let table = build_table(&vec![extent(8, 0, 64), extent(2, 1, 0)], "/dev/x").unwrap();
    let mut expected = build_linear_target(0, 8, "/dev/x", 64);
    expected.extend(build_zero_target(8, 2));
    assert_eq!(table, expected);
    assert_eq!(
        build_table(&vec![extent(1, 7, 0)], "/dev/x"),
        Err(Error::Invalid(Fault::ExtentType { target_type: 7 }))
    );
}

#[test]
fn mapping_requests() {
    let head = dm_request("system_a");
    assert_eq!(head.len(), 312);
    assert_eq!(head[0..4], 4u32.to_le_bytes());
    assert_eq!(head[12..16], 312u32.to_le_bytes());
    assert_eq!(&head[48..57], b"system_a\0");
    let long = dm_request(&"n".repeat(200));
    assert_eq!(long.len(), 312);
    assert_eq!(long[48 + 126], b'n');
    assert_eq!(long[48 + 127], 0);
    let d = data();
    let plan = plan_map(&d, 0, "/dev/x", false).unwrap();
    let table = build_table(&vec![extent(8, 0, 64), extent(2, 1, 0)], "/dev/x").unwrap();
    assert_eq!((plan.name.as_str(), plan.readonly, plan.targets), ("system_a", true, 2));
    assert_eq!(plan.load[12..16], ((312 + table.len()) as u32).to_le_bytes());
    assert_eq!(plan.load[16..20], 312u32.to_le_bytes());
    assert_eq!(plan.load[20..24], 2u32.to_le_bytes());
    assert_eq!(plan.load[28..32], 1u32.to_le_bytes());
    assert_eq!(plan.load[312..], table[..]);
    assert!(!plan_map(&d, 0, "/dev/x", true).unwrap().readonly);
    assert_eq!(
        plan_map(&d, 3, "/dev/x", false).err(),
        Some(Error::Invalid(Fault::NoExtents))
    );
    let mut far = data();
    far.extents[0].num_sectors = u64::MAX;
    assert_eq!(
        plan_map(&far, 0, "/dev/x", false).err(),
        Some(Error::Invalid(Fault::SectorRange))
    );
}

#[test]
fn loop_windows() {
    let d = data();
    assert_eq!(list_candidates(&d, "system", None), vec![0, 1]);
    assert_eq!(list_candidates(&d, "system", Some("b")), vec![1]);
    let window = |name: &str, suffix: Option<&str>, linear: bool| {
        loop_window(&d, name, suffix, linear)
    };
    assert_eq!(
        window("system", Some("b"), true),
        Ok(LoopWindow { index: 1, offset: 80 * 512, size: 4 * 512 })
    );
    assert_eq!(window("system", None, true), Err(NameError::Ambiguous { names: vec!["system_a".to_string(), "system_b".to_string()] }));
    assert_eq!(window("nope", None, true), Err(NameError::Failed(Error::NotFound(Fault::Partition))));
    assert_eq!(
        window("system_a", None, true),
        Err(NameError::Failed(Error::Invalid(Fault::Fragmented { extents: 2 })))
    );
    assert_eq!(window("empty_a", None, true), Err(NameError::Failed(Error::Invalid(Fault::NoExtents))));
    assert_eq!(window("odm", None, true), Err(NameError::Failed(Error::Invalid(Fault::NotLinear))));
    assert!(window("odm", None, false).is_ok());
    let mut far = data();
    far.extents[2].target_data = u64::MAX;
    assert_eq!(
        loop_window(&far, "system_b", None, true),
        Err(NameError::Failed(Error::Invalid(Fault::PhysicalOffset)))
    );
    far.partitions[1].first_extent_index = 99;
    assert_eq!(
        loop_window(&far, "system_b", None, true),
        Err(NameError::Failed(Error::Invalid(Fault::ExtentIndex)))
    );
}

#[test]
fn loop_devices() {
    let info = loop_info(4096, 8192, LO_FLAGS_PARTSCAN);
    assert_eq!(info.len() as u64, LOOP_INFO_SIZE as u64);
    assert_eq!(info[24..32], 4096u64.to_le_bytes());
    assert_eq!(info[32..40], 8192u64.to_le_bytes());
    assert_eq!(info[52..56], 8u32.to_le_bytes());
    assert!(info_matches(&info, 4096, 8192));
    assert!(!info_matches(&info, 4096, 8193));
    assert!(!info_matches(&vec![0; 39], 0, 0));
    assert!(backing_matches("/data/super.img\n", "/data/super.img"));
    assert!(backing_matches("/data/super.img (deleted)\n", "/data/super.img"));
    assert!(!backing_matches("/data/other.img\n", "/data/super.img"));
    assert_eq!(loop_path(14, false), "/dev/loop14");
    assert_eq!(loop_path(3, true), "/dev/block/loop3");
    let node = |exists_here: bool, busy: bool| LoopNode { exists_here, busy };
    assert_eq!(pick_loop(9, &vec![node(false, false), node(true, true), node(true, false)]), 2);
    assert_eq!(pick_loop(9, &vec![node(true, true)]), 9);
}
