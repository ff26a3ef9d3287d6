use super_image_worker::error::{Error, Fault, NameError};
use super_image_worker::format::{
    BlockDevice, Extent, Geometry, Group, MetadataHeader, Partition, TableDescriptor,
};
use super_image_worker::reader::data::{slot_to_suffix, suffix_to_slot, SuperData};

fn data(parts: Vec<Partition>, extents: Vec<Extent>, groups: Vec<Group>) -> SuperData {
    let none = TableDescriptor { offset: 0, num_entries: 0, entry_size: 0 };
    SuperData {
        image_format: "raw".to_string(),
        image_size: 1 << 20,
        geometry: Geometry {
            metadata_max_size: 4096,
            metadata_slot_count: 2,
            logical_block_size: 4096,
        },
        geometry_offset: 0x1000,
        header: MetadataHeader {
            major_version: 10,
            minor_version: 2,
            header_size: 256,
            tables_size: 0,
            partitions: none,
            extents: none,
            groups: none,
            block_devices: none,
        },
        metadata_offset: 0x3000,
        metadata_slot: 0,
        partitions: parts,
        extents,
        groups,
        devices: vec![BlockDevice {
            first_logical_sector: 64,
            alignment: 4096,
            alignment_offset: 0,
            size: 1 << 20,
            partition_name: "super".to_string(),
        }],
    }
}

fn part(name: &str, first: u32, num: u32, group: u32) -> Partition {
    Partition {
        name: name.to_string(),
        attributes: 1,
        first_extent_index: first,
        num_extents: num,
        group_index: group,
    }
}

fn group(name: &str, max: u64) -> Group {
    Group { name: name.to_string(), flags: 0, maximum_size: max }
}

fn extent(n: u64, kind: u32, at: u64, source: u32) -> Extent {
    Extent { num_sectors: n, target_type: kind, target_data: at, target_source: source }
}

fn names(list: &[&str]) -> SuperData {
    data(list.iter().map(|n| part(n, 0, 0, 0)).collect(), vec![], vec![])
}

#[test]
fn sizes_are_sums_of_extents() {
    let d = data(
        vec![part("a", 0, 2, 0), part("b", 1, 5, 9), part("c", 9, 1, 0), part("d", 0, 0, 0)],
        vec![extent(8, 0, 64, 0), extent(4, 1, 0, 0)],
        vec![group("g", 77)],
    );
    assert_eq!(d.partition_sectors(&d.partitions[0]), 12);
    assert_eq!(d.partition_size(&d.partitions[0]), 12 * 512);
    // A chain that runs past the table is cut off.
    assert_eq!(d.partition_sectors(&d.partitions[1]), 4);
    assert_eq!(d.partition_size(&d.partitions[2]), 0);
    assert_eq!(d.partition_group_name(&d.partitions[0]), "g");
    assert_eq!(d.partition_group_name(&d.partitions[1]), "");
    assert_eq!(d.partition_group_max_size(&d.partitions[0]), 77);
    assert_eq!(d.partition_group_max_size(&d.partitions[1]), 0);
    assert_eq!(d.partition_first_phys_offset(&d.partitions[0]), 64 * 512);
    assert_eq!(d.partition_first_phys_offset(&d.partitions[1]), 0);
    assert_eq!(d.partition_first_phys_offset(&d.partitions[3]), 0);
    assert_eq!(d.partition_device_name(&d.partitions[0]), "super");
    assert_eq!(d.partition_device_name(&d.partitions[2]), "");
}

#[test]
fn sizes_saturate() {
    let d = data(
        vec![part("a", 0, 2, 0)],
        vec![extent(u64::MAX, 0, u64::MAX, 5), extent(1, 0, 0, 0)],
        vec![],
    );
    assert_eq!(d.partition_sectors(&d.partitions[0]), u64::MAX);
    assert_eq!(d.partition_size(&d.partitions[0]), u64::MAX);
    assert_eq!(d.partition_first_phys_offset(&d.partitions[0]), u64::MAX);
    assert_eq!(d.partition_device_name(&d.partitions[0]), "");
}

#[test]
fn suffixes_and_bases() {
    assert_eq!(SuperData::find_suffix("system_a"), Some("a"));
    assert_eq!(SuperData::find_suffix("system_b"), Some("b"));
    assert_eq!(SuperData::find_suffix("system"), None);
    assert_eq!(SuperData::find_suffix("system_A"), None);
    assert_eq!(SuperData::strip_suffix("system_a"), "system");
    assert_eq!(SuperData::strip_suffix("_b"), "");
    assert_eq!(SuperData::strip_suffix("data"), "data");
    assert_eq!(names(&["x_b", "y", "z_a", "w_b"]).available_suffixes(), vec!["a", "b"]);
    assert_eq!(names(&["x_b"]).available_suffixes(), vec!["b"]);
    assert!(names(&["x"]).available_suffixes().is_empty());
}

#[test]
fn suffix_and_slot_are_inverse() {
    for slot in 0..2u64 {
        assert_eq!(suffix_to_slot(slot_to_suffix(slot).unwrap()), Some(slot));
    }
    assert_eq!(suffix_to_slot("A"), Some(0));
    assert_eq!(suffix_to_slot("B"), Some(1));
    assert_eq!(suffix_to_slot("c"), None);
    assert_eq!(slot_to_suffix(2), None);
}

#[test]
fn suffix_filters_keep_slotless_partitions() {
    let d = names(&["system_a", "system_b", "data"]);
    let shown = |s| -> Vec<String> {
        d.filter_by_slot(s).iter().map(|p| p.name.clone()).collect()
    };
    assert_eq!(shown(None), vec!["system_a", "system_b", "data"]);
    assert_eq!(shown(Some("a")), vec!["system_a", "data"]);
    assert_eq!(shown(Some("b")), vec!["system_b", "data"]);
}

#[test]
fn names_resolve_exactly_or_by_base() {
    let d = names(&["system_a", "system_b", "data", "odm_a"]);
    assert_eq!(d.resolve_partition("system_b", None), Ok(1));
    assert_eq!(d.resolve_partition("system", Some("a")), Ok(0));
    assert_eq!(d.resolve_partition("odm", None), Ok(3));
    assert_eq!(d.resolve_partition("data", Some("b")), Ok(2));
    assert_eq!(
        d.resolve_partition("system", None),
        Err(NameError::Ambiguous {
            names: vec!["system_a".to_string(), "system_b".to_string()]
        })
    );
    assert_eq!(
        d.resolve_partition("system", None).unwrap_err().to_error(),
        Error::Invalid(Fault::Ambiguous)
    );
    assert_eq!(d.ambiguous_names("system", Some("a")), None);
    assert_eq!(d.matching_partitions("system", None), vec![0, 1]);
    assert_eq!(
        d.resolve_partition("vendor", None),
        Err(NameError::Failed(Error::NotFound(Fault::Partition)))
    );
    assert_eq!(
        d.resolve_partition("odm", Some("b")),
        Err(NameError::Failed(Error::NotFound(Fault::Partition)))
    );
}

#[test]
fn groups_are_chosen_by_suffix_vendor_and_size() {
    let d = data(
        vec![],
        vec![],
        vec![
            group("default", 9),
            group("main_a", 50),
            group("google_dynamic_partitions_a", 10),
            group("qti_dynamic_partitions_a", 5),
            group("mtk_dynamic_partitions_b", 5),
            group("sec_dynamic_partitions_b", 1),
        ],
    );
    assert_eq!(d.select_group_for_name("system_a"), Some(3));
    assert_eq!(d.select_group_for_name("system_b"), Some(5));
    // Without a suffix the largest group is taken, the last of several.
    assert_eq!(d.select_group_for_name("data"), Some(1));
    let same = data(vec![], vec![], vec![group("x", 5), group("y", 5)]);
    assert_eq!(same.select_group_for_name("data"), Some(1));
    let tie = data(vec![], vec![], vec![group("x_a", 5), group("y_a", 5), group("z_a", 6)]);
    assert_eq!(tie.select_group_for_name("data_a"), Some(2));
    assert_eq!(names(&[]).select_group_for_name("data"), None);
}

#[test]
fn attributes_as_text() {
    assert_eq!(SuperData::partition_attr_string(0), "none");
    assert_eq!(SuperData::partition_attr_string(1), "readonly");
    assert_eq!(SuperData::partition_attr_string(6), "slot_suffixed|updated");
    assert_eq!(
        SuperData::partition_attr_string(15),
        "readonly|slot_suffixed|updated|disabled"
    );
    assert_eq!(SuperData::partition_attr_string(16), "none");
}
