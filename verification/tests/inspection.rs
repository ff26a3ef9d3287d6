use super_image_worker::commands::info::{choose_columns, choose_sections, InfoArgs};
use super_image_worker::format::{
    BlockDevice, Extent, Geometry, Group, MetadataHeader, Partition, TableDescriptor,
};
use super_image_worker::output::fields::human_size;
use super_image_worker::output::get::{get_value, GetError};
use super_image_worker::output::human::{human_lines, Sections};
use super_image_worker::output::json::{
    json_document, json_value, slots_record, JsonDocument, JsonField, JsonScalar,
};
use super_image_worker::output::rows::{env_lines, tsv_lines, write_variable_stem, TsvOptions};
use super_image_worker::reader::data::SuperData;

fn part(name: &str, attributes: u32, first: u32, num: u32, group: u32) -> Partition {
    Partition {
        name: name.to_string(),
        attributes,
        first_extent_index: first,
        num_extents: num,
        group_index: group,
    }
}

fn extent(n: u64, kind: u32, at: u64, source: u32) -> Extent {
    Extent { num_sectors: n, target_type: kind, target_data: at, target_source: source }
}

fn device(name: &str) -> BlockDevice {
    BlockDevice {
        first_logical_sector: 2048,
        alignment: 1048576,
        alignment_offset: 512,
        size: 4 << 20,
        partition_name: name.to_string(),
    }
}

fn data() -> SuperData {
    let none = TableDescriptor { offset: 0, num_entries: 0, entry_size: 0 };
    SuperData {
        image_format: "raw".to_string(),
        image_size: 1536,
        geometry: Geometry {
            metadata_max_size: 65536,
            metadata_slot_count: 2,
            logical_block_size: 4096,
        },
        geometry_offset: 0x1000,
        header: MetadataHeader {
            major_version: 10,
            minor_version: 2,
            header_size: 256,
            tables_size: 400,
            partitions: none,
            extents: none,
            groups: none,
            block_devices: none,
        },
        metadata_offset: 0x13000,
        metadata_slot: 1,
        partitions: vec![
            part("system_a", 1, 0, 2, 0),
            part("my-data_b", 2, 2, 1, 1),
            part("odm", 0, 3, 0, 7),
        ],
        extents: vec![extent(8, 0, 2048, 0), extent(2, 1, 0, 0), extent(4, 9, 3, 5)],
        groups: vec![
            Group { name: "main".to_string(), flags: 16, maximum_size: 1 << 30 },
            Group { name: "rest".to_string(), flags: 0, maximum_size: 0 },
        ],
        devices: vec![device("super"), device("vendor")],
    }
}

#[test]
fn sizes_for_people() {
    assert_eq!(human_size(0), "0 B");
    assert_eq!(human_size(1023), "1023 B");
    assert_eq!(human_size(1024), "1.00 KiB");
    assert_eq!(human_size(1536), "1.50 KiB");
    assert_eq!(human_size((5 << 20) + (1 << 14)), "5.01 MiB");
    assert_eq!(human_size(9 << 30), "9.00 GiB");
    assert_eq!(human_size(3 << 40), "3.00 TiB");
}

#[test]
fn values_of_the_image() {
    let d = data();
    let get = |key: &str| get_value(&d, key).unwrap();
    assert_eq!(get("format"), "raw");
    assert_eq!(get("size"), "1536");
    assert_eq!(get("size_human"), "1.50 KiB");
    assert_eq!(get("geometry_offset"), "0x1000");
    assert_eq!(get("metadata_offset"), "0x13000");
    assert_eq!(get("metadata_slot"), "1");
    assert_eq!(get("metadata_max_size"), "65536");
    assert_eq!(get("metadata_slot_count"), "2");
    assert_eq!(get("logical_block_size"), "4096");
    assert_eq!(get("metadata_version"), "10.2");
    assert_eq!(get("header_size"), "256");
    assert_eq!(get("tables_size"), "400");
    assert_eq!(get("available_suffixes"), "a,b");
    assert_eq!(get("partition_count"), "3");
    assert_eq!(get("groups"), "main rest");
    assert_eq!(get("devices"), "super vendor");
}

#[test]
fn values_of_partitions() {
    let d = data();
    let get = |field: &str| get_value(&d, &format!("partitions.system_a.{field}")).unwrap();
    assert_eq!(get("name"), "system_a");
    assert_eq!(get("base_name"), "system");
    assert_eq!(get("suffix"), "a");
    assert_eq!(get("group"), "main");
    assert_eq!(get("group_index"), "0");
    assert_eq!(get("group_max_size"), "1073741824");
    assert_eq!(get("group_max_size_human"), "1.00 GiB");
    assert_eq!(get("size"), "5120");
    assert_eq!(get("size_human"), "5.00 KiB");
    assert_eq!(get("sectors"), "10");
    assert_eq!(get("extents"), "2");
    assert_eq!(get("attrs"), "readonly");
    assert_eq!(get("attributes"), "1");
    assert_eq!(get("first_extent"), "0");
    assert_eq!(get("first_phys_offset"), "1048576");
    assert_eq!(get("first_phys_offset_hex"), "0x100000");
    assert_eq!(get("device"), "super");
    assert_eq!(get("readonly"), "true");
    assert_eq!(get("slot_suffixed"), "false");
    assert_eq!(get_value(&d, "partition.my-data_b.slot_suffixed").unwrap(), "true");
    assert_eq!(get_value(&d, "partition.odm.suffix").unwrap(), "");
}

#[test]
fn values_of_extents_groups_and_devices() {
    let d = data();
    let get = |key: &str| get_value(&d, key).unwrap();
    assert_eq!(get("partitions.system_a.extent.0.type"), "linear");
    assert_eq!(get("partitions.system_a.extent.0.sectors"), "8");
    assert_eq!(get("partitions.system_a.extent.0.size"), "4096");
    assert_eq!(get("partitions.system_a.extent.0.size_human"), "4.00 KiB");
    assert_eq!(get("partitions.system_a.extent.0.phys_offset"), "1048576");
    assert_eq!(get("partitions.system_a.extent.0.phys_offset_hex"), "0x100000");
    assert_eq!(get("partitions.system_a.extent.0.target_data"), "2048");
    assert_eq!(get("partitions.system_a.extent.0.target_source"), "0");
    assert_eq!(get("partitions.system_a.extent.0.device"), "super");
    assert_eq!(get("partition.system_a.extent.1.type"), "zero");
    assert_eq!(get("partition.system_a.extent.+1.phys_offset_hex"), "0x0");
    assert_eq!(get("partition.my-data_b.extent.0.type"), "unknown");
    assert_eq!(get("partition.my-data_b.extent.0.device"), "");
    assert_eq!(get("group.main.name"), "main");
    assert_eq!(get("group.main.flags"), "16");
    assert_eq!(get("group.main.max_size"), "1073741824");
    assert_eq!(get("group.rest.max_size_human"), "0 B");
    assert_eq!(get("device.vendor.name"), "vendor");
    assert_eq!(get("device.vendor.first_sector"), "2048");
    assert_eq!(get("device.vendor.alignment"), "1048576");
    assert_eq!(get("device.vendor.size"), "4194304");
    assert_eq!(get("device.vendor.size_human"), "4.00 MiB");
}

#[test]
fn keys_without_a_value() {
    let mut d = data();
    d.partitions[2].num_extents = 1;
    let fail = |key: &str| get_value(&d, key).err();
    assert_eq!(fail("nothing"), Some(GetError::Key));
    assert_eq!(fail(""), Some(GetError::Key));
    assert_eq!(fail("groups.main.name"), Some(GetError::Key));
    assert_eq!(fail("partitions.system_a"), Some(GetError::Key));
    assert_eq!(fail("partitions.system_a.extents.0.size"), Some(GetError::Key));
    assert_eq!(fail("partitions.system_a.color"), Some(GetError::Field));
    assert_eq!(fail("partitions.nope.size"), Some(GetError::Partition));
    assert_eq!(fail("partitions.nope.extent.0.size"), Some(GetError::Partition));
    assert_eq!(fail("partitions.system_a.extent.x.size"), Some(GetError::ExtentText));
    assert_eq!(
        fail("partitions.system_a.extent.2.size"),
        Some(GetError::ExtentRange { index: 2, count: 2 })
    );
    assert_eq!(fail("partitions.odm.extent.0.size"), Some(GetError::Extent));
    assert_eq!(fail("partitions.system_a.extent.0.color"), Some(GetError::Field));
    assert_eq!(fail("group.nope.name"), Some(GetError::Group));
    assert_eq!(fail("group.main.color"), Some(GetError::Field));
    assert_eq!(fail("device.nope.name"), Some(GetError::Device));
    assert_eq!(fail("device.super.color"), Some(GetError::Field));
}

#[test]
fn tab_separated_rows() {
    let d = data();
    let usual = TsvOptions::default();
    assert_eq!(
        tsv_lines(&d, None, &usual),
        vec![
            "name\tgroup\tsize\textents\tattrs",
            "system_a\tmain\t5.00 KiB\t2\treadonly",
            "my-data_b\trest\t2.00 KiB\t1\tslot_suffixed",
            "odm\t\t0 B\t0\tnone",
        ]
        .into_iter()
        .map(|s| s.replace("odm\t\t", &format!("odm\t{}\t", d.partition_group_name(&d.partitions[2]))))
        .collect::<Vec<String>>()
    );
    let columns: Vec<String> = [
        "base_name", "suffix", "group_index", "group_max_size", "size", "size_bytes", "sectors",
        "attributes", "first_extent", "first_phys_offset", "first_phys_offset_hex", "device",
        "readonly", "color",
    ]
    .iter()
    .map(|s| s.to_string())
    .collect();
    let all = TsvOptions { header: false, columns, bytes: true };
    assert_eq!(
        tsv_lines(&d, Some("a"), &all)[0],
        "system\ta\t0\t1073741824\t5120\t5120\t10\t1\t0\t1048576\t0x100000\tsuper\ttrue\t"
    );
    // A partition without a suffix passes every filter.
    assert_eq!(tsv_lines(&d, Some("a"), &all).len(), 2);
}

#[test]
fn shell_variables() {
    let d = data();
    let lines = env_lines(&d, Some("b"));
    assert_eq!(
        lines[..11],
        [
            "SUPER_IMAGE_FORMAT=raw",
            "SUPER_IMAGE_SIZE=1536",
            "SUPER_GEOMETRY_OFFSET=0x1000",
            "SUPER_METADATA_OFFSET=0x13000",
            "SUPER_METADATA_SLOT=1",
            "SUPER_METADATA_MAX_SIZE=65536",
            "SUPER_METADATA_SLOT_COUNT=2",
            "SUPER_LOGICAL_BLOCK_SIZE=4096",
            "SUPER_METADATA_VERSION=10.2",
            "SUPER_AVAILABLE_SUFFIXES=a,b",
            "SUPER_PARTITION_COUNT=2",
        ]
    );
    assert_eq!(
        lines[11..20],
        [
            "SUPER_PART_0_NAME=my-data_b",
            "SUPER_PART_0_BASE_NAME=my-data",
            "SUPER_PART_0_SUFFIX=b",
            "SUPER_PART_0_GROUP=rest",
            "SUPER_PART_0_SIZE=2048",
            "SUPER_PART_0_SIZE_HUMAN=2.00 KiB",
            "SUPER_PART_0_EXTENTS=1",
            "SUPER_PART_0_ATTRS=slot_suffixed",
            "SUPER_PART_MY_DATA_B_SIZE=2048",
        ]
    );
    assert_eq!(lines.len(), 29);
    assert_eq!(write_variable_stem("A-B_C"), "SUPER_PART_A_B_C");
}

#[test]
fn the_overview() {
    let d = data();
    let none = Sections {
        info: false,
        groups: false,
        devices: false,
        partitions: false,
        extents: false,
        mapping: false,
    };
    assert!(human_lines(&d, None, &none).is_empty());
    assert_eq!(
        human_lines(&d, None, &Sections { info: true, ..none }),
        vec![
            "=== Super Partition Info ===",
            "format: raw",
            "size: 1536 (1.50 KiB)",
            "geometry_offset: 0x1000",
            "metadata_offset: 0x13000 (slot 1)",
            "metadata_max_size: 65536",
            "metadata_slot_count: 2",
            "logical_block_size: 4096",
            "metadata_version: 10.2",
            "header_size: 256",
            "tables_size: 400",
            "available_suffixes: a,b",
            "",
        ]
    );
    assert_eq!(
        human_lines(&d, None, &Sections { groups: true, devices: true, ..none }),
        vec![
            "=== Groups (2) ===",
            "[0] name=main flags=0x10 max_size=1073741824 (1.00 GiB)",
            "[1] name=rest flags=0x0 max_size=0 (0 B)",
            "",
            "=== Block Devices (2) ===",
            "[0] name=super first_sector=2048 alignment=1048576 size=4194304 (4.00 MiB)",
            "[1] name=vendor first_sector=2048 alignment=1048576 size=4194304 (4.00 MiB)",
            "",
        ]
    );
    assert_eq!(
        human_lines(&d, Some("b"), &Sections { partitions: true, ..none })[..2],
        [
            "=== Partitions (2) ===",
            "[0] name=my-data_b group=rest attrs=[slot_suffixed] extents=1 size=2048 (2.00 KiB)",
        ]
    );
    assert_eq!(
        human_lines(&d, None, &Sections { extents: true, mapping: true, ..none }),
        vec![
            "=== Extents (3) ===",
            "[0] type=linear sectors=8 size=4096 phys_offset=0x100000 device=super",
            "[1] type=zero sectors=2 size=1024",
            "[2] type=9 sectors=4 size=2048",
            "",
            "=== Partition -> Extent Mapping ===",
            "\"system_a\":",
            "  extent[0]: linear dev=super 0x100000..0x101000 (4.00 KiB)",
            "  extent[1]: zero (1.00 KiB)",
            "\"my-data_b\":",
            "  extent[2]: type=9 (2.00 KiB)",
            "\"odm\":",
        ]
    );
}

fn shown(fields: &[JsonField]) -> Vec<String> {
    fields
        .iter()
        .map(|f| match &f.value {
            JsonScalar::Text(t) => format!("{}:'{}'", f.key, t),
            JsonScalar::Number(n) => format!("{}:{}", f.key, n),
        })
        .collect()
}

#[test]
fn records() {
    let d = data();
    let j = json_value(&d, Some("a"));
    assert_eq!(
        shown(&j.image),
        vec![
            "image_format:'raw'",
            "image_size:1536",
            "image_size_human:'1.50 KiB'",
            "geometry_offset:'0x1000'",
            "metadata_offset:'0x13000'",
            "metadata_slot:1",
            "metadata_max_size:65536",
            "metadata_slot_count:2",
            "logical_block_size:4096",
            "metadata_version:'10.2'",
            "header_size:256",
            "tables_size:400",
        ]
    );
    assert_eq!(j.available_suffixes, vec!["a", "b"]);
    assert_eq!(
        shown(&j.groups[0]),
        vec!["name:'main'", "flags:16", "max_size:1073741824", "max_size_human:'1.00 GiB'"]
    );
    assert_eq!(
        shown(&j.devices[1]),
        vec![
            "name:'vendor'",
            "first_sector:2048",
            "alignment:1048576",
            "alignment_offset:512",
            "size:4194304",
            "size_human:'4.00 MiB'",
        ]
    );
    assert_eq!(j.partitions.len(), 2);
    assert_eq!(
        shown(&j.partitions[0]),
        vec![
            "name:'system_a'",
            "base_name:'system'",
            "suffix:'a'",
            "group:'main'",
            "group_index:0",
            "group_max_size:1073741824",
            "attributes:1",
            "attrs:'readonly'",
            "num_extents:2",
            "first_extent:0",
            "first_phys_offset:1048576",
            "device:'super'",
            "size:5120",
            "size_human:'5.00 KiB'",
            "sectors:10",
        ]
    );
    assert_eq!(
        shown(&j.extents[2]),
        vec![
            "type:'unknown'",
            "type_id:9",
            "sectors:4",
            "size:2048",
            "size_human:'2.00 KiB'",
            "phys_offset:0",
            "target_data:3",
            "target_source:5",
            "device:'?'",
        ]
    );
    assert_eq!(
        shown(&slots_record(&vec![data(), data()])),
        vec![
            "image_format:'raw'",
            "image_size:1536",
            "metadata_slot_count:2",
            "slot_count:2",
            "total_partitions:6",
        ]
    );
}

fn info_args() -> InfoArgs {
    InfoArgs {
        image: "super.img".to_string(),
        format: "human".to_string(),
        slot: "all".to_string(),
        suffix: "all".to_string(),
        no_header: false,
        columns: None,
        bytes: false,
        info: false,
        partitions: false,
        extents: false,
        groups: false,
        devices: false,
        mapping: false,
        all: false,
        get: None,
        device: vec![],
        list_keys: false,
    }
}

#[test]
fn sections_and_columns() {
    let s = choose_sections(&info_args());
    assert!(s.info && s.groups && s.devices && s.partitions && s.extents && s.mapping);
    let mut a = info_args();
    a.extents = true;
    let s = choose_sections(&a);
    assert!(s.extents && !s.info && !s.groups && !s.devices && !s.partitions && !s.mapping);
    a.all = true;
    assert!(choose_sections(&a).mapping);
    assert_eq!(
        choose_columns(&info_args()).columns,
        vec!["name", "group", "size", "extents", "attrs"]
    );
    let mut b = info_args();
    b.columns = Some("name, size_bytes,".to_string());
    b.no_header = true;
    b.bytes = true;
    let o = choose_columns(&b);
    assert_eq!(o.columns, vec!["name", "size_bytes", ""]);
    assert!(!o.header && o.bytes);
}

#[test]
fn documents() {
    match json_document(&vec![data()], Some("a")) {
        JsonDocument::One(slot) => {
            assert_eq!(shown(&slot.image), shown(&json_value(&data(), None).image));
            assert_eq!(slot.partitions.len(), 2);
        }
        JsonDocument::Several { .. } => panic!("one slot"),
    }
    match json_document(&vec![data(), data(), data()], None) {
        JsonDocument::One(_) => panic!("three slots"),
        JsonDocument::Several { head, slots } => {
            assert_eq!(shown(&head)[3..], ["slot_count:3", "total_partitions:9"]);
            assert_eq!(slots.len(), 3);
            assert_eq!(slots[2].partitions.len(), 3);
        }
    }
    match json_document(&vec![], None) {
        JsonDocument::One(_) => panic!("no slot"),
        JsonDocument::Several { head, slots } => {
            assert_eq!(
                shown(&head),
                vec![
                    "image_format:''",
                    "image_size:0",
                    "metadata_slot_count:0",
                    "slot_count:0",
                    "total_partitions:0",
                ]
            );
            assert!(slots.is_empty());
        }
    }
}
