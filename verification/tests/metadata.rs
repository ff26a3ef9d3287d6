use sha2::Digest;
use super_image_worker::commands::commit::commit;
use super_image_worker::error::{Error, Fault};
use super_image_worker::format::{
    BlockDevice, Extent, Geometry, Group, MetadataHeader, Partition, TableDescriptor,
};
use super_image_worker::reader::load::{load_super, load_super_all, load_super_in_slot};
use super_image_worker::reader::parser::{check_geometry_record, holds_digest, LpParser};
use super_image_worker::reader::source::MemorySource;
use super_image_worker::writer::LpWriter;

const MAX: u32 = 4096;
const SLOTS: u32 = 2;

fn header() -> MetadataHeader {
    let none = TableDescriptor { offset: 0, num_entries: 0, entry_size: 0 };
    MetadataHeader {
        major_version: 10,
        minor_version: 2,
        header_size: 256,
        tables_size: 0,
        partitions: none,
        extents: none,
        groups: none,
        block_devices: none,
    }
}

fn partition(name: &str, first: u32, num: u32) -> Partition {
    Partition {
        name: name.to_string(),
        attributes: 1,
        first_extent_index: first,
        num_extents: num,
        group_index: 0,
    }
}

fn group(name: &str) -> Group {
    Group { name: name.to_string(), flags: 0, maximum_size: 1 << 20 }
}

fn device(name: &str) -> BlockDevice {
    BlockDevice {
        first_logical_sector: 56,
        alignment: 4096,
        alignment_offset: 0,
        size: 1 << 20,
        partition_name: name.to_string(),
    }
}

fn extent(at: u64) -> Extent {
    Extent { num_sectors: 8, target_type: 0, target_data: at, target_source: 0 }
}

fn slot(parts: &[Partition]) -> Vec<u8> {
    LpWriter::render_slot(
        &header(),
        parts,
        &[extent(56), extent(64)],
        &[group("default")],
        &[device("super")],
        MAX,
    )
    .unwrap()
}

fn image(slots: &[(u64, Vec<u8>)]) -> Vec<u8> {
    let mut c = vec![0u8; 0x3000 + 4 * MAX as usize + 0x1000];
    let g = LpWriter::render_geometry(MAX, SLOTS, 4096).unwrap();
    c[0x1000..0x1000 + g.len()].copy_from_slice(&g);
    c[0x2000..0x2000 + g.len()].copy_from_slice(&g);
    for (s, data) in slots {
        for k in [*s, *s + SLOTS as u64] {
            let at = 0x3000 + k as usize * MAX as usize;
            c[at..at + data.len()].copy_from_slice(data);
        }
    }
    c
}

fn file(data: Vec<u8>) -> MemorySource {
    MemorySource { data }
}

#[test]
fn geometry_has_its_layout_and_checksum() {
    let g = LpWriter::render_geometry(65536, 3, 4096).unwrap();
    assert_eq!(g.len(), 0x34);
    assert_eq!(&g[0..4], &0x616c_4467u32.to_le_bytes());
    assert_eq!(&g[4..8], &0x34u32.to_le_bytes());
    assert_eq!(&g[0x28..0x2C], &65536u32.to_le_bytes());
    assert_eq!(&g[0x2C..0x30], &3u32.to_le_bytes());
    assert_eq!(&g[0x30..0x34], &4096u32.to_le_bytes());
    let mut blank = g.clone();
    blank[8..0x28].fill(0);
    let digest = sha2::Sha256::digest(&blank);
    assert_eq!(&g[8..0x28], digest.as_slice());
}

#[test]
fn geometry_bounds() {
    let fault = |m, s, b| LpWriter::render_geometry(m, s, b).err();
    assert_eq!(fault(0, 1, 4096), Some(Error::Invalid(Fault::MetadataMaxSize)));
    assert_eq!(fault(16 * 1024 * 1024 + 1, 1, 4096), Some(Error::Invalid(Fault::MetadataMaxSize)));
    assert_eq!(fault(4096, 0, 4096), Some(Error::Invalid(Fault::MetadataSlotCount)));
    assert_eq!(fault(4096, 9, 4096), Some(Error::Invalid(Fault::MetadataSlotCount)));
    assert_eq!(fault(4096, 1, 1024), Some(Error::Invalid(Fault::LogicalBlockSize)));
    assert_eq!(fault(4096, 8, 512), None);
}

#[test]
fn slots_have_their_layout_and_checksums() {
    let s = slot(&[partition("system_a", 0, 2)]);
    assert_eq!(s.len(), MAX as usize);
    assert_eq!(&s[0..4], &0x414c_5030u32.to_le_bytes());
    assert_eq!(&s[4..8], &[10, 0, 2, 0]);
    assert_eq!(&s[8..12], &256u32.to_le_bytes());
    let tables = 52 + 2 * 24 + 48 + 64;
    assert_eq!(&s[0x2C..0x30], &(tables as u32).to_le_bytes());
    assert_eq!(&s[0x30..0x50], sha2::Sha256::digest(&s[256..256 + tables]).as_slice());
    let mut head = s[..256].to_vec();
    head[0x0C..0x2C].fill(0);
    assert_eq!(&s[0x0C..0x2C], sha2::Sha256::digest(&head).as_slice());
    assert_eq!(&s[256..264], b"system_a");
    assert_eq!(&s[256 + 0x2C..256 + 0x30], &2u32.to_le_bytes());
    assert_eq!(&s[256 + 52..256 + 60], &8u64.to_le_bytes());
    assert_eq!(&s[256 + tables..], &vec![0u8; MAX as usize - 256 - tables][..]);
}

#[test]
fn what_was_written_loads() {
    let c = image(&[(0, slot(&[partition("system_a", 0, 2), partition("vendor_a", 2, 0)]))]);
    let d = load_super(file(c)).unwrap();
    assert_eq!(d.image_format, "raw");
    assert_eq!(d.metadata_slot, 0);
    assert_eq!(d.metadata_offset, 0x3000);
    assert_eq!(d.geometry_offset, 0x1000);
    assert_eq!(d.partitions, vec![partition("system_a", 0, 2), partition("vendor_a", 2, 0)]);
    assert_eq!(d.extents, vec![extent(56), extent(64)]);
    assert_eq!(d.groups, vec![group("default")]);
    assert_eq!(d.devices, vec![device("super")]);
}

#[test]
fn each_slot_loads_on_its_own() {
    let c = image(&[
        (0, slot(&[partition("system_a", 0, 2)])),
        (1, slot(&[partition("system_b", 0, 2)])),
    ]);
    let one = load_super_in_slot(file(c.clone()), 1).unwrap();
    assert_eq!(one.partitions[0].name, "system_b");
    assert_eq!(one.metadata_slot, 1);
    let all = load_super_all(file(c.clone())).unwrap();
    assert_eq!(all.len(), 2);
    assert_eq!(
        load_super_in_slot(file(c), 2).err(),
        Some(Error::NotFound(Fault::SlotRange { slot: 2, count: 2 }))
    );
}

#[test]
fn a_corrupt_primary_falls_back_to_the_backup() {
    let mut c = image(&[(1, slot(&[partition("system_b", 0, 2)]))]);
    c[0x1000] ^= 1;
    c[0x3000 + MAX as usize + 300] ^= 1;
    let d = load_super(file(c.clone())).unwrap();
    assert_eq!(d.geometry_offset, 0x2000);
    assert_eq!(d.metadata_slot, 1);
    assert_eq!(d.metadata_offset, 0x3000 + 3 * MAX as u64);
    // A change written from the backup goes to both copies of the slot.
    let w = commit(&d).unwrap();
    assert_eq!((w.slot, w.primary, w.backup), (1, 0x3000 + MAX as u64, 0x3000 + 3 * MAX as u64));
    c[0x3000 + 3 * MAX as usize + 300] ^= 1;
    assert_eq!(load_super(file(c.clone())).err(), Some(Error::NotFound(Fault::Metadata)));
    assert_eq!(load_super_all(file(c.clone())).err(), Some(Error::NotFound(Fault::Metadata)));
    assert_eq!(
        load_super_in_slot(file(c), 1).err(),
        Some(Error::NotFound(Fault::Slot { slot: 1 }))
    );
}

#[test]
fn a_displaced_geometry_is_found() {
    let mut c = image(&[(0, slot(&[partition("system_a", 0, 2)]))]);
    let g = c[0x1000..0x1034].to_vec();
    c[0x1000] = 0;
    c[0x2000] = 0;
    assert_eq!(
        load_super(file(c.clone())).err(),
        Some(Error::Invalid(Fault::GeometryMagic { offset: 0x2000 }))
    );
    let at = 0x7000;
    assert_eq!(at % 0x1000, 0);
    c[at..at + 0x34].copy_from_slice(&g);
    let found = LpParser::new().find_geometry(&file(c)).unwrap();
    assert_eq!(found.1, at as u64);
    assert_eq!(
        found.0,
        Geometry { metadata_max_size: MAX, metadata_slot_count: SLOTS, logical_block_size: 4096 }
    );
}

#[test]
fn geometry_errors() {
    assert_eq!(
        load_super(file(vec![0u8; 0x800])).err(),
        Some(Error::NotFound(Fault::Geometry))
    );
    let mut c = vec![0u8; 0x3000];
    let g = LpWriter::render_geometry(MAX, SLOTS, 4096).unwrap();
    c[0x2000..0x2034].copy_from_slice(&g);
    c[0x2028] ^= 4;
    assert_eq!(
        load_super(file(c)).err(),
        Some(Error::Invalid(Fault::GeometryChecksum { offset: 0x2000 }))
    );
}

#[test]
fn updating_a_slot_leaves_the_others_alone() {
    let mut c = image(&[
        (0, slot(&[partition("system_a", 0, 2)])),
        (1, slot(&[partition("system_b", 0, 2)])),
    ]);
    let before = c.clone();
    let mut d = load_super_in_slot(file(c.clone()), 0).unwrap();
    d.partitions[0].name = "product_a".to_string();
    let w = commit(&d).unwrap();
    assert_eq!((w.primary, w.backup), (0x3000, 0x3000 + 2 * MAX as u64));
    for at in [w.primary as usize, w.backup as usize] {
        c[at..at + w.data.len()].copy_from_slice(&w.data);
    }
    let m = MAX as usize;
    assert_eq!(c[..0x3000], before[..0x3000]);
    assert_eq!(c[0x3000 + m..0x3000 + 2 * m], before[0x3000 + m..0x3000 + 2 * m]);
    assert_eq!(c[0x3000 + 3 * m..], before[0x3000 + 3 * m..]);
    let again = load_super_in_slot(file(c), 0).unwrap();
    assert_eq!(again.partitions[0].name, "product_a");
    assert_eq!(again.extents, d.extents);
}

#[test]
fn write_errors() {
    let d = load_super(file(image(&[(0, slot(&[partition("system_a", 0, 2)]))]))).unwrap();
    let w = LpWriter::new();
    let put = |g: &Geometry, at: u64| {
        w.write_metadata(g, at, &d.header, &d.partitions, &d.extents, &d.groups, &d.devices).err()
    };
    let none = Geometry { metadata_max_size: 0, ..d.geometry };
    assert_eq!(put(&none, 0x3000), Some(Error::Invalid(Fault::MetadataMaxSize)));
    assert_eq!(put(&d.geometry, 0x3001), Some(Error::Invalid(Fault::SlotBase)));
    assert_eq!(
        put(&d.geometry, 0x3000 + 4 * MAX as u64),
        Some(Error::Invalid(Fault::SlotIndex))
    );
    let huge = Geometry { metadata_max_size: u32::MAX, metadata_slot_count: u32::MAX, ..d.geometry };
    let far = 0x3000 + u32::MAX as u64 * 0xffff_fff0;
    assert_eq!(put(&huge, far), Some(Error::Invalid(Fault::SlotOffset)));
}

#[test]
fn slot_errors() {
    let render = |h: &MetadataHeader, p: &[Partition], g: &[Group], d: &[BlockDevice], max: u32| {
        LpWriter::render_slot(h, p, &[], g, d, max).err()
    };
    let h = header();
    assert_eq!(render(&h, &[], &[], &[], 0), Some(Error::Invalid(Fault::MetadataMaxSize)));
    let long = "x".repeat(37);
    assert_eq!(
        render(&h, &[partition(&long, 0, 0)], &[], &[], MAX),
        Some(Error::Invalid(Fault::PartitionName))
    );
    assert_eq!(
        render(&h, &[], &[group(&long)], &[], MAX),
        Some(Error::Invalid(Fault::GroupName))
    );
    assert_eq!(
        render(&h, &[], &[], &[device(&long)], MAX),
        Some(Error::Invalid(Fault::DeviceName))
    );
    let many: Vec<BlockDevice> = (0..17).map(|_| device("d")).collect();
    assert_eq!(render(&h, &[], &[], &many, MAX), Some(Error::Invalid(Fault::TableTooLarge)));
    assert_eq!(
        render(&h, &[partition("p", 0, 0)], &[], &[], 300),
        Some(Error::Invalid(Fault::MetadataTooLarge { needed: 308, max: 300 }))
    );
    let small = MetadataHeader { header_size: 0x7f, ..header() };
    assert_eq!(render(&small, &[], &[], &[], MAX), Some(Error::Invalid(Fault::HeaderSize)));
}

fn resign(c: &mut [u8], at: usize) {
    let size = u32::from_le_bytes(c[at + 8..at + 12].try_into().unwrap()) as usize;
    c[at + 0x0C..at + 0x2C].fill(0);
    let digest = sha2::Sha256::digest(&c[at..at + size]);
    c[at + 0x0C..at + 0x2C].copy_from_slice(&digest);
}

#[test]
fn table_errors() {
    let base = image(&[(0, slot(&[partition("system_a", 0, 2)]))]);
    let at = 0x3000usize;
    let with = |offset: usize, value: u32| {
        let mut c = base.clone();
        c[at + offset..at + offset + 4].copy_from_slice(&value.to_le_bytes());
        resign(&mut c, at);
        load_super(file(c)).err()
    };
    assert_eq!(with(0x58, 0), Some(Error::Invalid(Fault::EntrySizeZero)));
    assert_eq!(with(0x58, 1024 * 1024 + 1), Some(Error::Invalid(Fault::EntrySize)));
    assert_eq!(with(0x54, 65537), Some(Error::Invalid(Fault::EntryCount)));
    assert_eq!(with(0x58, 40), Some(Error::Invalid(Fault::FieldMissing)));
    assert_eq!(with(0x50, 0x7000_0000), Some(Error::Invalid(Fault::EntryBeyondImage)));
    // No more than sixteen block devices.
    assert_eq!(with(0x78, 17), Some(Error::Invalid(Fault::EntryCount)));
    let d = load_super(file(base.clone())).unwrap();
    let parser = LpParser::new();
    let image = file(base);
    assert_eq!(
        parser.read_partitions(&image, &d.header, u64::MAX).err(),
        Some(Error::Invalid(Fault::TableBase))
    );
    assert_eq!(
        parser.read_partitions(&image, &d.header, u64::MAX - 300).err(),
        Some(Error::Invalid(Fault::EntryOffset))
    );
}

#[test]
fn names_end_at_their_first_zero_byte() {
    let c = image(&[(0, slot(&[partition("sys\0tem", 0, 2)]))]);
    assert_eq!(load_super(file(c)).unwrap().partitions[0].name, "sys");
    let full = "n".repeat(36);
    let c = image(&[(0, slot(&[partition(&full, 0, 2)]))]);
    assert_eq!(load_super(file(c)).unwrap().partitions[0].name, full);
}

#[test]
fn names_that_are_not_utf8_are_read_lossily() {
    let mut c = image(&[(0, slot(&[partition("system_a", 0, 2)]))]);
    let at = 0x3000usize;
    c[at + 256] = 0xff;
    let digest = sha2::Sha256::digest(&c[at + 256..at + 256 + 212]);
    c[at + 0x30..at + 0x50].copy_from_slice(&digest);
    resign(&mut c, at);
    assert_eq!(load_super(file(c)).unwrap().partitions[0].name, "\u{fffd}ystem_a");
}

#[test]
fn records_with_given_checksums() {
    let g = Geometry { metadata_max_size: MAX, metadata_slot_count: SLOTS, logical_block_size: 4096 };
    let record = LpWriter::geometry_record(&g, &[7; 32]);
    assert_eq!(record.len(), 0x34);
    assert_eq!(record[0..4], 0x616c_4467u32.to_le_bytes());
    assert_eq!(record[4..8], 0x34u32.to_le_bytes());
    assert_eq!(check_geometry_record(&record, &[7; 32], 0x1000), Ok(g));
    assert_eq!(
        check_geometry_record(&record, &[8; 32], 0x1000),
        Err(Error::Invalid(Fault::GeometryChecksum { offset: 0x1000 }))
    );
    let mut other = record.clone();
    other[0] ^= 1;
    assert_eq!(
        check_geometry_record(&other, &[7; 32], 5),
        Err(Error::Invalid(Fault::GeometryMagic { offset: 5 }))
    );
    let mut slots = record.clone();
    slots[0x2C] = 9;
    assert_eq!(
        check_geometry_record(&slots, &[7; 32], 0),
        Err(Error::Invalid(Fault::MetadataSlotCount))
    );
    let header = LpWriter::header_record(&header(), &[1; 32], &[2; 32]);
    assert_eq!(header.len(), 256);
    assert!(holds_digest(&header, 0x0C, &[2; 32]));
    assert!(holds_digest(&header, 0x30, &[1; 32]));
    assert!(!holds_digest(&header, 0x30, &[2; 32]));
}

#[test]
fn a_slot_with_unreadable_tables_does_not_stop_the_others() {
    let parts = [partition("system_a", 0, 2)];
    let mut c = image(&[(0, slot(&parts)), (1, slot(&parts))]);
    for at in [0x3000usize, 0x3000 + 2 * MAX as usize] {
        // Table entries of size zero, under a valid checksum.
        c[at + 0x58..at + 0x5C].fill(0);
        resign(&mut c, at);
    }
    assert_eq!(
        load_super_in_slot(file(c.clone()), 0).err(),
        Some(Error::Invalid(Fault::EntrySizeZero))
    );
    let all = load_super_all(file(c.clone())).unwrap();
    assert_eq!(all.iter().map(|d| d.metadata_slot).collect::<Vec<_>>(), vec![1]);
    for at in [0x3000usize + MAX as usize, 0x3000 + 3 * MAX as usize] {
        c[at + 0x58..at + 0x5C].fill(0);
        resign(&mut c, at);
    }
    assert_eq!(load_super_all(file(c)).err(), Some(Error::NotFound(Fault::Metadata)));
}

#[test]
fn every_changed_byte_of_a_geometry_is_refused() {
    let record = LpWriter::render_geometry(MAX, SLOTS, 4096).unwrap();
    for i in 0..record.len() {
        let mut c = vec![0u8; 0x4000];
        c[0x1000..0x1034].copy_from_slice(&record);
        assert!(LpParser::new().find_geometry(&file(c.clone())).is_ok());
        c[0x1000 + i] ^= 0x10;
        assert!(LpParser::new().find_geometry(&file(c)).is_err());
    }
}

#[test]
fn a_slot_updated_under_a_displaced_geometry_loads() {
    let mut c = image(&[(0, slot(&[partition("system_a", 0, 2)]))]);
    let g = c[0x1000..0x1034].to_vec();
    c[0x1000] = 0;
    c[0x2000] = 0;
    c[0x7000..0x7034].copy_from_slice(&g);
    let mut d = load_super_in_slot(file(c.clone()), 0).unwrap();
    assert_eq!(d.geometry_offset, 0x7000);
    d.partitions[0].name = "core_a".to_string();
    let w = commit(&d).unwrap();
    for at in [w.primary as usize, w.backup as usize] {
        c[at..at + w.data.len()].copy_from_slice(&w.data);
    }
    let after = load_super_in_slot(file(c), 0).unwrap();
    assert_eq!(after.partitions, d.partitions);
    assert_eq!(after.geometry_offset, 0x7000);
}
