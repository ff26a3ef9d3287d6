use super_image_worker::commands::add::{self, AddArgs};
use super_image_worker::commands::cow::{self, CowArgs};
use super_image_worker::commands::create::{self, CreateArgs};
use super_image_worker::commands::remove::{self, RemoveArgs, RemovePlan};
use super_image_worker::commands::rename::{self, RenameArgs};
use super_image_worker::commands::resize::{self, ResizeArgs, ResizePlan, ResizeStep};
use super_image_worker::commands::split_util::{
    binding_report, find_partition_across, load_for_slot_filter, load_for_write,
    partition_extents, resolve_new_slot,
};
use super_image_worker::error::{Error, Fault, NameError};
use super_image_worker::format::{
    BlockDevice, Extent, Group, MetadataHeader, Partition, TableDescriptor,
};
use super_image_worker::reader::data::SuperData;
use super_image_worker::reader::load::load_super_in_slot;
use super_image_worker::reader::extent_stream::ExtentReader;
use super_image_worker::reader::source::{Image, MemorySource};
use super_image_worker::writer::render::SlotWrite;
use super_image_worker::writer::LpWriter;

const MAX: u32 = 4096;

fn failure<T>(r: Result<T, NameError>) -> Option<Error> {
    r.err().map(|e| e.to_error())
}

struct Tables {
    partitions: Vec<Partition>,
    extents: Vec<Extent>,
    groups: Vec<Group>,
    devices: Vec<BlockDevice>,
}

fn part(name: &str, first: u32, num: u32, group: u32) -> Partition {
    Partition {
        name: name.to_string(),
        attributes: 1,
        first_extent_index: first,
        num_extents: num,
        group_index: group,
    }
}

fn group(name: &str, max: u64) -> Group {
    Group { name: name.to_string(), flags: 0, maximum_size: max }
}

fn device(name: &str, sectors: u64) -> BlockDevice {
    BlockDevice {
        first_logical_sector: 64,
        alignment: 4096,
        alignment_offset: 0,
        size: sectors * 512,
        partition_name: name.to_string(),
    }
}

fn extent(n: u64, at: u64, source: u32) -> Extent {
    Extent { num_sectors: n, target_type: 0, target_data: at, target_source: source }
}

fn sample() -> Tables {
    Tables {
        partitions: vec![
            part("system_a", 0, 1, 0),
            part("vendor_a", 1, 2, 0),
            part("empty_a", 3, 0, 0),
            part("odm_a", 3, 1, 1),
        ],
        extents: vec![extent(8, 64, 0), extent(8, 72, 0), extent(8, 96, 0), extent(8, 128, 0)],
        groups: vec![group("main_a", 64 * 512), group("other_a", 0)],
        devices: vec![device("super", 256)],
    }
}

fn render(t: &Tables) -> Vec<u8> {
    let none = TableDescriptor { offset: 0, num_entries: 0, entry_size: 0 };
    let header = MetadataHeader {
        major_version: 10,
        minor_version: 2,
        header_size: 256,
        tables_size: 0,
        partitions: none,
        extents: none,
        groups: none,
        block_devices: none,
    };
    LpWriter::render_slot(&header, &t.partitions, &t.extents, &t.groups, &t.devices, MAX).unwrap()
}

fn image(slots: &[(usize, Tables)]) -> Vec<u8> {
    let mut c = vec![0u8; 0x20000];
    let g = LpWriter::render_geometry(MAX, 2, 4096).unwrap();
    c[0x1000..0x1034].copy_from_slice(&g);
    c[0x2000..0x2034].copy_from_slice(&g);
    for (s, t) in slots {
        let data = render(t);
        for k in [*s, *s + 2] {
            let at = 0x3000 + k * MAX as usize;
            c[at..at + data.len()].copy_from_slice(&data);
        }
    }
    c
}

fn one() -> Vec<u8> {
    image(&[(0, sample())])
}

fn file(c: &[u8]) -> MemorySource {
    MemorySource { data: c.to_vec() }
}

fn apply(c: &mut [u8], w: &SlotWrite) {
    for at in [w.primary as usize, w.backup as usize] {
        c[at..at + w.data.len()].copy_from_slice(&w.data);
    }
}

fn load(c: &[u8], slot: u64) -> SuperData {
    load_super_in_slot(file(c), slot).unwrap()
}

fn chain(d: &SuperData, name: &str) -> Vec<Extent> {
    let i = d.position(name).unwrap();
    partition_extents(d, i).unwrap()
}

fn resize_args(name: &str, size: &str) -> ResizeArgs {
    ResizeArgs {
        image: "super.img".to_string(),
        name: name.to_string(),
        size: size.to_string(),
        slot: "all".to_string(),
        suffix: "all".to_string(),
        device: vec![],
        force: false,
        allow_shrink: false,
        dry_run: false,
    }
}

fn resized(c: &mut Vec<u8>, a: &ResizeArgs) -> (ResizeStep, SuperData) {
    let done = resize::run(file(c), a, &vec![]).unwrap();
    apply(c, done.write.as_ref().unwrap());
    (done.step.unwrap(), load(c, 0))
}

#[test]
fn growth_in_place() {
    let mut c = one();
    let before = load(&c, 0);
    let (step, d) = resized(&mut c, &resize_args("odm_a", "16s"));
    assert_eq!(step, ResizeStep::Expanded { sectors: 8 });
    assert_eq!(chain(&d, "odm_a"), vec![extent(16, 128, 0)]);
    for name in ["system_a", "vendor_a", "empty_a"] {
        assert_eq!(chain(&d, name), chain(&before, name));
    }
}

#[test]
fn growth_by_a_new_extent_shifts_later_chains() {
    let mut c = one();
    let before = load(&c, 0);
    let (step, d) = resized(&mut c, &resize_args("system", "9K"));
    assert_eq!(step, ResizeStep::Spliced { device: 0, sector: 80, sectors: 10 });
    assert_eq!(chain(&d, "system_a"), vec![extent(8, 64, 0), extent(10, 80, 0)]);
    for name in ["vendor_a", "empty_a", "odm_a"] {
        assert_eq!(chain(&d, name), chain(&before, name));
    }
    assert_eq!(d.partitions[3].first_extent_index, 4);
}

#[test]
fn growth_of_an_empty_partition() {
    let mut c = one();
    let (step, d) = resized(&mut c, &resize_args("empty_a", "4096"));
    assert_eq!(step, ResizeStep::Allocated { device: 0, sector: 80, sectors: 8 });
    assert_eq!(chain(&d, "empty_a"), vec![extent(8, 80, 0)]);
}

#[test]
fn shrinking_cuts_the_chain() {
    let mut c = one();
    let before = load(&c, 0);
    let mut a = resize_args("vendor_a", "3s");
    assert_eq!(
        failure(resize::run(file(&c), &a, &vec![])),
        Some(Error::Invalid(Fault::Shrink { size: 1536, current: 8192 }))
    );
    a.allow_shrink = true;
    let (step, d) = resized(&mut c, &a);
    assert_eq!(step, ResizeStep::Cut);
    assert_eq!(chain(&d, "vendor_a"), vec![extent(3, 72, 0)]);
    assert_eq!(chain(&d, "odm_a"), chain(&before, "odm_a"));
    a.size = "0".to_string();
    let (step, d) = resized(&mut c, &a);
    assert_eq!(step, ResizeStep::Emptied);
    assert!(chain(&d, "vendor_a").is_empty());
    assert_eq!(chain(&d, "odm_a"), chain(&before, "odm_a"));
    assert_eq!(d.extents.len(), 2);
}

#[test]
fn resize_without_a_change() {
    let c = one();
    let done = resize::run(file(&c), &resize_args("system_a", "8s"), &vec![]).unwrap();
    assert_eq!(done.plan, ResizePlan::Unchanged { index: 0, size: 4096 });
    assert!(done.write.is_none());
    let mut a = resize_args("system_a", "10s");
    a.dry_run = true;
    let done = resize::run(file(&c), &a, &vec![]).unwrap();
    assert_eq!(
        done.plan,
        ResizePlan::Preview { index: 0, current: 4096, size: 5120, sectors: 10 }
    );
    assert!(done.write.is_none() && done.step.is_none());
    assert_eq!(done.name, "system_a");
}

#[test]
fn resize_errors() {
    let c = one();
    let fail = |a: &ResizeArgs| failure(resize::run(file(&c), a, &vec![]));
    assert_eq!(
        fail(&resize_args("system_a", "49s")),
        Some(Error::Invalid(Fault::GroupLimit { max: 64 * 512, used: 16, needed: 49 }))
    );
    let mut forced = resize_args("system_a", "200s");
    forced.force = true;
    assert_eq!(fail(&forced), Some(Error::Invalid(Fault::NoSpace)));
    assert_eq!(fail(&resize_args("nope", "1s")), Some(Error::NotFound(Fault::Partition)));
    assert_eq!(fail(&resize_args("system_a", "")), Some(Error::Invalid(Fault::SizeEmpty)));
    assert_eq!(fail(&resize_args("system_a", "1T")), Some(Error::Invalid(Fault::SizeText)));
    assert_eq!(
        fail(&resize_args("system_a", "99999999999G")),
        Some(Error::Invalid(Fault::SizeOverflow))
    );
    let mut slot = resize_args("system_a", "9s");
    slot.slot = "x".to_string();
    assert_eq!(fail(&slot), Some(Error::Invalid(Fault::SlotText)));
    let mut suffix = resize_args("system_a", "9s");
    suffix.suffix = "c".to_string();
    assert_eq!(fail(&suffix), Some(Error::Invalid(Fault::SuffixText)));
    let mut t = sample();
    t.partitions[0].group_index = 9;
    let bad = image(&[(0, t)]);
    assert_eq!(
        failure(resize::run(file(&bad), &resize_args("system_a", "9s"), &vec![])),
        Some(Error::Invalid(Fault::GroupIndex))
    );
    let mut t = sample();
    t.extents[3].target_type = 1;
    let zero = image(&[(0, t)]);
    assert_eq!(
        failure(resize::run(file(&zero), &resize_args("odm_a", "9s"), &vec![])),
        Some(Error::Invalid(Fault::LastExtent))
    );
    let mut t = sample();
    t.partitions[3].first_extent_index = 7;
    let cut = image(&[(0, t)]);
    assert_eq!(
        failure(resize::run(file(&cut), &resize_args("odm_a", "9s"), &vec![])),
        Some(Error::Invalid(Fault::ExtentIndex))
    );
}

#[test]
fn sparse_images_are_not_changed() {
    let c = one();
    let mut encoder =
        super_image_worker::sparse::SparseEncoder::new(c.len() as u64, 4096).unwrap();
    let mut f = super_image_worker::sparse::write_file_header(4096, (c.len() / 4096) as u32, 0);
    f.extend(encoder.push_window(&c));
    let (tail, chunks) = encoder.finish();
    f.extend(tail);
    f[20..24].copy_from_slice(&chunks.to_le_bytes());
    assert_eq!(
        failure(resize::run(file(&f), &resize_args("system_a", "9s"), &vec![])),
        Some(Error::Invalid(Fault::NotRaw))
    );
}

fn remove_args(name: &str) -> RemoveArgs {
    RemoveArgs {
        image: "super.img".to_string(),
        name: name.to_string(),
        slot: "all".to_string(),
        suffix: "all".to_string(),
        group: false,
        force: false,
        yes: false,
        dry_run: false,
    }
}

#[test]
fn removing_a_partition_keeps_the_others() {
    let mut c = one();
    let before = load(&c, 0);
    let done = remove::run(file(&c), &remove_args("vendor_a")).unwrap();
    assert_eq!(done.plan, RemovePlan::Partition { index: 1 });
    assert_eq!(done.freed, 2);
    apply(&mut c, done.write.as_ref().unwrap());
    let d = load(&c, 0);
    assert_eq!(d.partitions.len(), 3);
    for name in ["system_a", "empty_a", "odm_a"] {
        assert_eq!(chain(&d, name), chain(&before, name));
    }
    let mut dry = remove_args("vendor_a");
    dry.dry_run = true;
    assert!(remove::run(file(&one()), &dry).unwrap().write.is_none());
}

#[test]
fn removing_groups() {
    let mut c = one();
    let before = load(&c, 0);
    let mut a = remove_args("main_a");
    a.group = true;
    assert_eq!(
        failure(remove::run(file(&c), &a)),
        Some(Error::Invalid(Fault::GroupInUse { members: 3 }))
    );
    a.force = true;
    let done = remove::run(file(&c), &a).unwrap();
    assert_eq!(done.plan, RemovePlan::Group { index: 0, members: 3 });
    assert_eq!(done.freed, 3);
    apply(&mut c, done.write.as_ref().unwrap());
    let d = load(&c, 0);
    assert_eq!(d.partitions, vec![part("odm_a", 0, 1, 0)]);
    assert_eq!(chain(&d, "odm_a"), chain(&before, "odm_a"));
    assert_eq!(d.groups, vec![group("other_a", 0)]);
    a.name = "none".to_string();
    assert_eq!(failure(remove::run(file(&c), &a)), Some(Error::NotFound(Fault::Group)));
}

#[test]
fn broken_chains_are_not_removed() {
    let mut t = sample();
    t.partitions[3].num_extents = 5;
    let c = image(&[(0, t)]);
    assert_eq!(
        failure(remove::run(file(&c), &remove_args("odm_a"))),
        Some(Error::Invalid(Fault::ExtentIndex))
    );
}

fn add_args(name: &str) -> AddArgs {
    AddArgs {
        image: "super.img".to_string(),
        name: name.to_string(),
        payload: "p.img".to_string(),
        group: None,
        device: vec![],
        attrs: "readonly".to_string(),
        force: false,
    }
}

#[test]
fn adding_a_partition() {
    let mut c = one();
    let before = load(&c, 0);
    let done = add::run(file(&c), &add_args("new_a"), 4097, &vec![]).unwrap();
    assert_eq!(
        (done.plan.device, done.plan.sector, done.plan.sectors, done.plan.offset),
        (0, 80, 9, 80 * 512)
    );
    assert_eq!(done.plan.group_index, 0);
    assert_eq!(done.path, None);
    apply(&mut c, &done.write);
    let d = load(&c, 0);
    assert_eq!(chain(&d, "new_a"), vec![extent(9, 80, 0)]);
    for p in &before.partitions {
        assert_eq!(chain(&d, &p.name), chain(&before, &p.name));
    }
}

#[test]
fn add_errors() {
    let c = one();
    let fail = |a: &AddArgs, n: u64| add::run(file(&c), a, n, &vec![]).err();
    assert_eq!(fail(&add_args("odm_a"), 1), Some(Error::Invalid(Fault::PartitionExists)));
    assert_eq!(fail(&add_args("x_a"), 0), Some(Error::Invalid(Fault::PayloadEmpty)));
    let mut a = add_args("x_a");
    a.group = Some("nope".to_string());
    assert_eq!(fail(&a, 1), Some(Error::NotFound(Fault::Group)));
    let mut a = add_args("x_a");
    a.attrs = "readonly, updated".to_string();
    assert_eq!(fail(&a, 1), Some(Error::Invalid(Fault::Attribute { word: 1 })));
    let mut a = add_args("x_a");
    a.group = Some("main_a".to_string());
    assert_eq!(
        fail(&a, 41 * 512),
        Some(Error::Invalid(Fault::GroupLimit { max: 64 * 512, used: 24, needed: 41 }))
    );
    let mut t = sample();
    t.groups.clear();
    let none = image(&[(0, t)]);
    assert_eq!(
        add::run(file(&none), &add_args("x_a"), 1, &vec![]).err(),
        Some(Error::NotFound(Fault::NoGroups))
    );
}

#[test]
fn payloads_go_to_bound_devices_only() {
    let mut t = sample();
    t.devices = vec![device("system", 140), device("vendor", 256)];
    let c = image(&[(0, t)]);
    let mut a = add_args("big_a");
    a.force = true;
    assert_eq!(
        add::run(file(&c), &a, 40 * 512, &vec![]).err(),
        Some(Error::Invalid(Fault::NoSpace))
    );
    a.device = vec!["vendor=vend.img".to_string()];
    let done = add::run(file(&c), &a, 40 * 512, &vec![false]).unwrap();
    assert_eq!((done.plan.device, done.plan.sector), (1, 64));
    assert_eq!(done.path.as_deref(), Some("vend.img"));
}

fn create_args(name: &str, size: &str) -> CreateArgs {
    CreateArgs {
        image: "super.img".to_string(),
        name: name.to_string(),
        slot: "all".to_string(),
        group: "main_a".to_string(),
        size: size.to_string(),
        attrs: "".to_string(),
        group_size: None,
        device: vec![],
        force: false,
        dry_run: false,
    }
}

#[test]
fn creating_partitions() {
    let mut c = one();
    let done = create::run(file(&c), &create_args("hole_a", "0"), &vec![]).unwrap();
    assert_eq!((done.size, done.new_group), (0, None));
    apply(&mut c, done.write.as_ref().unwrap());
    let mut a = create_args("new_a", "1K");
    a.group = "fresh".to_string();
    a.group_size = Some("1M".to_string());
    let done = create::run(file(&c), &a, &vec![]).unwrap();
    assert_eq!((done.size, done.new_group), (1024, Some(1 << 20)));
    apply(&mut c, done.write.as_ref().unwrap());
    let d = load(&c, 0);
    assert!(chain(&d, "hole_a").is_empty());
    assert_eq!(chain(&d, "new_a"), vec![extent(2, 80, 0)]);
    assert_eq!(d.groups[2], group("fresh", 1 << 20));
    assert_eq!(d.partitions[5].group_index, 2);
    assert_eq!(d.partitions[5].attributes, 0);
    let mut dry = create_args("other_a", "1K");
    dry.dry_run = true;
    assert!(create::run(file(&c), &dry, &vec![]).unwrap().write.is_none());
}

#[test]
fn create_errors() {
    let c = one();
    let fail = |a: &CreateArgs| create::run(file(&c), a, &vec![]).err();
    assert_eq!(
        fail(&create_args("odm_a", "0")),
        Some(Error::Invalid(Fault::PartitionExists))
    );
    let mut a = create_args("x_a", "1");
    a.group = "nope".to_string();
    assert_eq!(fail(&a), Some(Error::NotFound(Fault::Group)));
    assert_eq!(
        fail(&create_args("x_a", "41s")),
        Some(Error::Invalid(Fault::SizeText))
    );
    assert_eq!(
        fail(&create_args("x_a", "21K")),
        Some(Error::Invalid(Fault::GroupLimit { max: 64 * 512, used: 24, needed: 42 }))
    );
    let two = image(&[(0, sample()), (1, sample())]);
    assert_eq!(
        create::run(file(&two), &create_args("x_a", "0"), &vec![]).err(),
        Some(Error::Invalid(Fault::SlotAmbiguous))
    );
    let mut chosen = create_args("x_a", "0");
    chosen.slot = "1".to_string();
    assert_eq!(create::run(file(&two), &chosen, &vec![]).unwrap().write.unwrap().slot, 1);
}

fn rename_args(from: &str, to: &str) -> RenameArgs {
    RenameArgs {
        image: "super.img".to_string(),
        old_name: from.to_string(),
        new_name: to.to_string(),
        group: false,
        slot: "all".to_string(),
        suffix: "all".to_string(),
        dry_run: false,
    }
}

#[test]
fn renaming() {
    let mut c = one();
    let before = load(&c, 0);
    let done = rename::run(file(&c), &rename_args("system", "core_a")).unwrap();
    assert_eq!(done.name, "system_a");
    apply(&mut c, done.write.as_ref().unwrap());
    let d = load(&c, 0);
    assert_eq!(d.partitions[0].name, "core_a");
    assert_eq!(d.extents, before.extents);
    assert_eq!(d.partitions[1..], before.partitions[1..]);
    let mut g = rename_args("main_a", "prime_a");
    g.group = true;
    let done = rename::run(file(&c), &g).unwrap();
    apply(&mut c, done.write.as_ref().unwrap());
    assert_eq!(load(&c, 0).groups[0].name, "prime_a");
    let mut dry = rename_args("odm_a", "x");
    dry.dry_run = true;
    assert!(rename::run(file(&c), &dry).unwrap().write.is_none());
}

#[test]
fn rename_errors() {
    let c = one();
    let fail = |a: &RenameArgs| failure(rename::run(file(&c), a));
    assert_eq!(
        fail(&rename_args("system_a", "odm_a")),
        Some(Error::Invalid(Fault::PartitionExists))
    );
    assert_eq!(
        fail(&rename_args("system_a", &"x".repeat(37))),
        Some(Error::Invalid(Fault::NameLength))
    );
    assert_eq!(fail(&rename_args("nope", "x")), Some(Error::NotFound(Fault::Partition)));
    let mut g = rename_args("main_a", "other_a");
    g.group = true;
    assert_eq!(fail(&g), Some(Error::Invalid(Fault::GroupExists)));
    g.old_name = "nope".to_string();
    assert_eq!(fail(&g), Some(Error::NotFound(Fault::Group)));
    let two = image(&[(0, sample()), (1, sample())]);
    assert_eq!(
        failure(rename::run(file(&two), &rename_args("odm_a", "x"))),
        Some(Error::Invalid(Fault::SlotAmbiguous))
    );
    let mut chosen = rename_args("odm_a", "x");
    chosen.slot = "b".to_string();
    assert_eq!(rename::run(file(&two), &chosen).unwrap().write.unwrap().slot, 1);
}

fn cow_image() -> Vec<u8> {
    let mut t = sample();
    t.groups.push(group("cow", 0));
    t.partitions[1] = part("vendor_a-cow", 1, 2, 2);
    t.partitions[2] = part("keep-cow", 3, 0, 0);
    image(&[(0, t), (1, sample())])
}

fn cow_args() -> CowArgs {
    CowArgs {
        image: "super.img".to_string(),
        slot: "all".to_string(),
        dry_run: false,
        force: false,
    }
}

#[test]
fn clearing_snapshots() {
    let mut c = cow_image();
    let before = load(&c, 0);
    let done = cow::run(file(&c), &cow_args(), false).unwrap();
    assert_eq!(done.error, None);
    assert_eq!(done.slots.len(), 1);
    let s = &done.slots[0];
    assert_eq!((s.slot, s.removed, s.freed), (0, 1, 2));
    assert_eq!(s.names, vec!["vendor_a-cow"]);
    apply(&mut c, s.write.as_ref().unwrap());
    let d = load(&c, 0);
    assert_eq!(d.position("vendor_a-cow"), None);
    for name in ["system_a", "keep-cow", "odm_a"] {
        assert_eq!(chain(&d, name), chain(&before, name));
    }
    assert!(cow::run(file(&c), &cow_args(), true).unwrap().slots.is_empty());
}

#[test]
fn snapshots_in_use_are_kept() {
    let c = cow_image();
    assert_eq!(
        cow::run(file(&c), &cow_args(), true).err(),
        Some(Error::Invalid(Fault::SnapshotsMapped))
    );
    let mut a = cow_args();
    a.force = true;
    a.dry_run = true;
    let done = cow::run(file(&c), &a, true).unwrap();
    assert_eq!(done.slots[0].names, vec!["vendor_a-cow"]);
    assert!(done.slots[0].write.is_none());
    assert!(cow::cow_name("system_b-cow") && !cow::cow_name("cow-system"));
}

fn lettered(letter: &str) -> Tables {
    let mut t = sample();
    for p in &mut t.partitions {
        p.name = p.name.replace("_a", letter);
    }
    t
}

#[test]
fn changes_go_to_the_slot_of_the_name() {
    let c = image(&[(0, lettered("_a")), (1, lettered("_b"))]);
    let pick = |name: &str, suffix: Option<&str>, slot: Option<u64>| {
        load_for_write(file(&c), name, suffix, slot).unwrap().metadata_slot
    };
    assert_eq!(pick("system_b", None, None), 1);
    assert_eq!(pick("system", Some("b"), None), 1);
    assert_eq!(pick("system", None, None), 0);
    assert_eq!(pick("system_a", None, Some(1)), 1);
    // A slot that is not there falls back to the first valid one.
    let single = image(&[(0, lettered("_b"))]);
    assert_eq!(load_for_write(file(&single), "system_b", None, None).unwrap().metadata_slot, 0);
}

#[test]
fn partitions_are_found_across_slots() {
    let c = image(&[(0, lettered("_a")), (1, lettered("_b"))]);
    let all = load_for_slot_filter(file(&c), None).unwrap();
    assert_eq!(all.len(), 2);
    assert_eq!(find_partition_across(&all, "odm_b", None), Ok((1, 3)));
    assert_eq!(find_partition_across(&all, "odm", Some("b")), Ok((1, 3)));
    assert_eq!(
        find_partition_across(&all, "odm", None),
        Err(NameError::Ambiguous { names: vec!["odm_a".to_string(), "odm_b".to_string()] })
    );
    assert_eq!(
        find_partition_across(&all, "odm_b", Some("a")),
        Err(NameError::Failed(Error::NotFound(Fault::Partition)))
    );
    let second = load_for_slot_filter(file(&c), Some(1)).unwrap();
    assert_eq!(second[0].metadata_slot, 1);
    assert_eq!(resolve_new_slot(&second), Ok(0));
    assert_eq!(resolve_new_slot(&all), Err(Error::Invalid(Fault::SlotAmbiguous)));
    assert_eq!(resolve_new_slot(&vec![]), Err(Error::NotFound(Fault::Metadata)));
    assert_eq!(partition_extents(&all[0], 9), Err(Error::Invalid(Fault::PartitionIndex)));
}

#[test]
fn binding_reports() {
    let c = one();
    let d = load(&c, 0);
    assert_eq!(binding_report(&d, &vec![], &vec![], "super.img"), Ok(vec![]));
    let mut t = sample();
    t.devices = vec![device("system", 256), device("vendor", 256), device("odm", 256)];
    let d = load(&image(&[(0, t)]), 0);
    assert_eq!(
        binding_report(&d, &vec!["vendor=v.img".to_string()], &vec![false], "sys.img"),
        Ok(vec![
            "  [0] system -> sys.img".to_string(),
            "  [1] vendor -> v.img".to_string(),
            "  [2] odm -> (not bound)".to_string(),
        ])
    );
    assert_eq!(
        binding_report(&d, &vec!["x=v.img".to_string()], &vec![false], "sys.img"),
        Err(Error::NotFound(Fault::BindingName { spec: 0 }))
    );
}

fn content(c: &[u8], d: &SuperData, name: &str) -> Vec<u8> {
    let image = Image::open(file(c)).unwrap();
    ExtentReader::new(&image, chain(d, name)).read(1 << 20).unwrap()
}

#[test]
fn an_added_payload_reads_back() {
    let mut c = one();
    for (i, byte) in c.iter_mut().enumerate().skip(64 * 512) {
        *byte = (i / 3) as u8;
    }
    let before = load(&c, 0);
    let kept: Vec<Vec<u8>> = before.partitions.iter().map(|p| content(&c, &before, &p.name)).collect();
    let payload: Vec<u8> = (0..1300).map(|i| (i % 255 + 1) as u8).collect();
    let done = add::run(file(&c), &add_args("new_a"), 1300, &vec![]).unwrap();
    let mut padded = payload;
    padded.resize(1536, 0);
    let at = done.plan.offset as usize;
    c[at..at + 1536].copy_from_slice(&padded);
    apply(&mut c, &done.write);
    let d = load(&c, 0);
    assert_eq!(content(&c, &d, "new_a"), padded);
    for (p, old) in before.partitions.iter().zip(kept) {
        assert_eq!(content(&c, &d, &p.name), old);
    }
}

fn two_letters() -> Tables {
    let mut t = sample();
    t.partitions = vec![part("system_a", 0, 1, 0), part("system_b", 1, 1, 0)];
    t.extents.truncate(2);
    t
}

#[test]
fn an_ambiguous_name_is_never_chosen_silently() {
    let mut other = two_letters();
    other.partitions.remove(0);
    other.partitions[0].first_extent_index = 0;
    other.extents.truncate(1);
    let c = image(&[(0, two_letters()), (1, other)]);
    let all = load_for_slot_filter(file(&c), None).unwrap();
    let names: Vec<String> =
        ["system_a", "system_b", "system_b"].iter().map(|s| s.to_string()).collect();
    assert_eq!(
        find_partition_across(&all, "system", None),
        Err(NameError::Ambiguous { names })
    );
    assert_eq!(find_partition_across(&all, "system", Some("a")), Ok((0, 0)));
    let single = vec![load(&c, 0)];
    let pair = vec!["system_a".to_string(), "system_b".to_string()];
    assert_eq!(
        find_partition_across(&single, "system", None),
        Err(NameError::Ambiguous { names: pair.clone() })
    );
    let one = image(&[(0, two_letters())]);
    assert_eq!(
        resize::run(file(&one), &resize_args("system", "1s"), &vec![]).err(),
        Some(NameError::Ambiguous { names: pair.clone() })
    );
    assert_eq!(
        remove::run(file(&one), &remove_args("system")).err(),
        Some(NameError::Ambiguous { names: pair.clone() })
    );
    assert_eq!(
        rename::run(file(&one), &rename_args("system", "x")).err(),
        Some(NameError::Ambiguous { names: pair })
    );
}

/// Two devices; the first is full from sector 64 on.
fn full_first() -> Tables {
    let mut t = sample();
    t.devices = vec![device("system", 136), device("vendor", 256)];
    t.extents = vec![extent(8, 64, 0), extent(8, 72, 0), extent(48, 80, 0), extent(8, 128, 0)];
    t.groups[0].maximum_size = 0;
    t
}

#[test]
fn created_partitions_go_to_bound_devices_only() {
    let mut c = image(&[(0, full_first())]);
    let mut a = create_args("new_a", "1K");
    assert_eq!(
        create::run(file(&c), &a, &vec![]).err(),
        Some(Error::Invalid(Fault::NoSpace))
    );
    a.device = vec!["vendor=vend.img".to_string()];
    let done = create::run(file(&c), &a, &vec![false]).unwrap();
    apply(&mut c, done.write.as_ref().unwrap());
    assert_eq!(chain(&load(&c, 0), "new_a"), vec![extent(2, 64, 1)]);
}

#[test]
fn growth_goes_to_bound_devices_only() {
    let c = image(&[(0, full_first())]);
    let bound = |name: &str, size: &str| {
        let mut a = resize_args(name, size);
        a.device = vec!["vendor=vend.img".to_string()];
        let mut c = c.clone();
        let done = resize::run(file(&c), &a, &vec![false]).unwrap();
        apply(&mut c, done.write.as_ref().unwrap());
        (done.step.unwrap(), chain(&load(&c, 0), name))
    };
    assert_eq!(
        failure(resize::run(file(&c), &resize_args("empty_a", "4s"), &vec![])),
        Some(Error::Invalid(Fault::NoSpace))
    );
    assert_eq!(
        bound("empty_a", "4s"),
        (ResizeStep::Allocated { device: 1, sector: 64, sectors: 4 }, vec![extent(4, 64, 1)])
    );
    assert_eq!(
        failure(resize::run(file(&c), &resize_args("system_a", "9s"), &vec![])),
        Some(Error::Invalid(Fault::NoSpace))
    );
    assert_eq!(
        bound("system_a", "9s"),
        (
            ResizeStep::Spliced { device: 1, sector: 64, sectors: 1 },
            vec![extent(8, 64, 0), extent(1, 64, 1)]
        )
    );
    let mut t = full_first();
    t.extents[0].target_source = 7;
    let odd = image(&[(0, t)]);
    assert_eq!(
        failure(resize::run(file(&odd), &resize_args("system_a", "9s"), &vec![])),
        Some(Error::Invalid(Fault::BlockDevice))
    );
}

#[test]
fn only_members_of_the_snapshot_group_are_cleared() {
    let mut t = sample();
    t.groups.push(group("cow", 0));
    t.partitions[1] = part("twin-cow", 1, 2, 2);
    t.partitions[3] = part("twin-cow", 3, 1, 1);
    let mut c = image(&[(0, t)]);
    let done = cow::run(file(&c), &cow_args(), false).unwrap();
    assert_eq!((done.slots[0].removed, done.slots[0].freed), (1, 2));
    apply(&mut c, done.slots[0].write.as_ref().unwrap());
    let d = load(&c, 0);
    assert_eq!(d.partitions.len(), 3);
    assert_eq!(chain(&d, "twin-cow"), vec![extent(8, 128, 0)]);
}
