use super_image_worker::error::{Error, Fault};
use super_image_worker::format::{BlockDevice, Extent};
use super_image_worker::writer::LpWriter;

fn device(name: &str, first: u64, alignment: u32, offset: u32, size: u64) -> BlockDevice {
    BlockDevice {
        first_logical_sector: first,
        alignment,
        alignment_offset: offset,
        size,
        partition_name: name.to_string(),
    }
}

fn linear(sectors: u64, at: u64, source: u32) -> Extent {
    Extent { num_sectors: sectors, target_type: 0, target_data: at, target_source: source }
}

#[test]
fn align_up_honours_the_phase() {
    assert_eq!(LpWriter::align_up(5, 0, 0), Some(5));
    assert_eq!(LpWriter::align_up(5, 4096, 0), Some(8));
    assert_eq!(LpWriter::align_up(8, 4096, 0), Some(8));
    assert_eq!(LpWriter::align_up(5, 4096, 512), Some(9));
    assert_eq!(LpWriter::align_up(1, 4096, 512), Some(1));
    assert_eq!(LpWriter::align_up(2, 4096, 4096 + 512), Some(9));
    // Phases inside a sector fall back to whole sectors.
    assert_eq!(LpWriter::align_up(5, 1000, 0), Some(6));
    assert_eq!(LpWriter::align_up(5, 4096, 100), Some(8));
    assert_eq!(LpWriter::align_up(u64::MAX, 4096, 0), None);
    assert_eq!(LpWriter::align_up(u64::MAX, 1000, 0), None);
}

#[test]
fn first_fit_takes_the_first_gap() {
    let w = LpWriter::new();
    let devs = [device("super", 2048, 1048576, 0, 16 * 1024 * 1024)];
    assert_eq!(w.find_free_sectors(&[], &devs, 0, 1), Ok(2048));
    let used = [linear(100, 2048, 0), linear(10, 6144, 0)];
    assert_eq!(w.find_free_sectors(&used, &devs, 0, 2048), Ok(4096));
    assert_eq!(w.find_free_sectors(&used, &devs, 0, 2049), Ok(8192));
    // Extents of another device or another kind do not count.
    let other = [linear(100, 2048, 1), Extent { target_type: 1, ..linear(100, 2048, 0) }];
    assert_eq!(w.find_free_sectors(&other, &devs, 0, 2048), Ok(2048));
    // The order in the table does not matter.
    let swapped = [linear(10, 6144, 0), linear(100, 2048, 0)];
    assert_eq!(w.find_free_sectors(&swapped, &devs, 0, 2049), Ok(8192));
}

#[test]
fn allocation_errors() {
    let w = LpWriter::new();
    let devs = [device("super", 8, 4096, 0, 64 * 512)];
    assert_eq!(
        w.find_free_sectors(&[], &devs, 0, 0),
        Err(Error::Invalid(Fault::ZeroSectors))
    );
    assert_eq!(
        w.find_free_sectors(&[], &devs, 1, 1),
        Err(Error::Invalid(Fault::BlockDevice))
    );
    assert_eq!(w.find_free_sectors(&[], &devs, 0, 56), Ok(8));
    assert_eq!(
        w.find_free_sectors(&[], &devs, 0, 57),
        Err(Error::Invalid(Fault::NoSpace))
    );
    assert_eq!(
        w.find_free_sectors(&[linear(2, u64::MAX, 0)], &devs, 0, 1),
        Err(Error::Invalid(Fault::ExtentRange))
    );
    let far = [device("super", u64::MAX, 4096, 0, 0)];
    assert_eq!(
        w.find_free_sectors(&[], &far, 0, 1),
        Err(Error::Invalid(Fault::Alignment))
    );
}

#[test]
fn the_longest_run_can_be_allocated() {
    let w = LpWriter::new();
    let devs = [device("super", 8, 4096, 0, 128 * 512)];
    let used = [linear(8, 8, 0), linear(8, 64, 0)];
    let run = w.largest_free_run(&used, &devs, 0).unwrap();
    assert_eq!(run, 56);
    assert_eq!(w.find_free_sectors(&used, &devs, 0, run), Ok(72));
    assert_eq!(
        w.find_free_sectors(&used, &devs, 0, run + 1),
        Err(Error::Invalid(Fault::NoSpace))
    );
    assert_eq!(w.largest_free_run(&[linear(120, 8, 0)], &devs, 0), Ok(0));
    // Without a size only gaps between extents are known.
    let unknown = [device("super", 8, 4096, 0, 0)];
    assert_eq!(w.largest_free_run(&used, &unknown, 0), Ok(48));
    assert_eq!(w.largest_free_run(&[], &unknown, 0), Ok(0));
    assert_eq!(
        w.largest_free_run(&[], &devs, 3),
        Err(Error::Invalid(Fault::BlockDevice))
    );
}

#[test]
fn devices_are_tried_in_table_order() {
    let w = LpWriter::new();
    let devs = [
        device("a", 8, 4096, 0, 64 * 512),
        device("b", 8, 4096, 0, 128 * 512),
    ];
    assert_eq!(w.find_free_sectors_any(&[], &devs, 10), Ok((0, 8)));
    assert_eq!(w.find_free_sectors_any(&[], &devs, 100), Ok((1, 8)));
    assert_eq!(w.find_free_sectors_any_in(&[], &devs, 10, &[1]), Ok((1, 8)));
    assert_eq!(
        w.find_free_sectors_any_in(&[], &devs, 100, &[0]),
        Err(Error::Invalid(Fault::NoSpace))
    );
    assert_eq!(
        w.find_free_sectors_any_in(&[], &devs, 100, &[]),
        Err(Error::Invalid(Fault::NoneAllowed))
    );
    assert_eq!(
        w.find_free_sectors_any(&[], &[], 1),
        Err(Error::Invalid(Fault::NoDevices))
    );
}

#[test]
fn a_payload_spans_devices_only_when_it_must() {
    let w = LpWriter::new();
    let devs = [
        device("a", 8, 4096, 0, 64 * 512),
        device("b", 8, 4096, 0, 64 * 512),
    ];
    assert_eq!(w.plan_spanning_allocation(&[], &devs, 56), Ok(vec![(0, 8, 56)]));
    assert_eq!(
        w.plan_spanning_allocation(&[], &devs, 60),
        Ok(vec![(0, 8, 56), (1, 8, 4)])
    );
    assert_eq!(
        w.plan_spanning_allocation(&[], &devs, 113),
        Err(Error::Invalid(Fault::Short { needed: 113, short: 1 }))
    );
    assert_eq!(
        w.plan_spanning_allocation(&[], &devs, 0),
        Err(Error::Invalid(Fault::ZeroSectors))
    );
    assert_eq!(
        w.plan_spanning_allocation(&[], &[], 1),
        Err(Error::Invalid(Fault::NoDevices))
    );
    // Gaps on one device are filled longest first, turn by turn.
    let used = [linear(8, 24, 0), linear(120, 8, 1)];
    assert_eq!(
        w.plan_spanning_allocation(&used, &devs[..1], 40),
        Ok(vec![(0, 32, 32), (0, 8, 8)])
    );
}

#[test]
fn planned_runs_do_not_overlap() {
    let w = LpWriter::new();
    let devs = [
        device("a", 8, 4096, 0, 64 * 512),
        device("b", 8, 4096, 0, 64 * 512),
    ];
    let mut table = vec![linear(4, 16, 0), linear(4, 32, 1)];
    for (source, at, n) in w.plan_spanning_allocation(&table, &devs, 80).unwrap() {
        table.push(linear(n, at, source));
    }
    for i in 0..table.len() {
        for j in 0..i {
            let (a, b) = (&table[i], &table[j]);
            if a.target_source == b.target_source {
                assert!(
                    a.target_data + a.num_sectors <= b.target_data
                        || b.target_data + b.num_sectors <= a.target_data
                );
            }
        }
    }
}

#[test]
fn free_ranges() {
    let w = LpWriter::new();
    let devs = [device("a", 8, 4096, 0, 64 * 512)];
    let used = [linear(8, 16, 0)];
    assert_eq!(w.is_range_free(&used, &devs, 0, 24, 40), Ok(true));
    assert_eq!(w.is_range_free(&used, &devs, 0, 24, 41), Ok(false));
    assert_eq!(w.is_range_free(&used, &devs, 0, 20, 2), Ok(false));
    assert_eq!(w.is_range_free(&used, &devs, 0, 8, 8), Ok(true));
    assert_eq!(
        w.is_range_free(&used, &devs, 0, u64::MAX, 1),
        Err(Error::Invalid(Fault::SectorRange))
    );
    assert_eq!(
        w.is_range_free(&used, &devs, 1, 0, 1),
        Err(Error::Invalid(Fault::BlockDevice))
    );
}
