use super_image_worker::error::{Error, Fault};
use super_image_worker::format::{BlockDevice, Extent};
use super_image_worker::reader::extent_stream::ExtentReader;
use super_image_worker::reader::multiblock::{
    auto_match_device, match_stem, open_multiblock, resolve_device_bindings, MultiBlockImage,
    Unbound,
};
use super_image_worker::reader::source::{BlockSource, Image, MemorySource, PositionedSource};

fn raw(len: usize, seed: u8) -> MemorySource {
    MemorySource { data: (0..len).map(|i| (i / 512) as u8 + seed).collect() }
}

fn extent(n: u64, kind: u32, at: u64, source: u32) -> Extent {
    Extent { num_sectors: n, target_type: kind, target_data: at, target_source: source }
}

fn device(name: &str) -> BlockDevice {
    BlockDevice {
        first_logical_sector: 0,
        alignment: 0,
        alignment_offset: 0,
        size: 0,
        partition_name: name.to_string(),
    }
}

#[test]
fn a_chain_reads_in_order() {
    let image = Image::open(raw(512 * 8, 1)).unwrap();
    let chain = vec![extent(2, 0, 3, 0), extent(0, 0, 0, 0), extent(1, 1, 0, 0), extent(1, 0, 0, 0)];
    let mut want = vec![4u8; 512];
    want.extend(vec![5u8; 512]);
    want.extend(vec![0u8; 512]);
    want.extend(vec![1u8; 512]);
    let mut reader = ExtentReader::new(&image, chain);
    assert_eq!(reader.total_size(), 2048);
    let mut got = Vec::new();
    loop {
        let piece = reader.read(300).unwrap();
        if piece.is_empty() {
            break;
        }
        got.extend(piece);
    }
    assert_eq!(got, want);
    assert!(reader.read(0).unwrap().is_empty());
}

#[test]
fn unreadable_extents() {
    let image = Image::open(raw(512 * 2, 1)).unwrap();
    let fail = |e: Extent| ExtentReader::new(&image, vec![e]).read(512).err();
    assert_eq!(fail(extent(1, 0, 2, 0)), Some(Error::Invalid(Fault::ReadRange)));
    assert_eq!(
        fail(extent(1, 7, 0, 0)),
        Some(Error::Invalid(Fault::ExtentType { target_type: 7 }))
    );
    assert_eq!(fail(extent(1, 0, u64::MAX, 0)), Some(Error::Invalid(Fault::PhysicalOffset)));
}

#[test]
fn a_split_image_routes_extents_to_their_files() {
    let mb = open_multiblock(raw(512 * 4, 1), vec![(2, raw(512 * 4, 101))]).unwrap();
    assert!(mb.is_bound(0) && mb.is_bound(2) && !mb.is_bound(1));
    assert_eq!(mb.backing_size(2), Some(2048));
    assert_eq!(mb.backing_size(1), None);
    let mut reader = ExtentReader::new(&mb, vec![extent(1, 0, 1, 0), extent(1, 0, 2, 2)]);
    let mut want = vec![2u8; 512];
    want.extend(vec![103u8; 512]);
    assert_eq!(reader.read(4096).unwrap(), want);
    let mut missing = ExtentReader::new(&mb, vec![extent(1, 0, 0, 1)]);
    assert_eq!(missing.read(1), Err(Error::NotFound(Fault::NotBound { index: 1 })));
    assert_eq!(
        mb.check_extents_bound(
            &[extent(1, 1, 0, 9), extent(1, 0, 0, 1), extent(1, 0, 0, 3)],
            &[device("system"), device("vendor")]
        ),
        Err(Unbound { index: 1, name: "vendor".to_string() })
    );
    assert_eq!(
        mb.check_extents_bound(&[extent(1, 0, 0, 3)], &[device("system")]),
        Err(Unbound { index: 3, name: "?".to_string() })
    );
    assert_eq!(mb.check_extents_bound(&[extent(1, 0, 0, 2)], &[]), Ok(()));
}

#[test]
fn bindings_of_files() {
    let mut mb = MultiBlockImage::open_primary(raw(512, 1)).unwrap();
    assert_eq!(mb.bind(0, raw(512, 1)), Err(Error::Invalid(Fault::PrimaryBinding)));
    assert_eq!(mb.bind(1, raw(512, 1)), Ok(()));
    assert_eq!(mb.bind(1, raw(512, 1)), Err(Error::Invalid(Fault::BoundTwice { index: 1 })));
    assert_eq!(mb.bind(2, MemorySource { data: vec![1] }), Err(Error::Io));
    assert_eq!(mb.read_at(1, 510, 3), Err(Error::Invalid(Fault::ReadRange)));
    assert_eq!(
        open_multiblock(raw(512, 1), vec![(1, raw(512, 1)), (1, raw(512, 1))]).err(),
        Some(Error::Invalid(Fault::BoundTwice { index: 1 }))
    );
}

#[test]
fn stems_match_devices() {
    let devs = [device("system"), device("vendor"), device("vendor_a")];
    assert_eq!(match_stem(&devs, "vendor"), Some(1));
    assert_eq!(match_stem(&devs, "super_vendor"), Some(1));
    assert_eq!(match_stem(&devs, "super-vendor"), Some(1));
    assert_eq!(match_stem(&devs, "rt_super_vendor"), Some(1));
    assert_eq!(match_stem(&devs, "super_vendor_a"), Some(2));
    assert_eq!(match_stem(&devs, "VENDOR"), Some(1));
    assert_eq!(match_stem(&devs, "Super_Vendor"), None);
    assert_eq!(match_stem(&devs, "super_VENDOR"), Some(1));
    assert_eq!(match_stem(&devs, "other"), None);
    let twice = [device("x"), device("x")];
    assert_eq!(match_stem(&twice, "x"), None);
    assert_eq!(auto_match_device(&devs, "/images/vendor.img"), Some(1));
    assert_eq!(auto_match_device(&devs, "out/super_system.tar.img"), None);
    assert_eq!(auto_match_device(&devs, "/"), None);
}

fn resolve(specs: &[&str], primary: &[bool]) -> Result<Vec<(u32, String)>, Error> {
    let devs = [device("system"), device("vendor"), device("odm")];
    let list: Vec<String> = specs.iter().map(|s| s.to_string()).collect();
    resolve_device_bindings(&devs, &list, &primary.to_vec())
}

#[test]
fn binding_specs_resolve() {
    assert_eq!(
        resolve(&[" vendor = v.img ", "super_odm.img"], &[false, false]),
        Ok(vec![(1, "v.img".to_string()), (2, "super_odm.img".to_string())])
    );
    // The primary file itself may be named, and is left out.
    assert_eq!(resolve(&["system=s.img"], &[true]), Ok(vec![]));
    assert_eq!(
        resolve(&["system=s.img"], &[false]),
        Err(Error::Invalid(Fault::PrimaryBinding))
    );
    assert_eq!(
        resolve(&["vendor=a", "vendor=b"], &[false, false]),
        Err(Error::Invalid(Fault::BoundTwice { index: 1 }))
    );
    assert_eq!(
        resolve(&["vendor="], &[false]),
        Err(Error::Invalid(Fault::BindingSpec { spec: 0 }))
    );
    assert_eq!(
        resolve(&["vendor=a", "=b"], &[false, false]),
        Err(Error::Invalid(Fault::BindingSpec { spec: 1 }))
    );
    assert_eq!(
        resolve(&["modem=a"], &[false]),
        Err(Error::NotFound(Fault::BindingName { spec: 0 }))
    );
    assert_eq!(
        resolve(&["modem.img"], &[false]),
        Err(Error::NotFound(Fault::BindingMatch { spec: 0 }))
    );
}

#[test]
fn skipping_and_pieces() {
    let image = Image::open(raw(512 * 300, 0)).unwrap();
    let chain = vec![extent(200, 0, 10, 0), extent(2500, 1, 0, 0), extent(1, 0, 1, 0)];
    let total = 2701 * 512;
    let mut reader = ExtentReader::new(&image, chain.clone());
    reader.skip(1000).unwrap();
    assert_eq!(reader.read_piece(3).unwrap(), vec![11, 11, 11]);
    let piece = reader.read_piece(u64::MAX).unwrap();
    assert_eq!(piece.len(), 1 << 20);
    assert_eq!((piece[20], piece[21]), (11, 12));
    let rest = reader.read_piece(u64::MAX).unwrap();
    assert_eq!(rest.len(), total - 1003 - (1 << 20));
    assert_eq!(rest[rest.len() - 512..], [1; 512]);
    assert!(reader.read_piece(1).unwrap().is_empty());
    assert!(reader.read_piece(0).unwrap().is_empty());
    let mut past = ExtentReader::new(&image, chain);
    past.skip(total as u64 + 5).unwrap();
    assert!(past.read(1).unwrap().is_empty());
    let mut broken = ExtentReader::new(&image, vec![extent(1, 0, 300, 0)]);
    assert_eq!(broken.skip(1), Err(Error::Invalid(Fault::ReadRange)));
}

#[test]
fn a_source_behind_a_function() {
    let data: Vec<u8> = (0..2048).map(|i| (i % 251) as u8).collect();
    let held = data.clone();
    let source = PositionedSource::new(2048, move |offset: u64, len: usize| {
        Some(held[offset as usize..offset as usize + len].to_vec())
    });
    assert_eq!(source.total_size(), 2048);
    assert_eq!(source.format_name(), "raw");
    assert_eq!(source.read_at(100, 300).unwrap(), data[100..400]);
    assert_eq!(source.read_at(2048, 0).unwrap(), vec![]);
    assert_eq!(source.read_at(2000, 49), Err(Error::Invalid(Fault::ReadRange)));
    assert_eq!(source.read_at(u64::MAX, 1), Err(Error::Invalid(Fault::ReadRange)));
    let silent = PositionedSource::new(10, |_: u64, _: usize| None);
    assert_eq!(silent.read_at(0, 10), Err(Error::Io));
    let image = Image::open(source).unwrap();
    assert_eq!(image.size(), 2048);
    assert_eq!(image.read_at(5, 2).unwrap(), vec![5, 6]);
}

#[test]
fn an_error_leaves_the_reader_at_the_piece_that_failed() {
    let image = Image::open(raw(512 * 4, 0)).unwrap();
    let chain = vec![extent(2, 0, 0, 0), extent(1, 1, 0, 0), extent(1, 7, 0, 0)];
    let mut reader = ExtentReader::new(&image, chain.clone());
    assert_eq!(reader.read(4096), Err(Error::Invalid(Fault::ExtentType { target_type: 7 })));
    // Three sectors were read; the fourth fails at once.
    assert_eq!(reader.read(1), Err(Error::Invalid(Fault::ExtentType { target_type: 7 })));
    let mut skipper = ExtentReader::new(&image, chain);
    assert_eq!(skipper.read(100).unwrap().len(), 100);
    assert_eq!(skipper.skip(4000), Err(Error::Invalid(Fault::ExtentType { target_type: 7 })));
    assert_eq!(skipper.read(1), Err(Error::Invalid(Fault::ExtentType { target_type: 7 })));
}

#[test]
fn a_range_streams_as_it_lies_in_the_partition() {
    let image = Image::open(raw(512 * 3000, 0)).unwrap();
    let chain = vec![extent(2500, 0, 300, 0), extent(100, 1, 0, 0), extent(200, 0, 7, 0)];
    let mut whole = ExtentReader::new(&image, chain.clone());
    let all = whole.read(2800 * 512).unwrap();
    for (skip, len) in [(0, 2800 * 512), (1, 1), (70000, 1_200_000), (1_300_000, 133_600)] {
        let mut reader = ExtentReader::new(&image, chain.clone());
        reader.skip(skip as u64).unwrap();
        let mut got = Vec::new();
        while got.len() < len {
            let piece = reader.read_piece((len - got.len()) as u64).unwrap();
            assert!(!piece.is_empty());
            got.extend(piece);
        }
        assert_eq!(got, all[skip..skip + len].to_vec());
    }
}
