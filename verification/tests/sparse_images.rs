use super_image_worker::error::{Error, Fault};
use super_image_worker::reader::source::{BlockSource, Image, MemorySource};
use super_image_worker::sparse::{
    window_bytes, write_chunk_header, write_file_header, SparseEncoder, TOTAL_CHUNKS_OFFSET,
};

fn memory(data: Vec<u8>) -> MemorySource {
    MemorySource { data }
}

fn encode(raw: &[u8], block_size: u32) -> (Vec<u8>, u32) {
    let mut encoder = SparseEncoder::new(raw.len() as u64, block_size).unwrap();
    let mut out = write_file_header(block_size, (raw.len() as u64 / block_size as u64) as u32, 0);
    let step = window_bytes(block_size);
    let mut at = 0;
    while at < raw.len() {
        let end = (at + step).min(raw.len());
        out.extend(encoder.push_window(&raw[at..end].to_vec()));
        at = end;
    }
    let (tail, chunks) = encoder.finish();
    out.extend(tail);
    let place = TOTAL_CHUNKS_OFFSET as usize;
    out[place..place + 4].copy_from_slice(&chunks.to_le_bytes());
    (out, chunks)
}

fn pattern(len: usize) -> Vec<u8> {
    (0..len).map(|i| (i % 251) as u8 + 1).collect()
}

#[test]
fn sparse_round_trip_gives_the_raw_image_back() {
    let mut raw = vec![0u8; 4096 * 10];
    raw[4096 * 2..4096 * 4].copy_from_slice(&pattern(8192));
    raw[4096 * 9] = 7;
    let (sparse, chunks) = encode(&raw, 4096);
    assert_eq!(chunks, 4);
    assert!(sparse.len() < raw.len());
    let image = Image::open(memory(sparse)).unwrap();
    assert_eq!(image.format_name(), "android-sparse");
    assert_eq!(image.size(), raw.len() as u64);
    assert_eq!(image.read_at(0, raw.len()).unwrap(), raw);
    assert_eq!(image.read_at(4096 * 4 - 3, 6).unwrap(), raw[4096 * 4 - 3..4096 * 4 + 3].to_vec());
}

#[test]
fn a_patched_header_equals_one_written_with_the_count() {
    let mut early = write_file_header(4096, 10, 0);
    early[20..24].copy_from_slice(&4u32.to_le_bytes());
    assert_eq!(early, write_file_header(4096, 10, 4));
    assert_eq!(early.len(), 28);
    assert_eq!(&early[0..4], &0xed26_ff3au32.to_le_bytes());
}

#[test]
fn chunk_headers_have_their_fields_in_place() {
    let h = write_chunk_header(0xcac1, 2, 12 + 8192);
    assert_eq!(h, vec![0xc1, 0xca, 0, 0, 2, 0, 0, 0, 0x0c, 0x20, 0, 0]);
}

#[test]
fn a_long_run_of_data_is_cut() {
    let raw = pattern(12 * 1024 * 1024);
    let (sparse, chunks) = encode(&raw, 4096);
    assert_eq!(chunks, 2);
    let image = Image::open(memory(sparse)).unwrap();
    assert_eq!(image.read_at(8 * 1024 * 1024 - 10, 20).unwrap(), raw[8388598..8388618].to_vec());
}

#[test]
fn encoder_refuses_bad_inputs() {
    assert_eq!(
        SparseEncoder::new(4096, 256).err(),
        Some(Error::Invalid(Fault::SparseBlockSize))
    );
    assert_eq!(
        SparseEncoder::new(4096, 2 * 1024 * 1024).err(),
        Some(Error::Invalid(Fault::SparseBlockSize))
    );
    assert_eq!(SparseEncoder::new(0, 4096).err(), Some(Error::Invalid(Fault::RawEmpty)));
    assert_eq!(SparseEncoder::new(4097, 4096).err(), Some(Error::Invalid(Fault::RawUnaligned)));
    assert_eq!(
        SparseEncoder::new(512 * (u32::MAX as u64 + 1), 512).err(),
        Some(Error::Invalid(Fault::RawTooLarge))
    );
}

#[test]
fn fill_chunks_repeat_their_pattern_by_image_position() {
    let mut f = write_file_header(512, 2, 2);
    f.extend(write_chunk_header(0xcac2, 1, 16));
    f.extend([1u8, 2, 3, 4]);
    f.extend(write_chunk_header(0xcac3, 1, 12));
    let image = Image::open(memory(f)).unwrap();
    assert_eq!(image.size(), 1024);
    assert_eq!(image.read_at(2, 5).unwrap(), vec![3, 4, 1, 2, 3]);
    assert_eq!(image.read_at(510, 4).unwrap(), vec![3, 4, 0, 0]);
}

#[test]
fn checksum_chunks_of_either_length_are_skipped() {
    let mut f = write_file_header(512, 1, 3);
    f.extend(write_chunk_header(0xcac4, 0, 16));
    f.extend([9u8; 4]);
    f.extend(write_chunk_header(0xcac4, 0, 12));
    f.extend(write_chunk_header(0xcac1, 1, 12 + 512));
    f.extend(vec![5u8; 512]);
    let image = Image::open(memory(f)).unwrap();
    assert_eq!(image.read_at(0, 512).unwrap(), vec![5u8; 512]);
}

fn open_error(f: Vec<u8>) -> Option<Error> {
    Image::open(memory(f)).err()
}

#[test]
fn malformed_sparse_files_are_refused() {
    let header = |bs: u32, blocks: u32, chunks: u32| write_file_header(bs, blocks, chunks);
    assert_eq!(open_error(header(4096, 0, 0)[..20].to_vec()), Some(Error::Io));
    assert_eq!(open_error(vec![1, 2]), Some(Error::Io));
    let mut major = header(4096, 0, 0);
    major[4] = 2;
    assert_eq!(open_error(major), Some(Error::Invalid(Fault::SparseHeader)));
    assert_eq!(open_error(header(0, 0, 0)), Some(Error::Invalid(Fault::SparseHeader)));
    assert_eq!(open_error(header(256, 0, 0)), Some(Error::Invalid(Fault::SparseBlockSize)));
    assert_eq!(
        open_error(header(4096, 0, 1_000_001)),
        Some(Error::Invalid(Fault::ChunkCount))
    );
    assert_eq!(open_error(header(4096, 1, 0)), Some(Error::Invalid(Fault::SparseTotal)));
    assert_eq!(open_error(header(4096, 1, 1)), Some(Error::Io));
    let with = |kind: u16, blocks: u32, total: u32, data: usize| {
        let mut f = write_file_header(512, 1, 1);
        f.extend(write_chunk_header(kind, blocks, total));
        f.extend(vec![0u8; data]);
        open_error(f)
    };
    assert_eq!(with(0xcac1, 1, 11, 0), Some(Error::Invalid(Fault::ChunkSize { index: 0 })));
    assert_eq!(with(0xcac1, 1, 12, 0), Some(Error::Invalid(Fault::ChunkRawSize { index: 0 })));
    assert_eq!(with(0xcac2, 1, 13, 4), Some(Error::Invalid(Fault::ChunkFillSize { index: 0 })));
    assert_eq!(with(0xcac2, 1, 16, 0), Some(Error::Io));
    assert_eq!(
        with(0xcac3, 1, 16, 4),
        Some(Error::Invalid(Fault::ChunkDontCareSize { index: 0 }))
    );
    assert_eq!(with(0xcac4, 0, 13, 4), Some(Error::Invalid(Fault::ChunkCrcSize { index: 0 })));
    assert_eq!(
        with(0x1234, 1, 12, 0),
        Some(Error::Invalid(Fault::ChunkType { index: 0, kind: 0x1234 }))
    );
    let mut long = write_file_header(512, 1, 1);
    long[10..12].copy_from_slice(&2000u16.to_le_bytes());
    assert_eq!(open_error(long), Some(Error::Invalid(Fault::ChunkHeaderLarge { index: 0 })));
}

#[test]
fn a_truncated_data_chunk_opens_and_fails_on_read() {
    let mut f = write_file_header(512, 2, 2);
    f.extend(write_chunk_header(0xcac3, 1, 12));
    f.extend(write_chunk_header(0xcac1, 1, 12 + 512));
    f.extend(vec![1u8; 100]);
    let image = Image::open(memory(f)).unwrap();
    assert_eq!(image.read_at(0, 512).unwrap(), vec![0u8; 512]);
    assert_eq!(image.read_at(512, 512), Err(Error::Io));
}

#[test]
fn raw_images_are_read_as_they_are() {
    let image = Image::open(memory(vec![1, 2, 3, 4, 5, 6])).unwrap();
    assert_eq!(image.format_name(), "raw");
    assert_eq!(image.total_size(), 6);
    assert_eq!(image.read_at(2, 3).unwrap(), vec![3, 4, 5]);
    assert_eq!(image.read_at(6, 0).unwrap(), Vec::<u8>::new());
    assert_eq!(image.read_at(4, 3), Err(Error::Invalid(Fault::ReadRange)));
    assert_eq!(image.read_at(u64::MAX, 1), Err(Error::Invalid(Fault::ReadRange)));
}

#[test]
fn a_damaged_container_gives_what_it_holds() {
    let mut raw = vec![0u8; 4096 * 6];
    raw[..4096].copy_from_slice(&pattern(4096));
    raw[4096 * 3..4096 * 5].copy_from_slice(&pattern(8192));
    let (mut sparse, _) = encode(&raw, 4096);
    // The last data chunk loses its second block and a half; its header, and the
    // header of the zero blocks behind it, stand in front of other bytes.
    let tail = sparse.split_off(sparse.len() - 12);
    assert_eq!(tail.len(), 12);
    let mut header = write_file_header(4096, 5, 3);
    header.extend(&sparse[28..]);
    let whole = header.len();
    header.truncate(whole - 6000);
    let image = Image::open(memory(header)).unwrap();
    assert_eq!(image.size(), 4096 * 5);
    assert_eq!(image.read_at(0, 4096 * 3).unwrap(), raw[..4096 * 3].to_vec());
    assert_eq!(
        image.read_at(4096 * 3, 2192).unwrap(),
        raw[4096 * 3..4096 * 3 + 2192].to_vec()
    );
    assert_eq!(image.read_at(4096 * 3, 2193), Err(Error::Io));
    assert_eq!(image.read_at(4096 * 4, 1), Err(Error::Io));
}
