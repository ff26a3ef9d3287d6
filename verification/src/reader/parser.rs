//! Finding and checking geometry, metadata headers and tables in an image.

use crate::digest::{sha256, sha256_digest};
use crate::encoding::{
    bytes_eq, lemma_piece, overwritten, read_u16, read_u32, u16_at, u32_at, zeroed, zeros,
};
use crate::entry::TableEntry;
use crate::error::{Error, Fault};
use crate::format::{
    backup_offset, copy_offset, fit_u64, primary_offset, views, BlockDevice, BlockDeviceView,
    Extent, Geometry, Group, GroupView, MetadataHeader, Partition, PartitionView, TableDescriptor,
    GEOMETRY_BACKUP_OFFSET, GEOMETRY_MAGIC, GEOMETRY_PRIMARY_OFFSET, LP_METADATA_MAGIC,
};
use crate::reader::source::{after, sure_below, BlockSource};
use crate::writer::render::{
    check_geometry, geometry_fault, MAX_DEVICES, MAX_ENTRIES, MAX_HEADER_SIZE, MIN_HEADER_SIZE,
};
use vstd::prelude::*;

verus! {

/// Where the search for a displaced geometry ends.
pub const GEOMETRY_SEARCH_LIMIT: u64 = 0x10000;

/// Step of that search.
pub const GEOMETRY_SEARCH_STEP: u64 = 0x1000;

/// Largest size of all tables together.
pub const MAX_TABLES_SIZE: u32 = 67_108_864;

/// Largest table entry.
pub const MAX_ENTRY_SIZE: u32 = 1_048_576;

/// Whether the record holds at `at` the digest of itself, taken with that
/// place zero.
pub open spec fn digest_matches(record: Seq<u8>, at: int) -> bool {
    sha256_digest(overwritten(record, at, zeros(32)))@ == record.subrange(at, at + 32)
}

/// The geometry that starts at `offset`.
pub open spec fn geometry_at(c: Seq<u8>, offset: u64) -> Result<Geometry, Error> {
    let g = Geometry {
        metadata_max_size: u32_at(c, offset + 0x28),
        metadata_slot_count: u32_at(c, offset + 0x2C),
        logical_block_size: u32_at(c, offset + 0x30),
    };
    if offset + 0x34 > c.len() {
        Err(Error::Invalid(Fault::ReadRange))
    } else if u32_at(c, offset as int) != GEOMETRY_MAGIC {
        Err(Error::Invalid(Fault::GeometryMagic { offset }))
    } else if !digest_matches(c.subrange(offset as int, offset + 0x34), 8) {
        Err(Error::Invalid(Fault::GeometryChecksum { offset }))
    } else {
        match geometry_fault(g) {
            Some(e) => Err(e),
            None => Ok(g),
        }
    }
}

/// The first geometry at a search step from `offset` on, apart from the two
/// regular places.
pub open spec fn displaced_geometry(c: Seq<u8>, offset: int, limit: int) -> Option<(Geometry, u64)>
    decreases limit - offset + GEOMETRY_SEARCH_STEP,
{
    if offset < 0 || offset >= limit || offset > u64::MAX {
        None
    } else if offset != GEOMETRY_PRIMARY_OFFSET && offset != GEOMETRY_BACKUP_OFFSET && geometry_at(
        c,
        offset as u64,
    ) is Ok {
        Some((geometry_at(c, offset as u64)->Ok_0, offset as u64))
    } else {
        displaced_geometry(c, offset + GEOMETRY_SEARCH_STEP, limit)
    }
}

/// The error to report after a failed attempt at a regular place: none where
/// the place lies past the end of the image.
pub open spec fn attempt_error(c: Seq<u8>, offset: u64, last: Option<Error>) -> Option<Error> {
    if offset + 0x34 > c.len() {
        last
    } else {
        match geometry_at(c, offset) {
            Ok(_) => last,
            Err(e) => Some(e),
        }
    }
}

/// Where the search for a displaced geometry ends in this image.
pub open spec fn search_limit(c: Seq<u8>) -> int {
    if c.len() < GEOMETRY_SEARCH_LIMIT {
        c.len() as int
    } else {
        GEOMETRY_SEARCH_LIMIT as int
    }
}

/// The geometry of an image: the primary, else the backup, else a displaced one.
pub open spec fn geometry_of(c: Seq<u8>) -> Result<(Geometry, u64), Error> {
    if geometry_at(c, GEOMETRY_PRIMARY_OFFSET) is Ok {
        Ok((geometry_at(c, GEOMETRY_PRIMARY_OFFSET)->Ok_0, GEOMETRY_PRIMARY_OFFSET))
    } else if geometry_at(c, GEOMETRY_BACKUP_OFFSET) is Ok {
        Ok((geometry_at(c, GEOMETRY_BACKUP_OFFSET)->Ok_0, GEOMETRY_BACKUP_OFFSET))
    } else {
        match displaced_geometry(c, GEOMETRY_PRIMARY_OFFSET as int, search_limit(c)) {
            Some(found) => Ok(found),
            None => match attempt_error(
                c,
                GEOMETRY_BACKUP_OFFSET,
                attempt_error(c, GEOMETRY_PRIMARY_OFFSET, None),
            ) {
                Some(e) => Err(e),
                None => Err(Error::NotFound(Fault::Geometry)),
            },
        }
    }
}

/// The table descriptor at `at`.
pub open spec fn descriptor_at(c: Seq<u8>, at: int) -> TableDescriptor {
    TableDescriptor {
        offset: u32_at(c, at),
        num_entries: u32_at(c, at + 4),
        entry_size: u32_at(c, at + 8),
    }
}

/// The metadata header that starts at `offset`, unchecked.
pub open spec fn header_at(c: Seq<u8>, offset: u64) -> Result<MetadataHeader, Error> {
    let at = offset as int;
    let h = MetadataHeader {
        major_version: u16_at(c, at + 4),
        minor_version: u16_at(c, at + 6),
        header_size: u32_at(c, at + 8),
        tables_size: u32_at(c, at + 0x2C),
        partitions: descriptor_at(c, at + 0x50),
        extents: descriptor_at(c, at + 0x5C),
        groups: descriptor_at(c, at + 0x68),
        block_devices: descriptor_at(c, at + 0x74),
    };
    if at + 0x80 > c.len() {
        Err(Error::Invalid(Fault::ReadRange))
    } else if u32_at(c, at) != LP_METADATA_MAGIC {
        Err(Error::Invalid(Fault::MetadataMagic { magic: u32_at(c, at) }))
    } else if !(MIN_HEADER_SIZE <= h.header_size <= MAX_HEADER_SIZE) {
        Err(Error::Invalid(Fault::HeaderSize))
    } else if h.tables_size > MAX_TABLES_SIZE {
        Err(Error::Invalid(Fault::TablesSize))
    } else {
        Ok(h)
    }
}

/// The metadata header that starts at `offset`, with the checksums of header
/// and tables checked.
pub open spec fn metadata_at(c: Seq<u8>, offset: u64, max: u32) -> Result<MetadataHeader, Error> {
    match header_at(c, offset) {
        Err(e) => Err(e),
        Ok(h) => {
            let tables = offset + h.header_size;
            let record = c.subrange(offset as int, tables);
            if h.header_size > max {
                Err(Error::Invalid(Fault::HeaderSize))
            } else if tables > c.len() {
                Err(Error::Invalid(Fault::ReadRange))
            } else if !digest_matches(record, 0x0C) {
                Err(Error::Invalid(Fault::HeaderChecksum { offset }))
            } else if h.tables_size > max {
                Err(Error::Invalid(Fault::TablesExceedSlot))
            } else if tables + h.tables_size > c.len() {
                Err(Error::Invalid(Fault::ReadRange))
            } else if sha256_digest(c.subrange(tables, tables + h.tables_size))@
                != record.subrange(0x30, 0x50) {
                Err(Error::Invalid(Fault::TablesChecksum { offset }))
            } else {
                Ok(h)
            }
        },
    }
}

/// The valid metadata copy with this index, if there is one.
pub open spec fn copy_at(c: Seq<u8>, g: Geometry, index: int) -> Option<(MetadataHeader, u64)> {
    match fit_u64(copy_offset(index, g.metadata_max_size as int)) {
        None => None,
        Some(offset) => match metadata_at(c, offset, g.metadata_max_size) {
            Ok(h) => Some((h, offset)),
            Err(_) => None,
        },
    }
}

/// The metadata of a slot: its primary copy, else its backup copy.
pub open spec fn slot_metadata(c: Seq<u8>, g: Geometry, slot: u64) -> Result<
    (MetadataHeader, u64),
    Error,
> {
    let count = g.metadata_slot_count as u64;
    if slot >= count {
        Err(Error::NotFound(Fault::SlotRange { slot, count }))
    } else {
        match copy_at(c, g, slot as int) {
            Some(found) => Ok(found),
            None => match copy_at(c, g, count + slot) {
                Some(found) => Ok(found),
                None => Err(Error::NotFound(Fault::Slot { slot })),
            },
        }
    }
}

/// The valid slots from `slot` on.
pub open spec fn slots_from(c: Seq<u8>, g: Geometry, slot: int) -> Seq<(u64, MetadataHeader, u64)>
    decreases g.metadata_slot_count - slot,
{
    if slot < 0 || slot >= g.metadata_slot_count {
        Seq::empty()
    } else {
        let rest = slots_from(c, g, slot + 1);
        match slot_metadata(c, g, slot as u64) {
            Ok((h, offset)) => seq![(slot as u64, h, offset)] + rest,
            Err(_) => rest,
        }
    }
}

/// The first valid copy from the `index`-th on: primary copies come first.
pub open spec fn first_copy(c: Seq<u8>, g: Geometry, index: int) -> Option<(MetadataHeader, u64)>
    decreases 2 * g.metadata_slot_count - index,
{
    if index < 0 || index >= 2 * g.metadata_slot_count {
        None
    } else {
        match copy_at(c, g, index) {
            Some(found) => Some(found),
            None => first_copy(c, g, index + 1),
        }
    }
}

/// The entries of a table from the `i`-th on.
pub open spec fn entries_from<T: TableEntry>(
    c: Seq<u8>,
    desc: TableDescriptor,
    base: int,
    i: int,
) -> Result<Seq<T::V>, Error>
    decreases desc.num_entries - i,
{
    let start = base + i * desc.entry_size;
    let end = start + desc.entry_size;
    if i < 0 || i >= desc.num_entries {
        Ok(Seq::empty())
    } else if end > u64::MAX {
        Err(Error::Invalid(Fault::EntryOffset))
    } else if end > c.len() {
        Err(Error::Invalid(Fault::EntryBeyondImage))
    } else {
        match T::parsed(c.subrange(start, end)) {
            Err(e) => Err(e),
            Ok(v) => after(seq![v], entries_from::<T>(c, desc, base, i + 1)),
        }
    }
}

/// A table of the metadata copy at `metadata_offset`.
pub open spec fn table_at<T: TableEntry>(
    c: Seq<u8>,
    desc: TableDescriptor,
    metadata_offset: u64,
    header_size: u32,
    max_entries: u32,
) -> Result<Seq<T::V>, Error> {
    let base = metadata_offset + header_size + desc.offset;
    if desc.entry_size == 0 {
        if desc.num_entries == 0 {
            Ok(Seq::empty())
        } else {
            Err(Error::Invalid(Fault::EntrySizeZero))
        }
    } else if desc.entry_size > MAX_ENTRY_SIZE {
        Err(Error::Invalid(Fault::EntrySize))
    } else if desc.num_entries > max_entries {
        Err(Error::Invalid(Fault::EntryCount))
    } else if base > u64::MAX {
        Err(Error::Invalid(Fault::TableBase))
    } else {
        entries_from::<T>(c, desc, base, 0)
    }
}

/// How far the search for a geometry reads.
pub const GEOMETRY_REACH: u64 = 0x10034;

/// How far checking the metadata copy at `offset` reads at most.
pub open spec fn copy_reach(offset: int, max: int) -> int {
    offset + 0x80 + 2 * max
}

/// How far checking any copy of any slot reads at most.
pub open spec fn slots_reach(g: Geometry) -> int {
    copy_reach(
        copy_offset(2 * g.metadata_slot_count, g.metadata_max_size as int),
        g.metadata_max_size as int,
    )
}

/// Where a table of the metadata copy at `offset` ends.
pub open spec fn table_reach(desc: TableDescriptor, offset: u64, header_size: u32) -> int {
    offset + header_size + desc.offset + desc.num_entries * desc.entry_size
}

proof fn lemma_slots_reach(g: Geometry, k: int)
    requires
        0 <= k < 2 * g.metadata_slot_count,
    ensures
        copy_reach(
            copy_offset(k, g.metadata_max_size as int),
            g.metadata_max_size as int,
        ) <= slots_reach(g),
{
    let max = g.metadata_max_size as int;
    let n = 2 * g.metadata_slot_count as int;
    assert(k * max <= n * max) by (nonlinear_arith)
        requires
            k < n,
            0 <= max,
    ;
}

/// Reads LP metadata.
pub struct LpParser;

impl Default for LpParser {
    fn default() -> LpParser {
        LpParser::new()
    }
}

/// Whether a record holds this digest at `at`.
pub fn holds_digest(record: &Vec<u8>, at: usize, digest: &[u8; 32]) -> (r: bool)
    requires
        at + 32 <= record.len(),
    ensures
        r == (record@.subrange(at as int, at + 32) == digest@),
{
    bytes_eq(
        vstd::slice::slice_subrange(record.as_slice(), at, at + 32),
        digest.as_slice(),
    )
}

/// The digest of a record, taken with the 32 bytes at `at` zero.
fn digest_without(record: &Vec<u8>, at: usize) -> (r: [u8; 32])
    requires
        at + 32 <= record.len(),
    ensures
        r == sha256_digest(overwritten(record@, at as int, zeros(32))),
{
    let blank = zeroed(record, at, at + 32);
    sha256(blank.as_slice())
}

/// The geometry that a record holds, given the digest of the record with the
/// checksum zero; the record comes from this offset.
pub open spec fn geometry_in(record: Seq<u8>, digest: Seq<u8>, offset: u64) -> Result<
    Geometry,
    Error,
> {
    let g = Geometry {
        metadata_max_size: u32_at(record, 0x28),
        metadata_slot_count: u32_at(record, 0x2C),
        logical_block_size: u32_at(record, 0x30),
    };
    if u32_at(record, 0) != GEOMETRY_MAGIC {
        Err(Error::Invalid(Fault::GeometryMagic { offset }))
    } else if record.subrange(8, 40) != digest {
        Err(Error::Invalid(Fault::GeometryChecksum { offset }))
    } else {
        match geometry_fault(g) {
            Some(e) => Err(e),
            None => Ok(g),
        }
    }
}

/// Checks a geometry record against its digest and its bounds.
pub fn check_geometry_record(record: &Vec<u8>, digest: &[u8; 32], offset: u64) -> (r: Result<
    Geometry,
    Error,
>)
    requires
        record@.len() == 0x34,
    ensures
        r == geometry_in(record@, digest@, offset),
{
    if read_u32(record, 0)? != GEOMETRY_MAGIC {
        return Err(Error::Invalid(Fault::GeometryMagic { offset }));
    }
    if !holds_digest(record, 8, digest) {
        return Err(Error::Invalid(Fault::GeometryChecksum { offset }));
    }
    let g = Geometry {
        metadata_max_size: read_u32(record, 0x28)?,
        metadata_slot_count: read_u32(record, 0x2C)?,
        logical_block_size: read_u32(record, 0x30)?,
    };
    if let Some(e) = check_geometry(&g) {
        return Err(e);
    }
    Ok(g)
}

/// Reads a table descriptor out of a header.
fn read_descriptor(data: &Vec<u8>, at: usize) -> (r: Result<TableDescriptor, Error>)
    requires
        at + 12 <= data.len(),
    ensures
        r == Ok::<TableDescriptor, Error>(descriptor_at(data@, at as int)),
{
    Ok(
        TableDescriptor {
            offset: read_u32(data, at)?,
            num_entries: read_u32(data, at + 4)?,
            entry_size: read_u32(data, at + 8)?,
        },
    )
}

impl LpParser {
    pub fn new() -> LpParser {
        LpParser
    }

    fn parse_geometry_validated<S: BlockSource>(&self, image: &S, offset: u64) -> (r: Result<
        Geometry,
        Error,
    >)
        ensures
            r == geometry_at(image.bytes(), offset) || (r == Err::<Geometry, Error>(Error::Io)
                && !sure_below(image, offset + 0x34)),
    {
        let ghost c = image.bytes();
        let data = image.read_at(offset, 0x34)?;
        proof {
            let to = offset + 0x34;
            lemma_piece(c, offset as int, to, 0);
            lemma_piece(c, offset as int, to, 0x28);
            lemma_piece(c, offset as int, to, 0x2C);
            lemma_piece(c, offset as int, to, 0x30);
        }
        let digest = digest_without(&data, 8);
        check_geometry_record(&data, &digest, offset)
    }

    /// Finds the geometry, with its checksum checked: the primary, else the
    /// backup, else a displaced one.
    pub fn find_geometry<S: BlockSource>(&self, image: &S) -> (r: Result<(Geometry, u64), Error>)
        ensures
            sure_below(image, GEOMETRY_REACH as int) ==> r == geometry_of(image.bytes()),
            r matches Ok((g, offset)) ==> geometry_at(image.bytes(), offset) == Ok::<
                Geometry,
                Error,
            >(g),
    {
        let ghost c = image.bytes();
        let size = image.total_size();
        let mut last: Option<Error> = None;
        if size >= GEOMETRY_PRIMARY_OFFSET + 0x34 {
            match self.parse_geometry_validated(image, GEOMETRY_PRIMARY_OFFSET) {
                Ok(g) => {
                    return Ok((g, GEOMETRY_PRIMARY_OFFSET));
                },
                Err(e) => {
                    last = Some(e);
                },
            }
        }
        assert(sure_below(image, GEOMETRY_REACH as int) ==> last == attempt_error(c, GEOMETRY_PRIMARY_OFFSET, None));
        let ghost before = last;
        if size >= GEOMETRY_BACKUP_OFFSET + 0x34 {
            match self.parse_geometry_validated(image, GEOMETRY_BACKUP_OFFSET) {
                Ok(g) => {
                    return Ok((g, GEOMETRY_BACKUP_OFFSET));
                },
                Err(e) => {
                    last = Some(e);
                },
            }
        }
        assert(sure_below(image, GEOMETRY_REACH as int) ==> last == attempt_error(c, GEOMETRY_BACKUP_OFFSET, before));
        let limit = if size < GEOMETRY_SEARCH_LIMIT {
            size
        } else {
            GEOMETRY_SEARCH_LIMIT
        };
        let mut offset = GEOMETRY_PRIMARY_OFFSET;
        while offset < limit
            invariant
                c == image.bytes(),
                limit == search_limit(c) <= GEOMETRY_SEARCH_LIMIT,
                offset <= 0x20000,
                sure_below(image, GEOMETRY_REACH as int) ==> {
                    &&& geometry_at(c, GEOMETRY_PRIMARY_OFFSET) is Err
                    &&& geometry_at(c, GEOMETRY_BACKUP_OFFSET) is Err
                    &&& last == attempt_error(
                        c,
                        GEOMETRY_BACKUP_OFFSET,
                        attempt_error(c, GEOMETRY_PRIMARY_OFFSET, None),
                    )
                    &&& displaced_geometry(c, GEOMETRY_PRIMARY_OFFSET as int, limit as int)
                        == displaced_geometry(c, offset as int, limit as int)
                },
            decreases 0x20000 - offset,
        {
            if offset != GEOMETRY_PRIMARY_OFFSET && offset != GEOMETRY_BACKUP_OFFSET {
                if let Ok(g) = self.parse_geometry_validated(image, offset) {
                    return Ok((g, offset));
                }
            }
            offset = offset + GEOMETRY_SEARCH_STEP;
        }
        match last {
            Some(e) => Err(e),
            None => Err(Error::NotFound(Fault::Geometry)),
        }
    }

    fn parse_metadata_header<S: BlockSource>(&self, image: &S, offset: u64) -> (r: Result<
        MetadataHeader,
        Error,
    >)
        ensures
            r == header_at(image.bytes(), offset) || (r == Err::<MetadataHeader, Error>(Error::Io)
                && !sure_below(image, offset + 0x80)),
    {
        let data = image.read_at(offset, 0x80)?;
        proof {
            let c = image.bytes();
            let at = offset as int;
            let to = at + 0x80;
            lemma_piece(c, at, to, 0);
            lemma_piece(c, at, to, 4);
            lemma_piece(c, at, to, 6);
            lemma_piece(c, at, to, 8);
            lemma_piece(c, at, to, 0x2C);
            lemma_piece(c, at, to, 0x50);
            lemma_piece(c, at, to, 0x54);
            lemma_piece(c, at, to, 0x58);
            lemma_piece(c, at, to, 0x5C);
            lemma_piece(c, at, to, 0x60);
            lemma_piece(c, at, to, 0x64);
            lemma_piece(c, at, to, 0x68);
            lemma_piece(c, at, to, 0x6C);
            lemma_piece(c, at, to, 0x70);
            lemma_piece(c, at, to, 0x74);
            lemma_piece(c, at, to, 0x78);
            lemma_piece(c, at, to, 0x7C);
        }
        let magic = read_u32(&data, 0)?;
        if magic != LP_METADATA_MAGIC {
            return Err(Error::Invalid(Fault::MetadataMagic { magic }));
        }
        let header_size = read_u32(&data, 8)?;
        let tables_size = read_u32(&data, 0x2C)?;
        if header_size < MIN_HEADER_SIZE || header_size > MAX_HEADER_SIZE {
            return Err(Error::Invalid(Fault::HeaderSize));
        }
        if tables_size > MAX_TABLES_SIZE {
            return Err(Error::Invalid(Fault::TablesSize));
        }
        Ok(
            MetadataHeader {
                major_version: read_u16(&data, 4)?,
                minor_version: read_u16(&data, 6)?,
                header_size,
                tables_size,
                partitions: read_descriptor(&data, 0x50)?,
                extents: read_descriptor(&data, 0x5C)?,
                groups: read_descriptor(&data, 0x68)?,
                block_devices: read_descriptor(&data, 0x74)?,
            },
        )
    }

    fn parse_metadata_validated<S: BlockSource>(
        &self,
        image: &S,
        offset: u64,
        geometry: &Geometry,
    ) -> (r: Result<MetadataHeader, Error>)
        ensures
            r == metadata_at(image.bytes(), offset, geometry.metadata_max_size) || (r == Err::<
                MetadataHeader,
                Error,
            >(Error::Io) && !sure_below(
                image,
                copy_reach(offset as int, geometry.metadata_max_size as int),
            )),
    {
        let header = self.parse_metadata_header(image, offset)?;
        if header.header_size > geometry.metadata_max_size {
            return Err(Error::Invalid(Fault::HeaderSize));
        }
        let record = image.read_at(offset, header.header_size as usize)?;
        let header_digest = digest_without(&record, 0x0C);
        if !holds_digest(&record, 0x0C, &header_digest) {
            return Err(Error::Invalid(Fault::HeaderChecksum { offset }));
        }
        if header.tables_size > geometry.metadata_max_size {
            return Err(Error::Invalid(Fault::TablesExceedSlot));
        }
        let size = image.total_size();
        assert(offset + header.header_size <= size);
        let tables = image.read_at(
            offset + header.header_size as u64,
            header.tables_size as usize,
        )?;
        let tables_digest = sha256(tables.as_slice());
        if !holds_digest(&record, 0x30, &tables_digest) {
            return Err(Error::Invalid(Fault::TablesChecksum { offset }));
        }
        Ok(header)
    }

    /// The valid metadata copy at an offset, if there is one.
    fn try_copy<S: BlockSource>(&self, image: &S, geometry: &Geometry, offset: Option<u64>) -> (r:
        Option<(MetadataHeader, u64)>)
        ensures
            match offset {
                None => r is None,
                Some(at) => {
                    let found = metadata_at(image.bytes(), at, geometry.metadata_max_size);
                    &&& r matches Some((h, o)) ==> o == at && found == Ok::<MetadataHeader, Error>(
                        h,
                    )
                    &&& sure_below(
                        image,
                        copy_reach(at as int, geometry.metadata_max_size as int),
                    ) && found is Ok ==> r is Some
                },
            },
    {
        match offset {
            None => None,
            Some(at) => match self.parse_metadata_validated(image, at, geometry) {
                Ok(h) => Some((h, at)),
                Err(_) => None,
            },
        }
    }

    /// Loads the metadata of one slot: its primary copy, else its backup copy.
    pub fn find_metadata_for_slot<S: BlockSource>(
        &self,
        image: &S,
        geometry: &Geometry,
        slot: u64,
    ) -> (r: Result<(MetadataHeader, u64), Error>)
        ensures
            sure_below(image, slots_reach(*geometry)) ==> r == slot_metadata(image.bytes(), *geometry, slot),
            match r {
                Ok((h, offset)) => {
                    &&& slot < geometry.metadata_slot_count
                    &&& copy_at(image.bytes(), *geometry, slot as int) == Some((h, offset))
                        || copy_at(
                        image.bytes(),
                        *geometry,
                        geometry.metadata_slot_count + slot,
                    ) == Some((h, offset))
                },
                Err(e) => e == if slot >= geometry.metadata_slot_count {
                    Error::NotFound(
                        Fault::SlotRange { slot, count: geometry.metadata_slot_count as u64 },
                    )
                } else {
                    Error::NotFound(Fault::Slot { slot })
                },
            },
    {
        let max = geometry.metadata_max_size as u64;
        let count = geometry.metadata_slot_count as u64;
        if slot >= count {
            return Err(Error::NotFound(Fault::SlotRange { slot, count }));
        }
        proof {
            lemma_slots_reach(*geometry, slot as int);
            lemma_slots_reach(*geometry, count + slot);
        }
        if let Some(found) = self.try_copy(image, geometry, primary_offset(slot, max)) {
            return Ok(found);
        }
        if let Some(found) = self.try_copy(image, geometry, backup_offset(slot, count, max)) {
            return Ok(found);
        }
        Err(Error::NotFound(Fault::Slot { slot }))
    }

    /// Collects every valid metadata slot: index, header and offset.
    pub fn find_all_metadata<S: BlockSource>(&self, image: &S, geometry: &Geometry) -> (r: Vec<
        (u64, MetadataHeader, u64),
    >)
        ensures
            sure_below(image, slots_reach(*geometry)) ==> r@ == slots_from(image.bytes(), *geometry, 0),
            forall|i: int|
                0 <= i < r@.len() ==> {
                    let (slot, h, offset) = #[trigger] r@[i];
                    &&& slot < geometry.metadata_slot_count
                    &&& copy_at(image.bytes(), *geometry, slot as int) == Some((h, offset))
                        || copy_at(
                        image.bytes(),
                        *geometry,
                        geometry.metadata_slot_count + slot,
                    ) == Some((h, offset))
                },
    {
        let ghost c = image.bytes();
        let count = geometry.metadata_slot_count as u64;
        let mut out: Vec<(u64, MetadataHeader, u64)> = Vec::new();
        let mut slot: u64 = 0;
        assert(out@ + slots_from(c, *geometry, 0) =~= slots_from(c, *geometry, 0));
        while slot < count
            invariant
                c == image.bytes(),
                slot <= count == geometry.metadata_slot_count,
                sure_below(image, slots_reach(*geometry)) ==> slots_from(c, *geometry, 0) == out@ + slots_from(
                    c,
                    *geometry,
                    slot as int,
                ),
                forall|i: int|
                    0 <= i < out@.len() ==> {
                        let (s, h, offset) = #[trigger] out@[i];
                        &&& s < geometry.metadata_slot_count
                        &&& copy_at(c, *geometry, s as int) == Some((h, offset)) || copy_at(
                            c,
                            *geometry,
                            geometry.metadata_slot_count + s,
                        ) == Some((h, offset))
                    },
            decreases count - slot,
        {
            let ghost before = out@;
            match self.find_metadata_for_slot(image, geometry, slot) {
                Ok((header, offset)) => {
                    out.push((slot, header, offset));
                    assert(before + (seq![(slot, header, offset)] + slots_from(
                        c,
                        *geometry,
                        slot + 1,
                    )) =~= out@ + slots_from(c, *geometry, slot + 1));
                },
                Err(_) => {},
            }
            slot += 1;
        }
        assert(out@ + Seq::<(u64, MetadataHeader, u64)>::empty() =~= out@);
        out
    }

    /// Loads the first valid metadata: every primary copy in slot order, then
    /// every backup copy.
    pub fn find_metadata<S: BlockSource>(&self, image: &S, geometry: &Geometry) -> (r: Result<
        (MetadataHeader, u64),
        Error,
    >)
        ensures
            sure_below(image, slots_reach(*geometry)) ==> r == (match first_copy(image.bytes(), *geometry, 0) {
                Some(found) => Ok(found),
                None => Err(Error::NotFound(Fault::Metadata)),
            }),
            match r {
                Ok(found) => exists|index: int|
                    0 <= index < 2 * geometry.metadata_slot_count && #[trigger] copy_at(
                        image.bytes(),
                        *geometry,
                        index,
                    ) == Some(found),
                Err(e) => e == Error::NotFound(Fault::Metadata),
            },
    {
        let ghost c = image.bytes();
        let max = geometry.metadata_max_size as u64;
        let count = geometry.metadata_slot_count as u64;
        let mut index: u64 = 0;
        while index < 2 * count
            invariant
                c == image.bytes(),
                max == geometry.metadata_max_size,
                count == geometry.metadata_slot_count,
                index <= 2 * count,
                sure_below(image, slots_reach(*geometry)) ==> first_copy(c, *geometry, 0) == first_copy(
                    c,
                    *geometry,
                    index as int,
                ),
            decreases 2 * count - index,
        {
            proof {
                lemma_slots_reach(*geometry, index as int);
            }
            if let Some(found) = self.try_copy(image, geometry, primary_offset(index, max)) {
                assert(copy_at(c, *geometry, index as int) == Some(found));
                return Ok(found);
            }
            index += 1;
        }
        Err(Error::NotFound(Fault::Metadata))
    }

    fn read_table<T: TableEntry, S: BlockSource>(
        &self,
        image: &S,
        desc: &TableDescriptor,
        metadata_offset: u64,
        header_size: u32,
        max_entries: u32,
    ) -> (r: Result<Vec<T>, Error>)
        ensures
            ({
                let table = table_at::<T>(
                    image.bytes(),
                    *desc,
                    metadata_offset,
                    header_size,
                    max_entries,
                );
                match r {
                    Ok(items) => table == Ok::<Seq<T::V>, Error>(views(items@)),
                    Err(e) => table == Err::<Seq<T::V>, Error>(e) || (e == Error::Io
                        && !sure_below(image, table_reach(*desc, metadata_offset, header_size))),
                }
            }),
    {
        let mut items: Vec<T> = Vec::new();
        assert(views(items@) =~= Seq::<T::V>::empty());
        if desc.entry_size == 0 {
            if desc.num_entries == 0 {
                return Ok(items);
            }
            return Err(Error::Invalid(Fault::EntrySizeZero));
        }
        if desc.entry_size > MAX_ENTRY_SIZE {
            return Err(Error::Invalid(Fault::EntrySize));
        }
        if desc.num_entries > max_entries {
            return Err(Error::Invalid(Fault::EntryCount));
        }
        let base = match metadata_offset.checked_add(header_size as u64 + desc.offset as u64) {
            Some(v) => v,
            None => {
                return Err(Error::Invalid(Fault::TableBase));
            },
        };
        let ghost c = image.bytes();
        let ghost table = table_at::<T>(c, *desc, metadata_offset, header_size, max_entries);
        let size = image.total_size();
        let mut start: u64 = base;
        let mut i: u32 = 0;
        proof {
            assert(0 * desc.entry_size == 0) by (nonlinear_arith);
            let rest = entries_from::<T>(c, *desc, base as int, 0);
            if rest is Ok {
                assert(Seq::<T::V>::empty() + rest->Ok_0 =~= rest->Ok_0);
            }
        }
        while i < desc.num_entries
            invariant
                c == image.bytes(),
                size == c.len(),
                i <= desc.num_entries,
                start == base + i * desc.entry_size,
                base == metadata_offset + header_size + desc.offset,
                table == table_at::<T>(c, *desc, metadata_offset, header_size, max_entries),
                table == after(
                    views(items@),
                    entries_from::<T>(c, *desc, base as int, i as int),
                ),
            decreases desc.num_entries - i,
        {
            let end = match start.checked_add(desc.entry_size as u64) {
                Some(v) => v,
                None => {
                    return Err(Error::Invalid(Fault::EntryOffset));
                },
            };
            if end > size {
                return Err(Error::Invalid(Fault::EntryBeyondImage));
            }
            assert(end <= table_reach(*desc, metadata_offset, header_size)) by {
                assert((i + 1) * desc.entry_size <= desc.num_entries * desc.entry_size)
                    by (nonlinear_arith)
                    requires
                        i + 1 <= desc.num_entries,
                        0 <= desc.entry_size,
                ;
                assert((i + 1) * desc.entry_size == i * desc.entry_size + desc.entry_size)
                    by (nonlinear_arith);
            }
            let data = image.read_at(start, desc.entry_size as usize)?;
            let item = T::parse_entry(&data)?;
            let ghost before = views(items@);
            let ghost value = item@;
            items.push(item);
            proof {
                assert(views(items@) =~= before.push(value));
                let rest = entries_from::<T>(c, *desc, base as int, i + 1);
                if rest is Ok {
                    assert(before + (seq![value] + rest->Ok_0) =~= views(items@) + rest->Ok_0);
                }
                assert((i + 1) * desc.entry_size == i * desc.entry_size + desc.entry_size)
                    by (nonlinear_arith);
            }
            start = end;
            i += 1;
        }
        assert(views(items@) + Seq::<T::V>::empty() =~= views(items@));
        Ok(items)
    }

    /// Reads the partition table.
    pub fn read_partitions<S: BlockSource>(
        &self,
        image: &S,
        header: &MetadataHeader,
        metadata_offset: u64,
    ) -> (r: Result<Vec<Partition>, Error>)
        ensures
            ({
                let table = partitions_at(image.bytes(), *header, metadata_offset);
                match r {
                    Ok(items) => table == Ok::<Seq<PartitionView>, Error>(views(items@)),
                    Err(e) => table == Err::<Seq<PartitionView>, Error>(e) || (e == Error::Io
                        && !sure_below(
                        image,
                        table_reach(header.partitions, metadata_offset, header.header_size),
                    )),
                }
            }),
    {
        self.read_table::<Partition, S>(
            image,
            &header.partitions,
            metadata_offset,
            header.header_size,
            MAX_ENTRIES,
        )
    }

    /// Reads the extent table.
    pub fn read_extents<S: BlockSource>(
        &self,
        image: &S,
        header: &MetadataHeader,
        metadata_offset: u64,
    ) -> (r: Result<Vec<Extent>, Error>)
        ensures
            ({
                let table = extents_at(image.bytes(), *header, metadata_offset);
                match r {
                    Ok(items) => table == Ok::<Seq<Extent>, Error>(items@),
                    Err(e) => table == Err::<Seq<Extent>, Error>(e) || (e == Error::Io
                        && !sure_below(
                        image,
                        table_reach(header.extents, metadata_offset, header.header_size),
                    )),
                }
            }),
    {
        let items = self.read_table::<Extent, S>(
            image,
            &header.extents,
            metadata_offset,
            header.header_size,
            MAX_ENTRIES,
        )?;
        assert(views(items@) =~= items@);
        Ok(items)
    }

    /// Reads the group table.
    pub fn read_groups<S: BlockSource>(
        &self,
        image: &S,
        header: &MetadataHeader,
        metadata_offset: u64,
    ) -> (r: Result<Vec<Group>, Error>)
        ensures
            ({
                let table = groups_at(image.bytes(), *header, metadata_offset);
                match r {
                    Ok(items) => table == Ok::<Seq<GroupView>, Error>(views(items@)),
                    Err(e) => table == Err::<Seq<GroupView>, Error>(e) || (e == Error::Io
                        && !sure_below(
                        image,
                        table_reach(header.groups, metadata_offset, header.header_size),
                    )),
                }
            }),
    {
        self.read_table::<Group, S>(
            image,
            &header.groups,
            metadata_offset,
            header.header_size,
            MAX_ENTRIES,
        )
    }

    /// Reads the block device table.
    pub fn read_block_devices<S: BlockSource>(
        &self,
        image: &S,
        header: &MetadataHeader,
        metadata_offset: u64,
    ) -> (r: Result<Vec<BlockDevice>, Error>)
        ensures
            ({
                let table = devices_at(image.bytes(), *header, metadata_offset);
                match r {
                    Ok(items) => table == Ok::<Seq<BlockDeviceView>, Error>(views(items@)),
                    Err(e) => table == Err::<Seq<BlockDeviceView>, Error>(e) || (e == Error::Io
                        && !sure_below(
                        image,
                        table_reach(header.block_devices, metadata_offset, header.header_size),
                    )),
                }
            }),
    {
        self.read_table::<BlockDevice, S>(
            image,
            &header.block_devices,
            metadata_offset,
            header.header_size,
            MAX_DEVICES,
        )
    }
}

/// The partition table of a metadata copy.
pub open spec fn partitions_at(c: Seq<u8>, h: MetadataHeader, offset: u64) -> Result<
    Seq<PartitionView>,
    Error,
> {
    table_at::<Partition>(c, h.partitions, offset, h.header_size, MAX_ENTRIES)
}

/// The extent table of a metadata copy.
pub open spec fn extents_at(c: Seq<u8>, h: MetadataHeader, offset: u64) -> Result<
    Seq<Extent>,
    Error,
> {
    table_at::<Extent>(c, h.extents, offset, h.header_size, MAX_ENTRIES)
}

/// The group table of a metadata copy.
pub open spec fn groups_at(c: Seq<u8>, h: MetadataHeader, offset: u64) -> Result<
    Seq<GroupView>,
    Error,
> {
    table_at::<Group>(c, h.groups, offset, h.header_size, MAX_ENTRIES)
}

/// The block device table of a metadata copy.
pub open spec fn devices_at(c: Seq<u8>, h: MetadataHeader, offset: u64) -> Result<
    Seq<BlockDeviceView>,
    Error,
> {
    table_at::<BlockDevice>(c, h.block_devices, offset, h.header_size, MAX_DEVICES)
}

/// Where the primary geometry is damaged, the backup takes its place.
pub proof fn law_backup_geometry(c: Seq<u8>)
    requires
        geometry_at(c, GEOMETRY_PRIMARY_OFFSET) is Err,
        geometry_at(c, GEOMETRY_BACKUP_OFFSET) is Ok,
    ensures
        geometry_of(c) == Ok::<(Geometry, u64), Error>(
            (geometry_at(c, GEOMETRY_BACKUP_OFFSET)->Ok_0, GEOMETRY_BACKUP_OFFSET),
        ),
{
}

/// Where the primary copy of a slot is damaged, the backup copy of the same slot
/// takes its place.
pub proof fn law_backup_slot(c: Seq<u8>, g: Geometry, slot: u64)
    requires
        slot < g.metadata_slot_count,
        copy_at(c, g, slot as int) is None,
        copy_at(c, g, g.metadata_slot_count + slot) is Some,
    ensures
        slot_metadata(c, g, slot) == Ok::<(MetadataHeader, u64), Error>(
            copy_at(c, g, g.metadata_slot_count + slot)->Some_0,
        ),
{
}

} // verus!
