//! Metadata as bytes: tables, headers, slots and geometry.

use crate::digest::{sha256, sha256_digest};
use crate::encoding::{
    lemma_widths, overwritten, padded, push_bytes, push_u16, push_u32, push_zeros, zeros,
};
use crate::entry::TableEntry;
use crate::error::{Error, Fault};
use crate::format::{
    backup_offset, copy_offset, is_slot_copy, primary_offset, slot_from_primary_offset,
    slot_of_offset, tables_view, views, BlockDevice, Extent, Geometry, Group, MetadataHeader,
    Partition, TableDescriptor, TablesView, GEOMETRY_MAGIC, LP_METADATA_MAGIC,
};
use crate::writer::LpWriter;
use vstd::bytes::*;
use vstd::prelude::*;

verus! {

/// Largest number of entries in a partition, extent or group table.
pub const MAX_ENTRIES: u32 = 65536;

/// Largest number of block devices.
pub const MAX_DEVICES: u32 = 16;

/// Bounds of the header size.
pub const MIN_HEADER_SIZE: u32 = 0x80;

pub const MAX_HEADER_SIZE: u32 = 1_048_576;

/// Largest metadata slot.
pub const MAX_METADATA_SIZE: u32 = 16_777_216;

/// Largest number of metadata slots.
pub const MAX_SLOTS: u32 = 8;

/// Size of a geometry record.
pub const GEOMETRY_SIZE: u32 = 0x34;

/// The records of a table, one after another.
pub open spec fn table_bytes<T: TableEntry>(vs: Seq<T::V>) -> Result<Seq<u8>, Error>
    decreases vs.len(),
{
    if vs.len() == 0 {
        Ok(Seq::empty())
    } else {
        match table_bytes::<T>(vs.drop_last()) {
            Err(e) => Err(e),
            Ok(front) => match T::rendered(vs.last()) {
                Err(e) => Err(e),
                Ok(data) => Ok(front + data),
            },
        }
    }
}

/// Two byte strings that may have failed, one after the other.
pub open spec fn then_bytes(a: Result<Seq<u8>, Error>, b: Result<Seq<u8>, Error>) -> Result<
    Seq<u8>,
    Error,
> {
    match a {
        Err(e) => Err(e),
        Ok(x) => match b {
            Err(e) => Err(e),
            Ok(y) => Ok(x + y),
        },
    }
}

/// The four tables as bytes: partitions, extents, groups, block devices.
pub open spec fn tables_bytes(t: TablesView) -> Result<Seq<u8>, Error> {
    if t.partitions.len() > MAX_ENTRIES || t.extents.len() > MAX_ENTRIES || t.groups.len()
        > MAX_ENTRIES || t.block_devices.len() > MAX_DEVICES {
        Err(Error::Invalid(Fault::TableTooLarge))
    } else {
        then_bytes(
            then_bytes(
                then_bytes(
                    table_bytes::<Partition>(t.partitions),
                    table_bytes::<Extent>(t.extents),
                ),
                table_bytes::<Group>(t.groups),
            ),
            table_bytes::<BlockDevice>(t.block_devices),
        )
    }
}

/// The header that describes these tables.
pub open spec fn header_for(header: MetadataHeader, t: TablesView) -> MetadataHeader {
    let p = t.partitions.len();
    let e = t.extents.len();
    let g = t.groups.len();
    let d = t.block_devices.len();
    MetadataHeader {
        major_version: header.major_version,
        minor_version: header.minor_version,
        header_size: header.header_size,
        tables_size: (p * 52 + e * 24 + g * 48 + d * 64) as u32,
        partitions: TableDescriptor { offset: 0, num_entries: p as u32, entry_size: 52 },
        extents: TableDescriptor {
            offset: (p * 52) as u32,
            num_entries: e as u32,
            entry_size: 24,
        },
        groups: TableDescriptor {
            offset: (p * 52 + e * 24) as u32,
            num_entries: g as u32,
            entry_size: 48,
        },
        block_devices: TableDescriptor {
            offset: (p * 52 + e * 24 + g * 48) as u32,
            num_entries: d as u32,
            entry_size: 64,
        },
    }
}

/// A table descriptor as bytes.
pub open spec fn descriptor_bytes(d: TableDescriptor) -> Seq<u8> {
    spec_u32_to_le_bytes(d.offset) + spec_u32_to_le_bytes(d.num_entries) + spec_u32_to_le_bytes(
        d.entry_size,
    )
}

/// A header as bytes, with `checksum` in the place of its own checksum.
pub open spec fn header_with(h: MetadataHeader, tables_checksum: Seq<u8>, checksum: Seq<u8>) -> Seq<
    u8,
> {
    spec_u32_to_le_bytes(LP_METADATA_MAGIC) + spec_u16_to_le_bytes(h.major_version)
        + spec_u16_to_le_bytes(h.minor_version) + spec_u32_to_le_bytes(h.header_size) + checksum
        + spec_u32_to_le_bytes(h.tables_size) + tables_checksum + descriptor_bytes(h.partitions)
        + descriptor_bytes(h.extents) + descriptor_bytes(h.groups) + descriptor_bytes(
        h.block_devices,
    ) + zeros(h.header_size - 0x80)
}

/// A header as bytes. Its checksum is taken with the checksum field zero.
pub open spec fn header_bytes(h: MetadataHeader, tables_checksum: Seq<u8>) -> Seq<u8> {
    let digest = sha256_digest(header_with(h, tables_checksum, zeros(32)));
    header_with(h, tables_checksum, digest@)
}

/// A metadata slot: header and tables, filled up with zeros.
pub open spec fn slot_bytes(
    header: MetadataHeader,
    t: TablesView,
    metadata_max_size: u32,
) -> Result<Seq<u8>, Error> {
    if metadata_max_size == 0 {
        Err(Error::Invalid(Fault::MetadataMaxSize))
    } else {
        match tables_bytes(t) {
            Err(e) => Err(e),
            Ok(blob) => {
                let needed = header.header_size + blob.len();
                if needed > metadata_max_size {
                    Err(
                        Error::Invalid(
                            Fault::MetadataTooLarge {
                                needed: needed as u64,
                                max: metadata_max_size as u64,
                            },
                        ),
                    )
                } else if !(MIN_HEADER_SIZE <= header.header_size <= MAX_HEADER_SIZE) {
                    Err(Error::Invalid(Fault::HeaderSize))
                } else {
                    Ok(
                        padded(
                            header_bytes(header_for(header, t), sha256_digest(blob)@) + blob,
                            metadata_max_size as int,
                        ),
                    )
                }
            },
        }
    }
}

/// A geometry record with `checksum` in the place of its checksum.
pub open spec fn geometry_with(g: Geometry, checksum: Seq<u8>) -> Seq<u8> {
    spec_u32_to_le_bytes(GEOMETRY_MAGIC) + spec_u32_to_le_bytes(GEOMETRY_SIZE) + checksum
        + spec_u32_to_le_bytes(g.metadata_max_size) + spec_u32_to_le_bytes(g.metadata_slot_count)
        + spec_u32_to_le_bytes(g.logical_block_size)
}

/// A geometry record.
pub open spec fn geometry_bytes(g: Geometry) -> Seq<u8> {
    geometry_with(g, sha256_digest(geometry_with(g, zeros(32)))@)
}

/// What is wrong with a geometry, if anything.
pub open spec fn geometry_fault(g: Geometry) -> Option<Error> {
    if g.metadata_max_size == 0 || g.metadata_max_size > MAX_METADATA_SIZE {
        Some(Error::Invalid(Fault::MetadataMaxSize))
    } else if g.metadata_slot_count == 0 || g.metadata_slot_count > MAX_SLOTS {
        Some(Error::Invalid(Fault::MetadataSlotCount))
    } else if g.logical_block_size != 4096 && g.logical_block_size != 512 {
        Some(Error::Invalid(Fault::LogicalBlockSize))
    } else {
        None
    }
}

/// Checks the bounds of a geometry.
pub fn check_geometry(g: &Geometry) -> (r: Option<Error>)
    ensures
        r == geometry_fault(*g),
{
    if g.metadata_max_size == 0 || g.metadata_max_size > MAX_METADATA_SIZE {
        Some(Error::Invalid(Fault::MetadataMaxSize))
    } else if g.metadata_slot_count == 0 || g.metadata_slot_count > MAX_SLOTS {
        Some(Error::Invalid(Fault::MetadataSlotCount))
    } else if g.logical_block_size != 4096 && g.logical_block_size != 512 {
        Some(Error::Invalid(Fault::LogicalBlockSize))
    } else {
        None
    }
}

/// Renders the records of a table.
fn render_table<T: TableEntry>(items: &[T]) -> (r: Result<Vec<u8>, Error>)
    ensures
        match r {
            Ok(data) => table_bytes::<T>(views(items@)) == Ok::<Seq<u8>, Error>(data@),
            Err(e) => table_bytes::<T>(views(items@)) == Err::<Seq<u8>, Error>(e),
        },
{
    let ghost vs = views(items@);
    let mut out: Vec<u8> = Vec::new();
    let mut i: usize = 0;
    while i < items.len()
        invariant
            i <= items.len(),
            vs == views(items@),
            table_bytes::<T>(vs.take(i as int)) == Ok::<Seq<u8>, Error>(out@),
        decreases items.len() - i,
    {
        proof {
            assert(vs.take(i + 1).drop_last() =~= vs.take(i as int));
            assert(vs.take(i + 1).last() == items@[i as int]@);
        }
        match items[i].render_entry() {
            Err(e) => {
                proof {
                    lemma_table_error::<T>(vs, i + 1);
                }
                return Err(e);
            },
            Ok(mut data) => {
                out.append(&mut data);
            },
        }
        i += 1;
    }
    assert(vs.take(i as int) =~= vs);
    Ok(out)
}

/// An entry that cannot be written fails the whole table.
proof fn lemma_table_error<T: TableEntry>(vs: Seq<T::V>, n: int)
    requires
        0 <= n <= vs.len(),
        table_bytes::<T>(vs.take(n)) is Err,
    ensures
        table_bytes::<T>(vs) == table_bytes::<T>(vs.take(n)),
    decreases vs.len() - n,
{
    if n == vs.len() {
        assert(vs.take(n) =~= vs);
    } else {
        assert(vs.take(n + 1).drop_last() =~= vs.take(n));
        lemma_table_error::<T>(vs, n + 1);
    }
}

/// A table has the width of its entries.
pub proof fn lemma_table_len<T: TableEntry>(vs: Seq<T::V>)
    ensures
        table_bytes::<T>(vs) matches Ok(data) ==> data.len() == vs.len() * T::width(),
{
    lemma_table::<T>(vs);
}

/// An entry of a table in its place.
pub proof fn lemma_table_entry<T: TableEntry>(vs: Seq<T::V>, i: int, at: int)
    requires
        table_bytes::<T>(vs) is Ok,
        0 <= i < vs.len(),
        at == i * T::width(),
    ensures
        0 <= at,
        at + T::width() <= table_bytes::<T>(vs)->Ok_0.len(),
        T::rendered(vs[i]) == Ok::<Seq<u8>, Error>(
            table_bytes::<T>(vs)->Ok_0.subrange(at, at + T::width()),
        ),
{
    lemma_table::<T>(vs);
    let v = vs[i];
    assert((i + 1) * T::width() == at + T::width()) by (nonlinear_arith)
        requires
            at == i * T::width(),
    ;
}

/// A table has the width of its entries, each in its place.
proof fn lemma_table<T: TableEntry>(vs: Seq<T::V>)
    ensures
        table_bytes::<T>(vs) matches Ok(data) ==> {
            &&& data.len() == vs.len() * T::width()
            &&& forall|i: int|
                #![trigger vs[i]]
                0 <= i < vs.len() ==> {
                    &&& 0 <= i * T::width() <= (i + 1) * T::width() <= data.len()
                    &&& T::rendered(vs[i]) == Ok::<Seq<u8>, Error>(
                        data.subrange(i * T::width(), (i + 1) * T::width()),
                    )
                }
        },
    decreases vs.len(),
{
    if vs.len() > 0 && table_bytes::<T>(vs) is Ok {
        let front = vs.drop_last();
        let w = T::width() as int;
        lemma_table::<T>(front);
        T::lemma_width(vs.last());
        let a = table_bytes::<T>(front)->Ok_0;
        let data = table_bytes::<T>(vs)->Ok_0;
        let n = front.len() as int;
        assert((n + 1) * w == n * w + w) by (nonlinear_arith);
        assert forall|i: int|
            #![trigger vs[i]]
            0 <= i < vs.len() implies {
            &&& 0 <= i * w <= (i + 1) * w <= data.len()
            &&& T::rendered(vs[i]) == Ok::<Seq<u8>, Error>(data.subrange(i * w, (i + 1) * w))
        } by {
            if i < n {
                assert(front[i] == vs[i]);
                assert(data.subrange(i * w, (i + 1) * w) =~= a.subrange(i * w, (i + 1) * w));
            } else {
                assert(n * w >= 0) by (nonlinear_arith)
                    requires
                        n >= 0,
                        w >= 0,
                ;
                assert(data.subrange(n * w, (n + 1) * w) =~= T::rendered(vs.last())->Ok_0);
            }
        }
    }
}

/// The length of all four tables.
pub proof fn lemma_tables_len(t: TablesView)
    ensures
        tables_bytes(t) matches Ok(blob) ==> blob.len() == t.partitions.len() * 52 + t.extents.len()
            * 24 + t.groups.len() * 48 + t.block_devices.len() * 64 && blob.len() <= 0x800_0000,
{
    lemma_table_len::<Partition>(t.partitions);
    lemma_table_len::<Extent>(t.extents);
    lemma_table_len::<Group>(t.groups);
    lemma_table_len::<BlockDevice>(t.block_devices);
}

impl LpWriter {
    /// The tables as bytes, and the header that describes them.
    fn build_tables_blob(
        header: &MetadataHeader,
        partitions: &[Partition],
        extents: &[Extent],
        groups: &[Group],
        devices: &[BlockDevice],
    ) -> (r: Result<(Vec<u8>, MetadataHeader), Error>)
        ensures
            ({
                let t = tables_view(partitions@, extents@, groups@, devices@);
                match r {
                    Ok((blob, h)) => {
                        &&& tables_bytes(t) == Ok::<Seq<u8>, Error>(blob@)
                        &&& h == header_for(*header, t)
                        &&& h.tables_size == blob@.len()
                    },
                    Err(e) => tables_bytes(t) == Err::<Seq<u8>, Error>(e),
                }
            }),
    {
        if partitions.len() > MAX_ENTRIES as usize || extents.len() > MAX_ENTRIES as usize
            || groups.len() > MAX_ENTRIES as usize || devices.len() > MAX_DEVICES as usize {
            return Err(Error::Invalid(Fault::TableTooLarge));
        }
        let ghost t = tables_view(partitions@, extents@, groups@, devices@);
        proof {
            assert(views(extents@) =~= extents@);
            lemma_tables_len(t);
        }
        let p = partitions.len() as u32;
        let e = extents.len() as u32;
        let g = groups.len() as u32;
        let d = devices.len() as u32;
        let mut blob = render_table(partitions)?;
        let mut extent_part = render_table(extents)?;
        blob.append(&mut extent_part);
        let mut group_part = render_table(groups)?;
        blob.append(&mut group_part);
        let mut device_part = render_table(devices)?;
        blob.append(&mut device_part);
        let described = MetadataHeader {
            major_version: header.major_version,
            minor_version: header.minor_version,
            header_size: header.header_size,
            tables_size: p * 52 + e * 24 + g * 48 + d * 64,
            partitions: TableDescriptor { offset: 0, num_entries: p, entry_size: 52 },
            extents: TableDescriptor { offset: p * 52, num_entries: e, entry_size: 24 },
            groups: TableDescriptor { offset: p * 52 + e * 24, num_entries: g, entry_size: 48 },
            block_devices: TableDescriptor {
                offset: p * 52 + e * 24 + g * 48,
                num_entries: d,
                entry_size: 64,
            },
        };
        Ok((blob, described))
    }

    /// A header as bytes, with the checksum of the tables and its own.
    fn serialize_header(header: &MetadataHeader, tables_checksum: &[u8; 32]) -> (r: Result<
        Vec<u8>,
        Error,
    >)
        ensures
            match r {
                Ok(data) => {
                    &&& MIN_HEADER_SIZE <= header.header_size <= MAX_HEADER_SIZE
                    &&& data@ == header_bytes(*header, tables_checksum@)
                },
                Err(e) => {
                    &&& !(MIN_HEADER_SIZE <= header.header_size <= MAX_HEADER_SIZE)
                    &&& e == Error::Invalid(Fault::HeaderSize)
                },
            },
    {
        if header.header_size < MIN_HEADER_SIZE || header.header_size > MAX_HEADER_SIZE {
            return Err(Error::Invalid(Fault::HeaderSize));
        }
        let mut blank: Vec<u8> = Vec::new();
        push_zeros(&mut blank, 32);
        assert(blank@ =~= zeros(32));
        let unsigned = Self::header_record(header, tables_checksum, blank.as_slice());
        let digest = sha256(unsigned.as_slice());
        Ok(Self::header_record(header, tables_checksum, digest.as_slice()))
    }

    /// Writes a header record with these two checksums.
    pub fn header_record(header: &MetadataHeader, tables_checksum: &[u8; 32], checksum: &[u8]) -> (r:
        Vec<u8>)
        requires
            MIN_HEADER_SIZE <= header.header_size <= MAX_HEADER_SIZE,
            checksum@.len() == 32,
        ensures
            r@ == header_with(*header, tables_checksum@, checksum@),
    {
        let mut data: Vec<u8> = Vec::new();
        push_u32(&mut data, LP_METADATA_MAGIC);
        push_u16(&mut data, header.major_version);
        push_u16(&mut data, header.minor_version);
        push_u32(&mut data, header.header_size);
        push_bytes(&mut data, checksum);
        push_u32(&mut data, header.tables_size);
        push_bytes(&mut data, tables_checksum.as_slice());
        Self::push_descriptor(&mut data, &header.partitions);
        Self::push_descriptor(&mut data, &header.extents);
        Self::push_descriptor(&mut data, &header.groups);
        Self::push_descriptor(&mut data, &header.block_devices);
        proof {
            lemma_widths();
        }
        push_zeros(&mut data, (header.header_size - MIN_HEADER_SIZE) as usize);
        assert(data@ =~= header_with(*header, tables_checksum@, checksum@));
        data
    }

    fn push_descriptor(out: &mut Vec<u8>, desc: &TableDescriptor)
        ensures
            final(out)@ == old(out)@ + descriptor_bytes(*desc),
    {
        push_u32(out, desc.offset);
        push_u32(out, desc.num_entries);
        push_u32(out, desc.entry_size);
        assert(out@ =~= old(out)@ + descriptor_bytes(*desc));
    }

    /// Renders a whole metadata slot: header and tables with their checksums,
    /// filled up to `metadata_max_size`.
    pub fn render_slot(
        header: &MetadataHeader,
        partitions: &[Partition],
        extents: &[Extent],
        groups: &[Group],
        devices: &[BlockDevice],
        metadata_max_size: u32,
    ) -> (r: Result<Vec<u8>, Error>)
        ensures
            ({
                let t = tables_view(partitions@, extents@, groups@, devices@);
                match r {
                    Ok(data) => slot_bytes(*header, t, metadata_max_size) == Ok::<Seq<u8>, Error>(
                        data@,
                    ),
                    Err(e) => slot_bytes(*header, t, metadata_max_size) == Err::<Seq<u8>, Error>(e),
                }
            }),
    {
        if metadata_max_size == 0 {
            return Err(Error::Invalid(Fault::MetadataMaxSize));
        }
        let max = metadata_max_size as u64;
        let (mut blob, described) = Self::build_tables_blob(
            header,
            partitions,
            extents,
            groups,
            devices,
        )?;
        let ghost blob0 = blob@;
        let needed = header.header_size as u64 + described.tables_size as u64;
        if needed > max {
            return Err(Error::Invalid(Fault::MetadataTooLarge { needed, max }));
        }
        let tables_checksum = sha256(blob.as_slice());
        let mut data = Self::serialize_header(&described, &tables_checksum)?;
        proof {
            lemma_widths();
        }
        data.append(&mut blob);
        let len = data.len();
        push_zeros(&mut data, metadata_max_size as usize - len);
        Ok(data)
    }

    /// Renders a geometry record with its checksum.
    pub fn render_geometry(
        metadata_max_size: u32,
        metadata_slot_count: u32,
        logical_block_size: u32,
    ) -> (r: Result<Vec<u8>, Error>)
        ensures
            ({
                let g = Geometry { metadata_max_size, metadata_slot_count, logical_block_size };
                match r {
                    Ok(data) => geometry_fault(g) is None && data@ == geometry_bytes(g),
                    Err(e) => geometry_fault(g) == Some(e),
                }
            }),
    {
        let g = Geometry { metadata_max_size, metadata_slot_count, logical_block_size };
        if let Some(e) = check_geometry(&g) {
            return Err(e);
        }
        let mut blank: Vec<u8> = Vec::new();
        push_zeros(&mut blank, 32);
        assert(blank@ =~= zeros(32));
        let unsigned = Self::geometry_record(&g, blank.as_slice());
        let digest = sha256(unsigned.as_slice());
        Ok(Self::geometry_record(&g, digest.as_slice()))
    }

    /// Writes a geometry record with this checksum.
    pub fn geometry_record(g: &Geometry, checksum: &[u8]) -> (r: Vec<u8>)
        ensures
            r@ == geometry_with(*g, checksum@),
    {
        let mut data: Vec<u8> = Vec::new();
        push_u32(&mut data, GEOMETRY_MAGIC);
        push_u32(&mut data, GEOMETRY_SIZE);
        push_bytes(&mut data, checksum);
        push_u32(&mut data, g.metadata_max_size);
        push_u32(&mut data, g.metadata_slot_count);
        push_u32(&mut data, g.logical_block_size);
        assert(data@ =~= geometry_with(*g, checksum@));
        data
    }
}

/// The writes that put updated metadata in place: the same bytes at both copies
/// of one slot.
pub struct SlotWrite {
    pub slot: u64,
    pub primary: u64,
    pub backup: u64,
    pub data: Vec<u8>,
}

/// Whether a metadata copy starts at this offset, in any slot.
pub open spec fn is_copy_offset(metadata_offset: int, metadata_max_size: int) -> bool {
    exists|k: nat| #[trigger] copy_offset(k as int, metadata_max_size) == metadata_offset
}

/// Whether the offset belongs to a slot of the geometry.
pub open spec fn has_slot(metadata_offset: int, g: Geometry) -> bool {
    exists|s: int| #[trigger]
        is_slot_copy(
            metadata_offset,
            s,
            g.metadata_slot_count as int,
            g.metadata_max_size as int,
        )
}

impl LpWriter {
    /// The writes that replace both copies of the slot that `metadata_offset`
    /// belongs to.
    pub fn write_metadata(
        &self,
        geometry: &Geometry,
        metadata_offset: u64,
        header: &MetadataHeader,
        partitions: &[Partition],
        extents: &[Extent],
        groups: &[Group],
        devices: &[BlockDevice],
    ) -> (r: Result<SlotWrite, Error>)
        ensures
            ({
                let t = tables_view(partitions@, extents@, groups@, devices@);
                let max = geometry.metadata_max_size as int;
                let count = geometry.metadata_slot_count as int;
                match r {
                    Ok(w) => {
                        &&& max > 0
                        &&& is_slot_copy(metadata_offset as int, w.slot as int, count, max)
                        &&& w.primary == copy_offset(w.slot as int, max)
                        &&& w.backup == copy_offset(count + w.slot, max)
                        &&& slot_bytes(*header, t, max as u32) == Ok::<Seq<u8>, Error>(w.data@)
                    },
                    Err(e) => if max == 0 {
                        e == Error::Invalid(Fault::MetadataMaxSize)
                    } else if !is_copy_offset(metadata_offset as int, max) {
                        e == Error::Invalid(Fault::SlotBase)
                    } else if !has_slot(metadata_offset as int, *geometry) {
                        e == Error::Invalid(Fault::SlotIndex)
                    } else if exists|s: int| #[trigger]
                        is_slot_copy(metadata_offset as int, s, count, max) && copy_offset(
                            count + s,
                            max,
                        ) > u64::MAX {
                        e == Error::Invalid(Fault::SlotOffset)
                    } else {
                        slot_bytes(*header, t, max as u32) == Err::<Seq<u8>, Error>(e)
                    },
                }
            }),
    {
        if geometry.metadata_max_size == 0 {
            return Err(Error::Invalid(Fault::MetadataMaxSize));
        }
        let max = geometry.metadata_max_size as u64;
        let count = geometry.metadata_slot_count as u64;
        if slot_from_primary_offset(metadata_offset, max).is_none() {
            return Err(Error::Invalid(Fault::SlotBase));
        }
        let slot = match slot_of_offset(metadata_offset, count, max) {
            Some(s) => s,
            None => {
                return Err(Error::Invalid(Fault::SlotIndex));
            },
        };
        proof {
            assert(is_slot_copy(metadata_offset as int, slot as int, count as int, max as int));
            assert forall|s: int| #[trigger]
                is_slot_copy(metadata_offset as int, s, count as int, max as int) implies s
                == slot by {
                lemma_slot_unique(
                    metadata_offset as int,
                    s,
                    slot as int,
                    count as int,
                    max as int,
                );
            }
            assert(slot * max <= (count + slot) * max) by (nonlinear_arith)
                requires
                    slot <= count + slot,
                    max >= 0,
            ;
            assert(0 <= slot * max) by (nonlinear_arith);
        }
        let primary = match primary_offset(slot, max) {
            Some(v) => v,
            None => {
                return Err(Error::Invalid(Fault::SlotOffset));
            },
        };
        let backup = match backup_offset(slot, count, max) {
            Some(v) => v,
            None => {
                return Err(Error::Invalid(Fault::SlotOffset));
            },
        };
        let data = Self::render_slot(
            header,
            partitions,
            extents,
            groups,
            devices,
            geometry.metadata_max_size,
        )?;
        Ok(SlotWrite { slot, primary, backup, data })
    }
}

/// An offset belongs to one slot only.
proof fn lemma_slot_unique(metadata_offset: int, a: int, b: int, count: int, max: int)
    requires
        max > 0,
        is_slot_copy(metadata_offset, a, count, max),
        is_slot_copy(metadata_offset, b, count, max),
    ensures
        a == b,
{
    let i = if copy_offset(a, max) == metadata_offset {
        a
    } else {
        count + a
    };
    let j = if copy_offset(b, max) == metadata_offset {
        b
    } else {
        count + b
    };
    assert(i == j) by (nonlinear_arith)
        requires
            i * max == j * max,
            max > 0,
    ;
}

/// An image after the writes of a metadata update.
pub open spec fn updated(c: Seq<u8>, primary: int, backup: int, data: Seq<u8>) -> Seq<u8> {
    overwritten(overwritten(c, primary, data), backup, data)
}

/// Updating a metadata slot replaces its two copies and leaves every other
/// byte of the image as it was: the geometry, all copies of the other slots,
/// and the partition data.
pub proof fn law_slot_isolation(c: Seq<u8>, slot: int, count: int, max: int, data: Seq<u8>)
    requires
        0 <= slot < count,
        max > 0,
        data.len() == max,
        copy_offset(2 * count, max) <= c.len(),
    ensures
        ({
            let primary = copy_offset(slot, max);
            let backup = copy_offset(count + slot, max);
            let c2 = updated(c, primary, backup, data);
            &&& c2.len() == c.len()
            &&& c2.subrange(primary, primary + max) == data
            &&& c2.subrange(backup, backup + max) == data
            &&& forall|i: int|
                0 <= i < c.len() && !(primary <= i < primary + max) && !(backup <= i < backup + max)
                    ==> c2[i] == c[i]
            &&& forall|k: int|
                0 <= k < 2 * count && k != slot && k != count + slot ==> c2.subrange(
                    #[trigger] copy_offset(k, max),
                    copy_offset(k, max) + max,
                ) == c.subrange(copy_offset(k, max), copy_offset(k, max) + max)
            &&& c2.subrange(0, copy_offset(0, max)) == c.subrange(0, copy_offset(0, max))
            &&& c2.subrange(copy_offset(2 * count, max), c.len() as int) == c.subrange(
                copy_offset(2 * count, max),
                c.len() as int,
            )
        }),
{
    let primary = copy_offset(slot, max);
    let backup = copy_offset(count + slot, max);
    let c2 = updated(c, primary, backup, data);
    assert(0 <= slot * max && slot * max + max <= (count + slot) * max && (count + slot) * max
        + max <= (2 * count) * max) by (nonlinear_arith)
        requires
            0 <= slot < count,
            max > 0,
    ;
    assert(c2.len() == c.len());
    assert forall|i: int|
        0 <= i < c.len() && !(primary <= i < primary + max) && !(backup <= i < backup
            + max) implies c2[i] == c[i] by {}
    assert(c2.subrange(primary, primary + max) =~= data);
    assert(c2.subrange(backup, backup + max) =~= data);
    assert forall|k: int| 0 <= k < 2 * count && k != slot && k != count + slot implies c2.subrange(
        #[trigger] copy_offset(k, max),
        copy_offset(k, max) + max,
    ) == c.subrange(copy_offset(k, max), copy_offset(k, max) + max) by {
        let at = copy_offset(k, max);
        assert(0 <= k * max && k * max + max <= (2 * count) * max) by (nonlinear_arith)
            requires
                0 <= k < 2 * count,
                max > 0,
        ;
        lemma_apart(k, slot, max);
        lemma_apart(k, count + slot, max);
        assert(c2.subrange(at, at + max) =~= c.subrange(at, at + max));
    }
    assert(0 * max == 0);
    assert(c2.subrange(0, copy_offset(0, max)) =~= c.subrange(0, copy_offset(0, max)));
    let end = copy_offset(2 * count, max);
    assert(c2.subrange(end, c.len() as int) =~= c.subrange(end, c.len() as int));
}

/// Two metadata copies do not overlap.
pub proof fn lemma_apart(a: int, b: int, max: int)
    requires
        a != b,
        max > 0,
    ensures
        copy_offset(a, max) + max <= copy_offset(b, max) || copy_offset(b, max) + max
            <= copy_offset(a, max),
{
    if a < b {
        assert(a * max + max <= b * max) by (nonlinear_arith)
            requires
                a + 1 <= b,
                max > 0,
        ;
    } else {
        assert(b * max + max <= a * max) by (nonlinear_arith)
            requires
                b + 1 <= a,
                max > 0,
        ;
    }
}

} // verus!
