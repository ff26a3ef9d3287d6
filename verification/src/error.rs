//! What can go wrong while an image is read, planned or rendered.

use crate::text::texts;
use vstd::prelude::*;

verus! {

/// The failure of a library operation.
#[derive(Debug, Clone, Copy, PartialEq, Eq, Structural)]
pub enum Error {
    /// The backing storage refused a read.
    Io,
    /// The input breaks a rule of the format or of the request.
    Invalid(Fault),
    /// What was asked for is not there.
    NotFound(Fault),
}

/// The rule that was broken, or the thing that is missing.
#[derive(Debug, Clone, Copy, PartialEq, Eq, Structural)]
pub enum Fault {
    /// A read reaches past the end of the image.
    ReadRange,
    /// A field lies past the end of its record.
    FieldMissing,
    /// The sparse file header is not one that this version reads.
    SparseHeader,
    /// The sparse block size is outside its bounds.
    SparseBlockSize,
    /// The sparse header announces too many chunks.
    ChunkCount,
    /// A chunk header is longer than allowed.
    ChunkHeaderLarge { index: u32 },
    /// A chunk is shorter than its own header.
    ChunkSize { index: u32 },
    /// A fill chunk does not hold exactly one pattern.
    ChunkFillSize { index: u32 },
    /// A raw chunk does not hold exactly its blocks.
    ChunkRawSize { index: u32 },
    /// A don't-care chunk holds data.
    ChunkDontCareSize { index: u32 },
    /// A checksum chunk holds neither nothing nor one checksum.
    ChunkCrcSize { index: u32 },
    /// The chunk type is unknown.
    ChunkType { index: u32, kind: u16 },
    /// The chunks' end does not fit in 64 bits.
    SparseOverflow,
    /// The chunks do not add up to the size in the header.
    SparseTotal,
    /// The raw image is empty.
    RawEmpty,
    /// The raw image is not a whole number of blocks.
    RawUnaligned,
    /// The raw image has more blocks than the sparse format can count.
    RawTooLarge,
    /// No geometry magic at this offset.
    GeometryMagic { offset: u64 },
    /// The geometry checksum does not match.
    GeometryChecksum { offset: u64 },
    /// The metadata slot size is outside its bounds.
    MetadataMaxSize,
    /// The number of metadata slots is outside its bounds.
    MetadataSlotCount,
    /// The logical block size is neither 512 nor 4096.
    LogicalBlockSize,
    /// There is no geometry.
    Geometry,
    /// The metadata header magic is wrong.
    MetadataMagic { magic: u32 },
    /// The header size is outside its bounds.
    HeaderSize,
    /// The tables are too large.
    TablesSize,
    /// The tables do not fit in a metadata slot.
    TablesExceedSlot,
    /// The header checksum does not match.
    HeaderChecksum { offset: u64 },
    /// The tables checksum does not match.
    TablesChecksum { offset: u64 },
    /// The metadata slot does not exist in this geometry.
    SlotRange { slot: u64, count: u64 },
    /// Neither copy of this metadata slot is valid.
    Slot { slot: u64 },
    /// No copy of any metadata slot is valid.
    Metadata,
    /// A table with entries has an entry size of zero.
    EntrySizeZero,
    /// A table entry is too large.
    EntrySize,
    /// A table has too many entries.
    EntryCount,
    /// A table starts past the 64-bit range.
    TableBase,
    /// A table entry ends past the 64-bit range.
    EntryOffset,
    /// A table entry reaches past the end of the image.
    EntryBeyondImage,
    /// No partition has this name.
    Partition,
    /// Several partitions have this base name.
    Ambiguous,
    /// An allocation of zero sectors was requested.
    ZeroSectors,
    /// The block device index is not in the table.
    BlockDevice,
    /// An extent ends past the 64-bit range.
    ExtentRange,
    /// There is not enough free space on the block device.
    NoSpace,
    /// An aligned sector lies past the 64-bit range.
    Alignment,
    /// The metadata lists no block device.
    NoDevices,
    /// No block device may be used.
    NoneAllowed,
    /// The block devices together lack this many sectors.
    Short { needed: u64, short: u64 },
    /// A sector range ends past the 64-bit range.
    SectorRange,
    /// A partition name is too long.
    PartitionName,
    /// A group name is too long.
    GroupName,
    /// A block device name is too long.
    DeviceName,
    /// A table has more entries than can be written.
    TableTooLarge,
    /// Header and tables do not fit in a metadata slot.
    MetadataTooLarge { needed: u64, max: u64 },
    /// The offset is not the start of a metadata slot.
    SlotBase,
    /// The metadata slot index is out of range.
    SlotIndex,
    /// A metadata offset lies past the 64-bit range.
    SlotOffset,
    /// The physical offset of an extent lies past the 64-bit range.
    PhysicalOffset,
    /// The extent type is neither linear nor zero.
    ExtentType { target_type: u32 },
    /// The primary block device cannot be bound as a secondary one.
    PrimaryBinding,
    /// A block device was bound twice.
    BoundTwice { index: u32 },
    /// A block device is not bound.
    NotBound { index: u32 },
    /// A device binding is malformed.
    BindingSpec { spec: usize },
    /// A size is empty.
    SizeEmpty,
    /// A size is not a number with a known unit.
    SizeText,
    /// A size does not fit in 64 bits.
    SizeOverflow,
    /// An attribute is unknown.
    Attribute { word: usize },
    /// A slot selector is unknown.
    SlotText,
    /// A suffix filter is unknown.
    SuffixText,
    /// Only raw images can be changed.
    NotRaw,
    /// The new size is smaller, and shrinking was not allowed.
    Shrink { size: u64, current: u64 },
    /// A partition's group is not in the table.
    GroupIndex,
    /// The group has no room: its largest size, and the sectors used and needed.
    GroupLimit { max: u64, used: u64, needed: u64 },
    /// The group still has partitions.
    GroupInUse { members: u64 },
    /// A device specification is malformed.
    DeviceSpec,
    /// A device has no size.
    DeviceEmpty,
    /// An alignment does not fit in 32 bits.
    AlignmentSize,
    /// An alignment offset is not a number.
    AlignmentOffset,
    /// A group specification is malformed.
    GroupSpec,
    /// A partition specification is malformed.
    PartitionSpec,
    /// A name occurs twice.
    Duplicate,
    /// Several devices need an output of their own each.
    SplitOutput,
    /// A device is too small for the metadata area and one sector.
    DeviceSmall { size: u64, reserved: u64 },
    /// A device is not a whole number of sectors.
    DeviceUnaligned,
    /// An output mapping is malformed.
    OutputMap,
    /// A block device output has another size than was specified.
    OutputSize { size: u64, probed: u64 },
    /// A sparse container cannot be written to a block device.
    SparseOutput,
    /// A partition of this name is already there.
    PartitionExists,
    /// A group of this name is already there.
    GroupExists,
    /// The payload is empty.
    PayloadEmpty,
    /// The metadata lists no group.
    NoGroups,
    /// The new name is too long.
    NameLength,
    /// Snapshot devices are in use.
    SnapshotsMapped,
    /// No partition was selected.
    NothingSelected,
    /// The partition has several extents.
    Fragmented { extents: u32 },
    /// The extent is not linear.
    NotLinear,
    /// Several metadata slots qualify.
    SlotAmbiguous,
    /// No group has this name.
    Group,
    /// A partition index is not in the table.
    PartitionIndex,
    /// An extent index is not in the table.
    ExtentIndex,
    /// The last extent is not linear and cannot grow.
    LastExtent,
    /// The last extent ends past the 64-bit range.
    ExtentEnd,
    /// The partition has no extents.
    NoExtents,
    /// A device binding names no known block device.
    BindingName { spec: usize },
    /// A device binding's file name matches no single block device.
    BindingMatch { spec: usize },
}

/// Why a name does not lead to a partition.
#[derive(Debug, PartialEq, Eq)]
pub enum NameError {
    /// Several partitions have this base name: these.
    Ambiguous { names: Vec<String> },
    /// Something else went wrong.
    Failed(Error),
}

impl NameError {
    /// The failure without the names.
    pub open spec fn fault(self) -> Error {
        match self {
            NameError::Ambiguous { .. } => Error::Invalid(Fault::Ambiguous),
            NameError::Failed(e) => e,
        }
    }

    /// Whether the names of an ambiguous name are listed, and are these.
    pub open spec fn lists(self, all: Seq<Seq<char>>) -> bool {
        match self {
            NameError::Ambiguous { names } => texts(names@) == all,
            NameError::Failed(e) => e != Error::Invalid(Fault::Ambiguous),
        }
    }

    /// Drops the names.
    pub fn to_error(&self) -> (r: Error)
        ensures
            r == self.fault(),
    {
        match self {
            NameError::Ambiguous { .. } => Error::Invalid(Fault::Ambiguous),
            NameError::Failed(e) => *e,
        }
    }
}

/// A result without the names of an ambiguous name.
pub open spec fn plain<T>(r: Result<T, NameError>) -> Result<T, Error> {
    match r {
        Ok(v) => Ok(v),
        Err(e) => Err(e.fault()),
    }
}

/// Whether a result lists these names where it fails over an ambiguous name;
/// `ambiguous` tells that the name is one.
pub open spec fn lists_names<T>(
    r: Result<T, NameError>,
    all: Seq<Seq<char>>,
    ambiguous: bool,
) -> bool {
    match r {
        Ok(_) => true,
        Err(NameError::Ambiguous { names }) => texts(names@) == all,
        Err(NameError::Failed(e)) => ambiguous ==> e != Error::Invalid(Fault::Ambiguous),
    }
}

/// Adds the names of an ambiguous name to a result that fails over it.
pub fn with_names<T>(r: Result<T, Error>, names: Option<Vec<String>>) -> (out: Result<T, NameError>)
    ensures
        plain(out) == r,
        match names {
            Some(n) => lists_names(out, texts(n@), true),
            None => !(out matches Err(NameError::Ambiguous { .. })),
        },
{
    match r {
        Ok(v) => Ok(v),
        Err(e) => match names {
            Some(n) => if e == Error::Invalid(Fault::Ambiguous) {
                Err(NameError::Ambiguous { names: n })
            } else {
                Err(NameError::Failed(e))
            },
            None => Err(NameError::Failed(e)),
        },
    }
}

} // verus!
