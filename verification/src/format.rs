//! The on-disk format of LP metadata: constants, tables, and where the
//! metadata slots lie.

use vstd::prelude::*;

verus! {

pub const LP_SECTOR_SIZE: u64 = 512;

pub const GEOMETRY_MAGIC: u32 = 0x616c_4467;

pub const LP_METADATA_MAGIC: u32 = 0x414c_5030;

pub const LP_TARGET_TYPE_LINEAR: u32 = 0;

pub const LP_TARGET_TYPE_ZERO: u32 = 1;

/// LP metadata version of freshly generated images.
pub const LP_METADATA_MAJOR_VERSION: u16 = 10;

pub const LP_METADATA_MINOR_VERSION: u16 = 2;

/// Header size of freshly generated metadata.
pub const LP_METADATA_HEADER_SIZE: u32 = 256;

pub const LP_PARTITION_ATTR_READONLY: u32 = 1;

pub const LP_PARTITION_ATTR_SLOT_SUFFIXED: u32 = 2;

pub const LP_PARTITION_ATTR_UPDATED: u32 = 4;

pub const LP_PARTITION_ATTR_DISABLED: u32 = 8;

/// Offset of the primary geometry.
pub const GEOMETRY_PRIMARY_OFFSET: u64 = 0x1000;

/// Offset of the backup geometry.
pub const GEOMETRY_BACKUP_OFFSET: u64 = 0x2000;

/// Offset of the first primary metadata slot.
pub const METADATA_BASE_OFFSET: u64 = 0x3000;

/// Where the `index`-th metadata copy starts: the primary copies of all slots
/// come first, their backup copies follow.
pub open spec fn copy_offset(index: int, metadata_max_size: int) -> int {
    METADATA_BASE_OFFSET + index * metadata_max_size
}

/// `n` where it fits in 64 bits.
pub open spec fn fit_u64(n: int) -> Option<u64> {
    if 0 <= n <= u64::MAX {
        Some(n as u64)
    } else {
        None
    }
}

/// Primary metadata offset for a given slot.
pub fn primary_offset(slot: u64, metadata_max_size: u64) -> (r: Option<u64>)
    ensures
        r == fit_u64(copy_offset(slot as int, metadata_max_size as int)),
{
    proof {
        assert(slot * metadata_max_size >= 0) by (nonlinear_arith);
    }
    match slot.checked_mul(metadata_max_size) {
        Some(rel) => rel.checked_add(METADATA_BASE_OFFSET),
        None => None,
    }
}

/// Backup metadata offset for a given slot: the backup area follows all
/// primary slots.
pub fn backup_offset(slot: u64, slot_count: u64, metadata_max_size: u64) -> (r: Option<u64>)
    ensures
        slot_count + slot <= u64::MAX ==> r == fit_u64(
            copy_offset(slot_count + slot, metadata_max_size as int),
        ),
        slot_count + slot > u64::MAX ==> r is None,
{
    match slot_count.checked_add(slot) {
        Some(index) => primary_offset(index, metadata_max_size),
        None => None,
    }
}

/// Index of the metadata copy that starts at `metadata_offset`, or `None`
/// where no copy starts there.
pub fn slot_from_primary_offset(metadata_offset: u64, metadata_max_size: u64) -> (r: Option<u64>)
    ensures
        r matches Some(slot) ==> copy_offset(slot as int, metadata_max_size as int)
            == metadata_offset,
        r is Some <==> metadata_max_size > 0 && exists|k: nat|
            #[trigger] copy_offset(k as int, metadata_max_size as int) == metadata_offset,
{
    if metadata_max_size == 0 {
        return None;
    }
    match metadata_offset.checked_sub(METADATA_BASE_OFFSET) {
        None => {
            proof {
                assert forall|k: nat| #[trigger]
                    copy_offset(k as int, metadata_max_size as int) != metadata_offset by {
                    assert(k * metadata_max_size >= 0) by (nonlinear_arith);
                }
            }
            None
        },
        Some(base) => {
            proof {
                vstd::arithmetic::div_mod::lemma_fundamental_div_mod(
                    base as int,
                    metadata_max_size as int,
                );
                vstd::arithmetic::mul::lemma_mul_is_commutative(
                    metadata_max_size as int,
                    base as int / metadata_max_size as int,
                );
            }
            if base % metadata_max_size != 0 {
                proof {
                    assert forall|k: nat| #[trigger]
                        copy_offset(k as int, metadata_max_size as int) != metadata_offset by {
                        vstd::arithmetic::div_mod::lemma_mod_multiples_basic(
                            k as int,
                            metadata_max_size as int,
                        );
                    }
                }
                return None;
            }
            let slot = base / metadata_max_size;
            assert(copy_offset((slot as nat) as int, metadata_max_size as int) == metadata_offset);
            Some(slot)
        },
    }
}

/// The slot whose primary or backup copy starts at `metadata_offset`.
pub open spec fn is_slot_copy(
    metadata_offset: int,
    slot: int,
    slot_count: int,
    metadata_max_size: int,
) -> bool {
    &&& 0 <= slot < slot_count
    &&& copy_offset(slot, metadata_max_size) == metadata_offset || copy_offset(
        slot_count + slot,
        metadata_max_size,
    ) == metadata_offset
}

/// The slot that a metadata offset belongs to, whether it is that of the
/// primary or of the backup copy.
pub fn slot_of_offset(metadata_offset: u64, slot_count: u64, metadata_max_size: u64) -> (r: Option<
    u64,
>)
    requires
        slot_count <= u32::MAX,
    ensures
        r matches Some(slot) ==> is_slot_copy(
            metadata_offset as int,
            slot as int,
            slot_count as int,
            metadata_max_size as int,
        ),
        r is Some <==> metadata_max_size > 0 && exists|s: int| #[trigger]
            is_slot_copy(
                metadata_offset as int,
                s,
                slot_count as int,
                metadata_max_size as int,
            ),
{
    let ghost max = metadata_max_size as int;
    match slot_from_primary_offset(metadata_offset, metadata_max_size) {
        None => {
            proof {
                if metadata_max_size > 0 {
                    assert forall|s: int| !#[trigger]
                        is_slot_copy(metadata_offset as int, s, slot_count as int, max) by {
                        if 0 <= s < slot_count {
                            assert(copy_offset((s as nat) as int, max) != metadata_offset);
                            assert(copy_offset(((slot_count + s) as nat) as int, max)
                                != metadata_offset);
                        }
                    }
                }
            }
            None
        },
        Some(index) => {
            if index < slot_count {
                assert(is_slot_copy(
                    metadata_offset as int,
                    index as int,
                    slot_count as int,
                    max,
                ));
                Some(index)
            } else if index - slot_count < slot_count {
                assert(is_slot_copy(
                    metadata_offset as int,
                    index - slot_count,
                    slot_count as int,
                    max,
                ));
                Some(index - slot_count)
            } else {
                proof {
                    assert forall|s: int| !#[trigger]
                        is_slot_copy(metadata_offset as int, s, slot_count as int, max) by {
                        if 0 <= s < slot_count {
                            assert(s * max < index * max) by (nonlinear_arith)
                                requires
                                    s < index,
                                    max > 0,
                            ;
                            assert((slot_count + s) * max < index * max) by (nonlinear_arith)
                                requires
                                    slot_count + s < index,
                                    max > 0,
                            ;
                        }
                    }
                }
                None
            }
        },
    }
}

#[derive(Debug, Clone, Copy, PartialEq, Eq, Structural)]
pub struct TableDescriptor {
    pub offset: u32,
    pub num_entries: u32,
    pub entry_size: u32,
}

#[derive(Debug, Clone, Copy, PartialEq, Eq, Structural)]
pub struct Geometry {
    pub metadata_max_size: u32,
    pub metadata_slot_count: u32,
    pub logical_block_size: u32,
}

#[derive(Debug, Clone, Copy, PartialEq, Eq, Structural)]
pub struct MetadataHeader {
    pub major_version: u16,
    pub minor_version: u16,
    pub header_size: u32,
    pub tables_size: u32,
    pub partitions: TableDescriptor,
    pub extents: TableDescriptor,
    pub groups: TableDescriptor,
    pub block_devices: TableDescriptor,
}

#[derive(Debug, Clone, Copy, PartialEq, Eq, Structural)]
pub struct Extent {
    pub num_sectors: u64,
    pub target_type: u32,
    pub target_data: u64,
    pub target_source: u32,
}

#[derive(Debug, PartialEq, Eq)]
pub struct Partition {
    pub name: String,
    pub attributes: u32,
    pub first_extent_index: u32,
    pub num_extents: u32,
    pub group_index: u32,
}

#[derive(Debug, PartialEq, Eq)]
pub struct Group {
    pub name: String,
    pub flags: u32,
    pub maximum_size: u64,
}

#[derive(Debug, PartialEq, Eq)]
pub struct BlockDevice {
    pub first_logical_sector: u64,
    pub alignment: u32,
    pub alignment_offset: u32,
    pub size: u64,
    pub partition_name: String,
}

/// A partition table entry as a mathematical value.
#[verifier::ext_equal]
pub struct PartitionView {
    pub name: Seq<char>,
    pub attributes: u32,
    pub first_extent_index: u32,
    pub num_extents: u32,
    pub group_index: u32,
}

/// A group table entry as a mathematical value.
#[verifier::ext_equal]
pub struct GroupView {
    pub name: Seq<char>,
    pub flags: u32,
    pub maximum_size: u64,
}

/// A block device table entry as a mathematical value.
#[verifier::ext_equal]
pub struct BlockDeviceView {
    pub first_logical_sector: u64,
    pub alignment: u32,
    pub alignment_offset: u32,
    pub size: u64,
    pub partition_name: Seq<char>,
}

impl View for Extent {
    type V = Extent;

    open spec fn view(&self) -> Extent {
        *self
    }
}

impl View for Partition {
    type V = PartitionView;

    open spec fn view(&self) -> PartitionView {
        PartitionView {
            name: self.name@,
            attributes: self.attributes,
            first_extent_index: self.first_extent_index,
            num_extents: self.num_extents,
            group_index: self.group_index,
        }
    }
}

impl View for Group {
    type V = GroupView;

    open spec fn view(&self) -> GroupView {
        GroupView { name: self.name@, flags: self.flags, maximum_size: self.maximum_size }
    }
}

impl View for BlockDevice {
    type V = BlockDeviceView;

    open spec fn view(&self) -> BlockDeviceView {
        BlockDeviceView {
            first_logical_sector: self.first_logical_sector,
            alignment: self.alignment,
            alignment_offset: self.alignment_offset,
            size: self.size,
            partition_name: self.partition_name@,
        }
    }
}

impl Clone for Partition {
    fn clone(&self) -> (r: Self)
        ensures
            r == *self,
    {
        Partition {
            name: self.name.clone(),
            attributes: self.attributes,
            first_extent_index: self.first_extent_index,
            num_extents: self.num_extents,
            group_index: self.group_index,
        }
    }
}

impl Clone for Group {
    fn clone(&self) -> (r: Self)
        ensures
            r == *self,
    {
        Group { name: self.name.clone(), flags: self.flags, maximum_size: self.maximum_size }
    }
}

impl Clone for BlockDevice {
    fn clone(&self) -> (r: Self)
        ensures
            r == *self,
    {
        BlockDevice {
            first_logical_sector: self.first_logical_sector,
            alignment: self.alignment,
            alignment_offset: self.alignment_offset,
            size: self.size,
            partition_name: self.partition_name.clone(),
        }
    }
}

/// The values of a table, each as a mathematical value.
pub open spec fn views<T: View>(s: Seq<T>) -> Seq<T::V> {
    s.map_values(|x: T| x@)
}

/// The four tables of a metadata slot.
#[verifier::ext_equal]
pub struct TablesView {
    pub partitions: Seq<PartitionView>,
    pub extents: Seq<Extent>,
    pub groups: Seq<GroupView>,
    pub block_devices: Seq<BlockDeviceView>,
}

/// The tables that these sequences make up.
pub open spec fn tables_view(
    partitions: Seq<Partition>,
    extents: Seq<Extent>,
    groups: Seq<Group>,
    block_devices: Seq<BlockDevice>,
) -> TablesView {
    TablesView {
        partitions: partition_views(partitions),
        extents,
        groups: group_views(groups),
        block_devices: device_views(block_devices),
    }
}

/// The partitions of a table as mathematical values.
pub open spec fn partition_views(s: Seq<Partition>) -> Seq<PartitionView> {
    views(s)
}

/// The groups of a table as mathematical values.
pub open spec fn group_views(s: Seq<Group>) -> Seq<GroupView> {
    views(s)
}

/// The block devices of a table as mathematical values.
pub open spec fn device_views(s: Seq<BlockDevice>) -> Seq<BlockDeviceView> {
    views(s)
}

} // verus!
