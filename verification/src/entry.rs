//! Table entries as fixed-width records.

use crate::encoding::{
    lemma_u32_stored, lemma_u64_stored, lemma_until_zero_padded, lemma_widths, padded, push_bytes,
    push_u32, push_u64, push_zeros, read_string, read_u32, read_u64, string_at, u32_at, u64_at,
    zeros,
};
use crate::error::{Error, Fault};
use crate::format::{
    BlockDevice, BlockDeviceView, Extent, Group, GroupView, Partition, PartitionView,
};
use vstd::bytes::*;
use vstd::prelude::*;
use vstd::utf8::*;

verus! {

/// Width of a stored name.
pub const NAME_WIDTH: usize = 36;

/// Whether a name fits in its field.
pub open spec fn name_fits(name: Seq<char>) -> bool {
    encode_utf8(name).len() <= NAME_WIDTH
}

/// Whether a name reads back as it was stored: it fits, and no zero byte ends it.
pub open spec fn name_storable(name: Seq<char>) -> bool {
    &&& name_fits(name)
    &&& forall|i: int| 0 <= i < encode_utf8(name).len() ==> encode_utf8(name)[i] != 0
}

/// A name in its field.
pub open spec fn name_field(name: Seq<char>) -> Seq<u8> {
    padded(encode_utf8(name), NAME_WIDTH as int)
}

/// A value that is stored as one record of a metadata table.
pub trait TableEntry: Sized + View {
    /// The width of a written record.
    spec fn width() -> nat;

    /// The record of a value.
    spec fn rendered(v: Self::V) -> Result<Seq<u8>, Error>;

    /// The value of a record.
    spec fn parsed(data: Seq<u8>) -> Result<Self::V, Error>;

    /// Whether a value reads back as it was stored.
    spec fn storable(v: Self::V) -> bool;

    fn entry_size() -> (n: u32)
        ensures
            n == Self::width(),
            0 < n <= 64,
    ;

    fn render_entry(&self) -> (r: Result<Vec<u8>, Error>)
        ensures
            match r {
                Ok(data) => Self::rendered(self@) == Ok::<Seq<u8>, Error>(data@),
                Err(e) => Self::rendered(self@) == Err::<Seq<u8>, Error>(e),
            },
    ;

    fn parse_entry(data: &Vec<u8>) -> (r: Result<Self, Error>)
        ensures
            match r {
                Ok(v) => Self::parsed(data@) == Ok::<Self::V, Error>(v@),
                Err(e) => Self::parsed(data@) == Err::<Self::V, Error>(e),
            },
    ;

    /// A written record has its width.
    proof fn lemma_width(v: Self::V)
        ensures
            0 < Self::width() <= 64,
            Self::rendered(v) matches Ok(data) ==> data.len() == Self::width(),
    ;

    /// A stored value reads back as itself.
    proof fn lemma_stored(v: Self::V)
        requires
            Self::storable(v),
        ensures
            Self::rendered(v) is Ok,
            Self::parsed(Self::rendered(v)->Ok_0) == Ok::<Self::V, Error>(v),
    ;
}

/// Appends a name field.
fn push_name(out: &mut Vec<u8>, name: &str) -> (fits: bool)
    requires
        old(out)@.len() <= 64,
    ensures
        fits == name_fits(name@),
        fits ==> final(out)@ == old(out)@ + name_field(name@),
{
    let bytes = name.as_bytes();
    if bytes.len() > NAME_WIDTH {
        return false;
    }
    push_bytes(out, bytes);
    push_zeros(out, NAME_WIDTH - bytes.len());
    assert(out@ =~= old(out)@ + name_field(name@));
    true
}

/// A name field inside a record reads back as the name.
proof fn lemma_name_stored(data: Seq<u8>, at: int, name: Seq<char>)
    requires
        name_storable(name),
        0 <= at,
        at + NAME_WIDTH <= data.len(),
        data.subrange(at, at + NAME_WIDTH) == name_field(name),
    ensures
        string_at(data, at, NAME_WIDTH as int) == name,
{
    lemma_until_zero_padded(encode_utf8(name), NAME_WIDTH as int);
    encode_utf8_valid_utf8(name);
    encode_utf8_decode_utf8(name);
}

/// The record of a partition.
pub open spec fn partition_bytes(p: PartitionView) -> Seq<u8> {
    name_field(p.name) + spec_u32_to_le_bytes(p.attributes) + spec_u32_to_le_bytes(
        p.first_extent_index,
    ) + spec_u32_to_le_bytes(p.num_extents) + spec_u32_to_le_bytes(p.group_index)
}

impl TableEntry for Partition {
    open spec fn width() -> nat {
        52
    }

    open spec fn rendered(p: PartitionView) -> Result<Seq<u8>, Error> {
        if name_fits(p.name) {
            Ok(partition_bytes(p))
        } else {
            Err(Error::Invalid(Fault::PartitionName))
        }
    }

    open spec fn parsed(data: Seq<u8>) -> Result<PartitionView, Error> {
        if data.len() < 0x34 {
            Err(Error::Invalid(Fault::FieldMissing))
        } else {
            Ok(
                PartitionView {
                    name: string_at(data, 0, NAME_WIDTH as int),
                    attributes: u32_at(data, 0x24),
                    first_extent_index: u32_at(data, 0x28),
                    num_extents: u32_at(data, 0x2C),
                    group_index: u32_at(data, 0x30),
                },
            )
        }
    }

    open spec fn storable(p: PartitionView) -> bool {
        name_storable(p.name)
    }

    fn entry_size() -> (n: u32) {
        52
    }

    fn render_entry(&self) -> (r: Result<Vec<u8>, Error>) {
        let mut data: Vec<u8> = Vec::new();
        if !push_name(&mut data, self.name.as_str()) {
            return Err(Error::Invalid(Fault::PartitionName));
        }
        push_u32(&mut data, self.attributes);
        push_u32(&mut data, self.first_extent_index);
        push_u32(&mut data, self.num_extents);
        push_u32(&mut data, self.group_index);
        assert(data@ =~= partition_bytes(self@));
        Ok(data)
    }

    fn parse_entry(data: &Vec<u8>) -> (r: Result<Self, Error>) {
        Ok(
            Partition {
                name: read_string(data, 0, NAME_WIDTH),
                attributes: read_u32(data, 0x24)?,
                first_extent_index: read_u32(data, 0x28)?,
                num_extents: read_u32(data, 0x2C)?,
                group_index: read_u32(data, 0x30)?,
            },
        )
    }

    proof fn lemma_width(p: PartitionView) {
        lemma_widths();
    }

    proof fn lemma_stored(p: PartitionView) {
        lemma_widths();
        let data = partition_bytes(p);
        assert(data.subrange(0, 36) =~= name_field(p.name));
        lemma_name_stored(data, 0, p.name);
        assert(data.subrange(0x24, 0x28) =~= spec_u32_to_le_bytes(p.attributes));
        lemma_u32_stored(data, 0x24, p.attributes);
        assert(data.subrange(0x28, 0x2C) =~= spec_u32_to_le_bytes(p.first_extent_index));
        lemma_u32_stored(data, 0x28, p.first_extent_index);
        assert(data.subrange(0x2C, 0x30) =~= spec_u32_to_le_bytes(p.num_extents));
        lemma_u32_stored(data, 0x2C, p.num_extents);
        assert(data.subrange(0x30, 0x34) =~= spec_u32_to_le_bytes(p.group_index));
        lemma_u32_stored(data, 0x30, p.group_index);
    }
}

/// The record of an extent.
pub open spec fn extent_bytes(e: Extent) -> Seq<u8> {
    spec_u64_to_le_bytes(e.num_sectors) + spec_u32_to_le_bytes(e.target_type)
        + spec_u64_to_le_bytes(e.target_data) + spec_u32_to_le_bytes(e.target_source)
}

impl TableEntry for Extent {
    open spec fn width() -> nat {
        24
    }

    open spec fn rendered(e: Extent) -> Result<Seq<u8>, Error> {
        Ok(extent_bytes(e))
    }

    open spec fn parsed(data: Seq<u8>) -> Result<Extent, Error> {
        if data.len() < 0x18 {
            Err(Error::Invalid(Fault::FieldMissing))
        } else {
            Ok(
                Extent {
                    num_sectors: u64_at(data, 0),
                    target_type: u32_at(data, 0x08),
                    target_data: u64_at(data, 0x0C),
                    target_source: u32_at(data, 0x14),
                },
            )
        }
    }

    open spec fn storable(e: Extent) -> bool {
        true
    }

    fn entry_size() -> (n: u32) {
        24
    }

    fn render_entry(&self) -> (r: Result<Vec<u8>, Error>) {
        let mut data: Vec<u8> = Vec::new();
        push_u64(&mut data, self.num_sectors);
        push_u32(&mut data, self.target_type);
        push_u64(&mut data, self.target_data);
        push_u32(&mut data, self.target_source);
        assert(data@ =~= extent_bytes(*self));
        Ok(data)
    }

    fn parse_entry(data: &Vec<u8>) -> (r: Result<Self, Error>) {
        Ok(
            Extent {
                num_sectors: read_u64(data, 0)?,
                target_type: read_u32(data, 0x08)?,
                target_data: read_u64(data, 0x0C)?,
                target_source: read_u32(data, 0x14)?,
            },
        )
    }

    proof fn lemma_width(e: Extent) {
        lemma_widths();
    }

    proof fn lemma_stored(e: Extent) {
        lemma_widths();
        let data = extent_bytes(e);
        assert(data.subrange(0, 8) =~= spec_u64_to_le_bytes(e.num_sectors));
        lemma_u64_stored(data, 0, e.num_sectors);
        assert(data.subrange(8, 0x0C) =~= spec_u32_to_le_bytes(e.target_type));
        lemma_u32_stored(data, 8, e.target_type);
        assert(data.subrange(0x0C, 0x14) =~= spec_u64_to_le_bytes(e.target_data));
        lemma_u64_stored(data, 0x0C, e.target_data);
        assert(data.subrange(0x14, 0x18) =~= spec_u32_to_le_bytes(e.target_source));
        lemma_u32_stored(data, 0x14, e.target_source);
    }
}

/// The record of a group.
pub open spec fn group_bytes(g: GroupView) -> Seq<u8> {
    name_field(g.name) + spec_u32_to_le_bytes(g.flags) + spec_u64_to_le_bytes(g.maximum_size)
}

impl TableEntry for Group {
    open spec fn width() -> nat {
        48
    }

    open spec fn rendered(g: GroupView) -> Result<Seq<u8>, Error> {
        if name_fits(g.name) {
            Ok(group_bytes(g))
        } else {
            Err(Error::Invalid(Fault::GroupName))
        }
    }

    open spec fn parsed(data: Seq<u8>) -> Result<GroupView, Error> {
        if data.len() < 0x30 {
            Err(Error::Invalid(Fault::FieldMissing))
        } else {
            Ok(
                GroupView {
                    name: string_at(data, 0, NAME_WIDTH as int),
                    flags: u32_at(data, 0x24),
                    maximum_size: u64_at(data, 0x28),
                },
            )
        }
    }

    open spec fn storable(g: GroupView) -> bool {
        name_storable(g.name)
    }

    fn entry_size() -> (n: u32) {
        48
    }

    fn render_entry(&self) -> (r: Result<Vec<u8>, Error>) {
        let mut data: Vec<u8> = Vec::new();
        if !push_name(&mut data, self.name.as_str()) {
            return Err(Error::Invalid(Fault::GroupName));
        }
        push_u32(&mut data, self.flags);
        push_u64(&mut data, self.maximum_size);
        assert(data@ =~= group_bytes(self@));
        Ok(data)
    }

    fn parse_entry(data: &Vec<u8>) -> (r: Result<Self, Error>) {
        Ok(
            Group {
                name: read_string(data, 0, NAME_WIDTH),
                flags: read_u32(data, 0x24)?,
                maximum_size: read_u64(data, 0x28)?,
            },
        )
    }

    proof fn lemma_width(g: GroupView) {
        lemma_widths();
    }

    proof fn lemma_stored(g: GroupView) {
        lemma_widths();
        let data = group_bytes(g);
        assert(data.subrange(0, 36) =~= name_field(g.name));
        lemma_name_stored(data, 0, g.name);
        assert(data.subrange(0x24, 0x28) =~= spec_u32_to_le_bytes(g.flags));
        lemma_u32_stored(data, 0x24, g.flags);
        assert(data.subrange(0x28, 0x30) =~= spec_u64_to_le_bytes(g.maximum_size));
        lemma_u64_stored(data, 0x28, g.maximum_size);
    }
}

/// The record of a block device.
pub open spec fn device_bytes(d: BlockDeviceView) -> Seq<u8> {
    spec_u64_to_le_bytes(d.first_logical_sector) + spec_u32_to_le_bytes(d.alignment)
        + spec_u32_to_le_bytes(d.alignment_offset) + spec_u64_to_le_bytes(d.size) + name_field(
        d.partition_name,
    ) + zeros(4)
}

impl TableEntry for BlockDevice {
    open spec fn width() -> nat {
        64
    }

    open spec fn rendered(d: BlockDeviceView) -> Result<Seq<u8>, Error> {
        if name_fits(d.partition_name) {
            Ok(device_bytes(d))
        } else {
            Err(Error::Invalid(Fault::DeviceName))
        }
    }

    open spec fn parsed(data: Seq<u8>) -> Result<BlockDeviceView, Error> {
        if data.len() < 0x18 {
            Err(Error::Invalid(Fault::FieldMissing))
        } else {
            Ok(
                BlockDeviceView {
                    first_logical_sector: u64_at(data, 0),
                    alignment: u32_at(data, 0x08),
                    alignment_offset: u32_at(data, 0x0C),
                    size: u64_at(data, 0x10),
                    partition_name: string_at(data, 0x18, NAME_WIDTH as int),
                },
            )
        }
    }

    open spec fn storable(d: BlockDeviceView) -> bool {
        name_storable(d.partition_name)
    }

    fn entry_size() -> (n: u32) {
        64
    }

    fn render_entry(&self) -> (r: Result<Vec<u8>, Error>) {
        let mut data: Vec<u8> = Vec::new();
        push_u64(&mut data, self.first_logical_sector);
        push_u32(&mut data, self.alignment);
        push_u32(&mut data, self.alignment_offset);
        push_u64(&mut data, self.size);
        proof {
            lemma_widths();
        }
        if !push_name(&mut data, self.partition_name.as_str()) {
            return Err(Error::Invalid(Fault::DeviceName));
        }
        push_zeros(&mut data, 4);
        assert(data@ =~= device_bytes(self@));
        Ok(data)
    }

    fn parse_entry(data: &Vec<u8>) -> (r: Result<Self, Error>) {
        Ok(
            BlockDevice {
                first_logical_sector: read_u64(data, 0)?,
                alignment: read_u32(data, 0x08)?,
                alignment_offset: read_u32(data, 0x0C)?,
                size: read_u64(data, 0x10)?,
                partition_name: read_string(data, 0x18, NAME_WIDTH),
            },
        )
    }

    proof fn lemma_width(d: BlockDeviceView) {
        lemma_widths();
    }

    proof fn lemma_stored(d: BlockDeviceView) {
        lemma_widths();
        let data = device_bytes(d);
        assert(data.subrange(0, 8) =~= spec_u64_to_le_bytes(d.first_logical_sector));
        lemma_u64_stored(data, 0, d.first_logical_sector);
        assert(data.subrange(8, 0x0C) =~= spec_u32_to_le_bytes(d.alignment));
        lemma_u32_stored(data, 8, d.alignment);
        assert(data.subrange(0x0C, 0x10) =~= spec_u32_to_le_bytes(d.alignment_offset));
        lemma_u32_stored(data, 0x0C, d.alignment_offset);
        assert(data.subrange(0x10, 0x18) =~= spec_u64_to_le_bytes(d.size));
        lemma_u64_stored(data, 0x10, d.size);
        assert(data.subrange(0x18, 0x3C) =~= name_field(d.partition_name));
        lemma_name_stored(data, 0x18, d.partition_name);
    }
}

} // verus!
