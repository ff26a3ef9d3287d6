//! The specifications from which an image is made: devices, groups, partitions,
//! slots and outputs.

use crate::commands::arguments::{
    attributes, parse_attrs, parse_size, parse_slot_opt, size_value, slot_selector,
};
use crate::entry::{name_fits, NAME_WIDTH};
use crate::error::{Error, Fault};
use crate::format::{Group, GroupView};
use crate::text::{
    parse_u32, parsed_number, position_of, split_limit, split_once, splitn, texts, trim, trimmed,
};
use vstd::prelude::*;
use vstd::string::*;
use vstd::utf8::*;

verus! {

/// A block device to be made.
#[derive(Debug)]
pub struct DeviceSpec {
    pub name: String,
    pub size: u64,
    pub alignment: u32,
    pub alignment_offset: u32,
}

/// A block device to be made, as a mathematical value.
#[verifier::ext_equal]
pub struct DeviceSpecView {
    pub name: Seq<char>,
    pub size: u64,
    pub alignment: u32,
    pub alignment_offset: u32,
}

impl View for DeviceSpec {
    type V = DeviceSpecView;

    open spec fn view(&self) -> DeviceSpecView {
        DeviceSpecView {
            name: self.name@,
            size: self.size,
            alignment: self.alignment,
            alignment_offset: self.alignment_offset,
        }
    }
}

/// A partition to be made. `payload_len` is the length of the payload file.
#[derive(Debug)]
pub struct PartitionSpec {
    pub name: String,
    pub attrs: u32,
    pub group: String,
    pub device: Option<String>,
    pub payload: Option<String>,
    pub payload_len: u64,
}

/// A partition to be made, as a mathematical value.
#[verifier::ext_equal]
pub struct PartitionSpecView {
    pub name: Seq<char>,
    pub attrs: u32,
    pub group: Seq<char>,
    pub device: Option<Seq<char>>,
    pub payload: Option<Seq<char>>,
    pub payload_len: u64,
}

/// The characters of an optional string.
pub open spec fn text_of(s: Option<String>) -> Option<Seq<char>> {
    match s {
        Some(t) => Some(t@),
        None => None,
    }
}

impl View for PartitionSpec {
    type V = PartitionSpecView;

    open spec fn view(&self) -> PartitionSpecView {
        PartitionSpecView {
            name: self.name@,
            attrs: self.attrs,
            group: self.group@,
            device: text_of(self.device),
            payload: text_of(self.payload),
            payload_len: self.payload_len,
        }
    }
}

/// The `k`-th part of a specification, trimmed, or nothing.
pub open spec fn part(parts: Seq<Seq<char>>, k: int) -> Seq<char> {
    if k < parts.len() {
        trimmed(parts[k])
    } else {
        Seq::empty()
    }
}

/// A size that has to fit in 32 bits.
pub open spec fn small_size(s: Seq<char>) -> Result<u32, Error> {
    match size_value(s, false) {
        Err(e) => Err(e),
        Ok(n) => if n > u32::MAX {
            Err(Error::Invalid(Fault::AlignmentSize))
        } else {
            Ok(n as u32)
        },
    }
}

/// The device that a specification `name:size[:alignment[:alignment_offset]]`
/// describes.
pub open spec fn device_spec(s: Seq<char>, default_alignment: u32) -> Result<
    DeviceSpecView,
    Error,
> {
    let parts = split_limit(s, ':', 4);
    let name = part(parts, 0);
    let size = size_value(part(parts, 1), false);
    let alignment = if part(parts, 2).len() == 0 {
        Ok(default_alignment)
    } else {
        small_size(part(parts, 2))
    };
    let offset = if part(parts, 3).len() == 0 {
        Some(0nat)
    } else {
        parsed_number(part(parts, 3), u32::MAX as nat)
    };
    if name.len() == 0 || part(parts, 1).len() == 0 {
        Err(Error::Invalid(Fault::DeviceSpec))
    } else if !name_fits(name) {
        Err(Error::Invalid(Fault::DeviceName))
    } else if size is Err {
        Err(size->Err_0)
    } else if size->Ok_0 == 0 {
        Err(Error::Invalid(Fault::DeviceEmpty))
    } else if alignment is Err {
        Err(alignment->Err_0)
    } else if offset is None {
        Err(Error::Invalid(Fault::AlignmentOffset))
    } else {
        Ok(
            DeviceSpecView {
                name,
                size: size->Ok_0,
                alignment: alignment->Ok_0,
                alignment_offset: offset->Some_0 as u32,
            },
        )
    }
}

/// The `k`-th part of a specification, trimmed.
fn part_of(parts: &Vec<String>, k: usize) -> (r: String)
    ensures
        r@ == part(texts(parts@), k as int),
{
    if k < parts.len() {
        assert(texts(parts@)[k as int] == parts@[k as int]@);
        String::from_str(trim(parts[k].as_str()))
    } else {
        let s = String::new();
        assert(s@ =~= Seq::<char>::empty());
        s
    }
}

/// Whether a name fits in its field.
pub fn fits(name: &str) -> (r: bool)
    ensures
        r == name_fits(name@),
{
    name.as_bytes().len() <= NAME_WIDTH
}

/// Reads a size that has to fit in 32 bits.
pub fn parse_small_size(s: &str) -> (r: Result<u32, Error>)
    ensures
        r == small_size(s@),
{
    let n = parse_size(s, false)?;
    if n > 0xffff_ffff {
        return Err(Error::Invalid(Fault::AlignmentSize));
    }
    Ok(n as u32)
}

/// Reads a device specification.
pub fn parse_device_spec(s: &str, default_alignment: u32) -> (r: Result<DeviceSpec, Error>)
    ensures
        match r {
            Ok(d) => device_spec(s@, default_alignment) == Ok::<DeviceSpecView, Error>(d@),
            Err(e) => device_spec(s@, default_alignment) == Err::<DeviceSpecView, Error>(e),
        },
{
    let parts = splitn(s, ':', 4);
    let name = part_of(&parts, 0);
    let size_text = part_of(&parts, 1);
    let alignment_text = part_of(&parts, 2);
    let offset_text = part_of(&parts, 3);
    if name.as_str().unicode_len() == 0 || size_text.as_str().unicode_len() == 0 {
        return Err(Error::Invalid(Fault::DeviceSpec));
    }
    if !fits(name.as_str()) {
        return Err(Error::Invalid(Fault::DeviceName));
    }
    let size = parse_size(size_text.as_str(), false)?;
    if size == 0 {
        return Err(Error::Invalid(Fault::DeviceEmpty));
    }
    let alignment = if alignment_text.as_str().unicode_len() == 0 {
        default_alignment
    } else {
        parse_small_size(alignment_text.as_str())?
    };
    let alignment_offset = if offset_text.as_str().unicode_len() == 0 {
        0
    } else {
        match parse_u32(offset_text.as_str()) {
            Some(n) => n,
            None => {
                return Err(Error::Invalid(Fault::AlignmentOffset));
            },
        }
    };
    Ok(DeviceSpec { name, size, alignment, alignment_offset })
}

/// The group that a specification `name:max_size` describes.
pub open spec fn group_spec(s: Seq<char>) -> Result<GroupView, Error> {
    let at = position_of(s, ':');
    let name = trimmed(s.take(at));
    if at >= s.len() || name.len() == 0 {
        Err(Error::Invalid(Fault::GroupSpec))
    } else if !name_fits(name) {
        Err(Error::Invalid(Fault::GroupName))
    } else {
        match size_value(trimmed(s.skip(at + 1)), false) {
            Err(e) => Err(e),
            Ok(maximum_size) => Ok(GroupView { name, flags: 0, maximum_size }),
        }
    }
}

/// Reads a group specification.
pub fn parse_group_spec(s: &str) -> (r: Result<Group, Error>)
    ensures
        match r {
            Ok(g) => group_spec(s@) == Ok::<GroupView, Error>(g@),
            Err(e) => group_spec(s@) == Err::<GroupView, Error>(e),
        },
{
    match split_once(s, ':') {
        None => Err(Error::Invalid(Fault::GroupSpec)),
        Some((front, back)) => {
            let name = String::from_str(trim(front.as_str()));
            if name.as_str().unicode_len() == 0 {
                return Err(Error::Invalid(Fault::GroupSpec));
            }
            if !fits(name.as_str()) {
                return Err(Error::Invalid(Fault::GroupName));
            }
            let maximum_size = parse_size(trim(back.as_str()), false)?;
            Ok(Group { name, flags: 0, maximum_size })
        },
    }
}

/// The group and the device that `group[@device]` names.
pub open spec fn group_and_device(s: Seq<char>) -> (Seq<char>, Option<Seq<char>>) {
    let at = position_of(s, '@');
    if at < s.len() {
        (trimmed(s.take(at)), Some(trimmed(s.skip(at + 1))))
    } else {
        (s, None)
    }
}

/// The partition that a specification `name:attrs:group[@device][:payload]`
/// describes; the length of its payload is not part of it.
pub open spec fn partition_spec(s: Seq<char>) -> Result<PartitionSpecView, Error> {
    let parts = split_limit(s, ':', 4);
    let name = part(parts, 0);
    let (group, device) = group_and_device(part(parts, 2));
    let attrs = attributes(part(parts, 1), true);
    let payload = part(parts, 3);
    if parts.len() < 3 || name.len() == 0 || group.len() == 0 || (device matches Some(d) && d.len()
        == 0) {
        Err(Error::Invalid(Fault::PartitionSpec))
    } else if !name_fits(name) {
        Err(Error::Invalid(Fault::PartitionName))
    } else if attrs is Err {
        Err(attrs->Err_0)
    } else {
        Ok(
            PartitionSpecView {
                name,
                attrs: attrs->Ok_0,
                group,
                device,
                payload: if payload.len() == 0 {
                    None
                } else {
                    Some(payload)
                },
                payload_len: 0,
            },
        )
    }
}

/// Reads a partition specification.
pub fn parse_partition_spec(s: &str) -> (r: Result<PartitionSpec, Error>)
    ensures
        match r {
            Ok(p) => partition_spec(s@) == Ok::<PartitionSpecView, Error>(p@),
            Err(e) => partition_spec(s@) == Err::<PartitionSpecView, Error>(e),
        },
{
    let parts = splitn(s, ':', 4);
    if parts.len() < 3 {
        return Err(Error::Invalid(Fault::PartitionSpec));
    }
    let name = part_of(&parts, 0);
    let attr_text = part_of(&parts, 1);
    let group_text = part_of(&parts, 2);
    let payload_text = part_of(&parts, 3);
    let (group, device) = match split_once(group_text.as_str(), '@') {
        Some((front, back)) => {
            let d = String::from_str(trim(back.as_str()));
            if d.as_str().unicode_len() == 0 {
                return Err(Error::Invalid(Fault::PartitionSpec));
            }
            (String::from_str(trim(front.as_str())), Some(d))
        },
        None => (group_text, None),
    };
    if name.as_str().unicode_len() == 0 || group.as_str().unicode_len() == 0 {
        return Err(Error::Invalid(Fault::PartitionSpec));
    }
    if !fits(name.as_str()) {
        return Err(Error::Invalid(Fault::PartitionName));
    }
    let attrs = parse_attrs(attr_text.as_str(), true)?;
    let payload = if payload_text.as_str().unicode_len() == 0 {
        None
    } else {
        Some(payload_text)
    };
    Ok(PartitionSpec { name, attrs, group, device, payload, payload_len: 0 })
}

/// The slots to be made: one, or all.
pub open spec fn chosen_slots(s: Seq<char>, count: u32) -> Result<Seq<u64>, Error> {
    match slot_selector(trimmed(s)) {
        Err(e) => Err(e),
        Ok(None) => Ok(Seq::new(count as nat, |i: int| i as u64)),
        Ok(Some(n)) => if n >= count {
            Err(Error::NotFound(Fault::SlotRange { slot: n, count: count as u64 }))
        } else {
            Ok(seq![n])
        },
    }
}

/// Reads the slots to be made.
pub fn parse_slots(s: &str, slot_count: u32) -> (r: Result<Vec<u64>, Error>)
    ensures
        match r {
            Ok(v) => chosen_slots(s@, slot_count) == Ok::<Seq<u64>, Error>(v@),
            Err(e) => chosen_slots(s@, slot_count) == Err::<Seq<u64>, Error>(e),
        },
{
    let mut out: Vec<u64> = Vec::new();
    match parse_slot_opt(trim(s))? {
        Some(n) => {
            if n >= slot_count as u64 {
                return Err(
                    Error::NotFound(Fault::SlotRange { slot: n, count: slot_count as u64 }),
                );
            }
            out.push(n);
            assert(out@ =~= seq![n]);
        },
        None => {
            let mut i: u32 = 0;
            while i < slot_count
                invariant
                    i <= slot_count,
                    out@ =~= Seq::new(i as nat, |k: int| k as u64),
                decreases slot_count - i,
            {
                out.push(i as u64);
                i += 1;
            }
            assert(out@ =~= Seq::new(slot_count as nat, |k: int| k as u64));
        },
    }
    Ok(out)
}

} // verus!
