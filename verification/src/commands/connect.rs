//! Connecting a partition to a loop device: which bytes of the image it covers,
//! and the loop driver's records.

use crate::encoding::{push_u32, push_u64, push_zeros, read_u64, u64_at, zeros, lemma_widths};
use crate::error::{Error, Fault, NameError};
use crate::format::{PartitionView, TablesView, LP_SECTOR_SIZE, LP_TARGET_TYPE_LINEAR};
use crate::reader::data::{
    base_of, capped, extents_of_partition, names_of, option_view, passes, sector_total, SuperData,
};
use crate::text::{concat, decimal, str_eq, to_decimal, trim, trimmed};
use vstd::bytes::*;
use vstd::prelude::*;
use vstd::string::*;

verus! {

/// A request to connect a partition.
#[derive(Debug)]
pub struct ConnectArgs {
    pub image: String,
    pub partition: String,
    pub slot: String,
    pub suffix: String,
}

/// A request to disconnect a partition.
#[derive(Debug)]
pub struct DisconnectArgs {
    pub image: String,
    pub partition: String,
    pub slot: String,
    pub suffix: String,
}

/// Whether a partition answers to a full name or a base name.
pub open spec fn candidate(p: PartitionView, name: Seq<char>, suffix: Option<Seq<char>>) -> bool {
    (p.name == name || base_of(p.name) == name) && passes(p.name, suffix)
}

/// The candidates from the `i`-th partition on.
pub open spec fn candidates(
    parts: Seq<PartitionView>,
    name: Seq<char>,
    suffix: Option<Seq<char>>,
    i: int,
) -> Seq<int>
    decreases parts.len() - i,
{
    if i < 0 || i >= parts.len() {
        Seq::empty()
    } else if candidate(parts[i], name, suffix) {
        seq![i] + candidates(parts, name, suffix, i + 1)
    } else {
        candidates(parts, name, suffix, i + 1)
    }
}

/// Lists the candidates for a name.
pub fn list_candidates(data: &SuperData, name: &str, suffix: Option<&str>) -> (r: Vec<usize>)
    ensures
        r@.map_values(|i: usize| i as int) == candidates(
            data@.tables.partitions,
            name@,
            option_view(suffix),
            0,
        ),
        forall|k: int| 0 <= k < r@.len() ==> #[trigger] r@[k] < data.partitions@.len(),
{
    let ghost parts = data@.tables.partitions;
    let ghost filter = option_view(suffix);
    let mut out: Vec<usize> = Vec::new();
    let mut i: usize = 0;
    assert(out@.map_values(|i: usize| i as int) + candidates(parts, name@, filter, 0)
        =~= candidates(parts, name@, filter, 0));
    while i < data.partitions.len()
        invariant
            i <= data.partitions.len(),
            parts == data@.tables.partitions,
            filter == option_view(suffix),
            candidates(parts, name@, filter, 0) == out@.map_values(|i: usize| i as int)
                + candidates(parts, name@, filter, i as int),
            forall|k: int| 0 <= k < out@.len() ==> #[trigger] out@[k] < data.partitions@.len(),
        decreases data.partitions.len() - i,
    {
        let p = data.partitions[i].name.as_str();
        assert(parts[i as int] == data.partitions@[i as int]@);
        if (str_eq(p, name) || str_eq(SuperData::strip_suffix(p), name))
            && SuperData::passes_suffix(p, suffix) {
            let ghost before = out@;
            out.push(i);
            proof {
                let rest = candidates(parts, name@, filter, i + 1);
                assert(before.map_values(|i: usize| i as int) + (seq![i as int] + rest)
                    =~= out@.map_values(|i: usize| i as int) + rest);
            }
        }
        i += 1;
    }
    assert(out@.map_values(|i: usize| i as int) + Seq::<int>::empty() =~= out@.map_values(
        |i: usize| i as int,
    ));
    out
}

/// The part of an image that a loop device covers.
#[derive(Debug, Clone, Copy, PartialEq, Eq, Structural)]
pub struct LoopWindow {
    pub index: usize,
    pub offset: u64,
    pub size: u64,
}

/// The window of a partition: it has to consist of a single extent. A new loop
/// device takes only a linear one.
pub open spec fn window_of(t: TablesView, i: int, linear: bool) -> Result<LoopWindow, Error> {
    let p = t.partitions[i];
    let e = t.extents[p.first_extent_index as int];
    if p.num_extents == 0 {
        Err(Error::Invalid(Fault::NoExtents))
    } else if p.num_extents > 1 {
        Err(Error::Invalid(Fault::Fragmented { extents: p.num_extents }))
    } else if p.first_extent_index >= t.extents.len() {
        Err(Error::Invalid(Fault::ExtentIndex))
    } else if linear && e.target_type != LP_TARGET_TYPE_LINEAR {
        Err(Error::Invalid(Fault::NotLinear))
    } else if e.target_data * 512 > u64::MAX {
        Err(Error::Invalid(Fault::PhysicalOffset))
    } else {
        Ok(
            LoopWindow {
                index: i as usize,
                offset: (e.target_data * 512) as u64,
                size: capped(512 * sector_total(extents_of_partition(t.extents, p))),
            },
        )
    }
}

/// The window of the only partition that answers to a name.
pub open spec fn named_window(
    t: TablesView,
    name: Seq<char>,
    suffix: Option<Seq<char>>,
    linear: bool,
) -> Result<LoopWindow, Error> {
    let found = candidates(t.partitions, name, suffix, 0);
    if found.len() == 0 {
        Err(Error::NotFound(Fault::Partition))
    } else if found.len() > 1 {
        Err(Error::Invalid(Fault::Ambiguous))
    } else {
        window_of(t, found[0], linear)
    }
}

/// Finds the window of a partition. A name of several partitions is refused, with
/// the names of them all.
pub fn loop_window(data: &SuperData, name: &str, suffix: Option<&str>, linear: bool) -> (r: Result<
    LoopWindow,
    NameError,
>)
    ensures
        ({
            let wanted = named_window(data@.tables, name@, option_view(suffix), linear);
            let parts = data@.tables.partitions;
            match r {
                Ok(w) => wanted == Ok::<LoopWindow, Error>(w) && w.index < data.partitions@.len(),
                Err(e) => wanted == Err::<LoopWindow, Error>(e.fault()) && e.lists(
                    names_of(parts, candidates(parts, name@, option_view(suffix), 0)),
                ),
            }
        }),
{
    let found = list_candidates(data, name, suffix);
    let ghost mapped = found@.map_values(|i: usize| i as int);
    assert(mapped.len() == found@.len());
    if found.len() == 0 {
        return Err(NameError::Failed(Error::NotFound(Fault::Partition)));
    }
    if found.len() > 1 {
        return Err(NameError::Ambiguous { names: data.list_names(&found) });
    }
    let index = found[0];
    assert(mapped[0] == index);
    match partition_window(data, index, linear) {
        Ok(w) => Ok(w),
        Err(e) => Err(NameError::Failed(e)),
    }
}

/// Finds the window of the partition with this index.
fn partition_window(data: &SuperData, index: usize, linear: bool) -> (r: Result<LoopWindow, Error>)
    requires
        index < data.partitions@.len(),
    ensures
        r == window_of(data@.tables, index as int, linear),
        r matches Ok(w) ==> w.index == index,
        r != Err::<LoopWindow, Error>(Error::Invalid(Fault::Ambiguous)),
{
    let p = &data.partitions[index];
    assert(data@.tables.partitions[index as int] == p@);
    if p.num_extents == 0 {
        return Err(Error::Invalid(Fault::NoExtents));
    }
    if p.num_extents > 1 {
        return Err(Error::Invalid(Fault::Fragmented { extents: p.num_extents }));
    }
    if p.first_extent_index as usize >= data.extents.len() {
        return Err(Error::Invalid(Fault::ExtentIndex));
    }
    let e = data.extents[p.first_extent_index as usize];
    if linear && e.target_type != LP_TARGET_TYPE_LINEAR {
        return Err(Error::Invalid(Fault::NotLinear));
    }
    let offset = match e.target_data.checked_mul(LP_SECTOR_SIZE) {
        Some(v) => v,
        None => {
            return Err(Error::Invalid(Fault::PhysicalOffset));
        },
    };
    Ok(LoopWindow { index, offset, size: data.partition_size(p) })
}

/// Scan the device for partitions.
pub const LO_FLAGS_PARTSCAN: u32 = 8;

/// Size of the loop driver's record.
pub const LOOP_INFO_SIZE: usize = 232;

/// The loop driver's record of a device: offset, size limit and flags are set.
pub open spec fn loop_record(offset: u64, size: u64, flags: u32) -> Seq<u8> {
    zeros(24) + spec_u64_to_le_bytes(offset) + spec_u64_to_le_bytes(size) + zeros(12)
        + spec_u32_to_le_bytes(flags) + zeros(176)
}

/// Renders the loop driver's record.
pub fn loop_info(offset: u64, size: u64, flags: u32) -> (r: Vec<u8>)
    ensures
        r@ == loop_record(offset, size, flags),
        r@.len() == LOOP_INFO_SIZE,
{
    let mut out: Vec<u8> = Vec::new();
    proof {
        lemma_widths();
    }
    push_zeros(&mut out, 24);
    push_u64(&mut out, offset);
    push_u64(&mut out, size);
    push_zeros(&mut out, 12);
    push_u32(&mut out, flags);
    push_zeros(&mut out, 176);
    assert(out@ =~= loop_record(offset, size, flags));
    out
}

/// Whether a loop driver's record has this offset and size limit.
pub open spec fn record_matches(info: Seq<u8>, offset: u64, size: u64) -> bool {
    info.len() >= 40 && u64_at(info, 24) == offset && u64_at(info, 32) == size
}

/// Whether the backing file that the system reports is this one, deleted or not.
pub open spec fn is_backed_by(content: Seq<char>, path: Seq<char>) -> bool {
    trimmed(content) == path || trimmed(content) == path + " (deleted)"@
}

/// The loop device to use: the first free one, or else the one that was offered.
pub open spec fn loop_choice(offered: u32, nodes: Seq<LoopNode>) -> u32 {
    match first_idle(nodes, 0) {
        Some(i) => i as u32,
        None => offered,
    }
}

/// Whether a loop driver's record has this offset and size limit.
pub fn info_matches(info: &Vec<u8>, offset: u64, size: u64) -> (r: bool)
    ensures
        r == record_matches(info@, offset, size),
{
    match (read_u64(info, 24), read_u64(info, 32)) {
        (Ok(o), Ok(s)) => o == offset && s == size,
        _ => false,
    }
}

/// Whether a loop device's backing file, as the system reports it, is this one;
/// it may have been deleted since.
pub fn backing_matches(content: &str, path: &str) -> (r: bool)
    ensures
        r == is_backed_by(content@, path@),
{
    let shown = trim(content);
    str_eq(shown, path) || str_eq(shown, concat(path, " (deleted)").as_str())
}

/// The two paths that a loop device may have.
pub fn loop_path(number: u32, android: bool) -> (r: String)
    ensures
        r@ == (if android {
            "/dev/block/loop"@
        } else {
            "/dev/loop"@
        }) + decimal(number as nat),
{
    if android {
        concat("/dev/block/loop", to_decimal(number as u64).as_str())
    } else {
        concat("/dev/loop", to_decimal(number as u64).as_str())
    }
}

/// What is known of a loop device.
#[derive(Debug, Clone, Copy, PartialEq, Eq, Structural)]
pub struct LoopNode {
    pub exists_here: bool,
    pub busy: bool,
}

/// The first free loop device from the `i`-th on.
pub open spec fn first_idle(nodes: Seq<LoopNode>, i: int) -> Option<int>
    decreases nodes.len() - i,
{
    if i < 0 || i >= nodes.len() {
        None
    } else if nodes[i].exists_here && !nodes[i].busy {
        Some(i)
    } else {
        first_idle(nodes, i + 1)
    }
}

/// The loop device to use where the one that the driver offered has no node: the
/// first free one that has, or else the one that was offered.
pub fn pick_loop(offered: u32, nodes: &Vec<LoopNode>) -> (r: u32)
    requires
        nodes@.len() <= u32::MAX,
    ensures
        r == loop_choice(offered, nodes@),
{
    let mut i: usize = 0;
    while i < nodes.len()
        invariant
            i <= nodes.len() <= u32::MAX,
            first_idle(nodes@, 0) == first_idle(nodes@, i as int),
        decreases nodes.len() - i,
    {
        if nodes[i].exists_here && !nodes[i].busy {
            return i as u32;
        }
        i += 1;
    }
    offered
}

} // verus!
