//! Reading a range of a partition.

use crate::commands::arguments::{parse_size_or_zero, size_or_zero};
use crate::commands::make_specs::text_of;
use crate::commands::split_util::partition_extents;
use crate::error::{Error, Fault};
use crate::format::{Extent, TablesView};
use crate::reader::data::{
    capped, extents_of_partition, lemma_sector_total, sector_total, SuperData,
};
use crate::reader::extent_stream::{
    chain_data, chain_len, law_chain_size, law_pieces, law_skip_end, pieces_from, skip_end,
    ExtentSource,
};
use vstd::prelude::*;

verus! {

/// A request to read a partition.
#[derive(Debug)]
pub struct ReadArgs {
    pub image: String,
    pub partition: String,
    pub slot: String,
    pub suffix: String,
    pub device: Vec<String>,
    pub size: Option<String>,
    pub skip: Option<String>,
}

/// A range of a partition: its extents, where to start and how much to read.
#[derive(Debug)]
pub struct ReadPlan {
    pub extents: Vec<Extent>,
    pub skip: u64,
    pub len: u64,
}

/// A number of bytes that may be left out.
pub open spec fn size_or(text: Option<Seq<char>>, otherwise: u64) -> Result<u64, Error> {
    match text {
        Some(s) => size_or_zero(s),
        None => Ok(otherwise),
    }
}

/// The range of a partition of `total` bytes: none where it starts behind the
/// end, and no more than there is.
pub open spec fn range_of(total: u64, skip: u64, size: u64) -> Option<(u64, u64)> {
    if skip >= total {
        None
    } else if size < total - skip {
        Some((skip, size))
    } else {
        Some((skip, (total - skip) as u64))
    }
}

/// The range that a request asks for.
pub open spec fn requested_range(
    total: u64,
    skip: Option<Seq<char>>,
    size: Option<Seq<char>>,
) -> Result<Option<(u64, u64)>, Error> {
    match size_or(skip, 0) {
        Err(e) => Err(e),
        Ok(s) => match size_or(size, total) {
            Err(e) => Err(e),
            Ok(n) => Ok(range_of(total, s, n)),
        },
    }
}

fn parse_or(text: &Option<String>, otherwise: u64) -> (r: Result<u64, Error>)
    ensures
        r == size_or(text_of(*text), otherwise),
{
    match text {
        Some(s) => parse_size_or_zero(s.as_str()),
        None => Ok(otherwise),
    }
}

/// Whether this is the plan of a read of the `i`-th partition.
pub open spec fn read_planned(
    t: TablesView,
    i: int,
    skip: Option<Seq<char>>,
    size: Option<Seq<char>>,
    r: Result<Option<ReadPlan>, Error>,
) -> bool {
    let p = t.partitions[i];
    let chain = extents_of_partition(t.extents, p);
    if p.num_extents == 0 {
        r matches Ok(None)
    } else if p.first_extent_index + p.num_extents > t.extents.len() {
        r == Err::<Option<ReadPlan>, Error>(Error::Invalid(Fault::ExtentIndex))
    } else {
        match requested_range(capped(512 * sector_total(chain)), skip, size) {
            Err(e) => r == Err::<Option<ReadPlan>, Error>(e),
            Ok(None) => r matches Ok(None),
            Ok(Some((from, len))) => r matches Ok(Some(plan)) && plan.extents@ == chain && plan.skip
                == from && plan.len == len,
        }
    }
}

/// Plans the read of a partition: nothing is read of one without extents, or
/// behind the end.
pub fn plan_read(
    data: &SuperData,
    part_idx: usize,
    skip: &Option<String>,
    size: &Option<String>,
) -> (r: Result<Option<ReadPlan>, Error>)
    requires
        part_idx < data.partitions@.len(),
    ensures
        read_planned(data@.tables, part_idx as int, text_of(*skip), text_of(*size), r),
{
    assert(data@.tables.partitions[part_idx as int] == data.partitions@[part_idx as int]@);
    let extents = partition_extents(data, part_idx)?;
    if extents.len() == 0 {
        return Ok(None);
    }
    let total = data.partition_size(&data.partitions[part_idx]);
    let from = parse_or(skip, 0)?;
    let most = parse_or(size, total)?;
    if from >= total {
        return Ok(None);
    }
    let len = if most < total - from {
        most
    } else {
        total - from
    };
    Ok(Some(ReadPlan { extents, skip: from, len }))
}

/// A range never reaches past the end of the partition.
pub proof fn law_range_inside(total: u64, skip: u64, size: u64)
    ensures
        range_of(total, skip, size) matches Some((from, len)) ==> from + len <= total && from
            == skip && len <= size,
{
}

/// The bytes of a chain are its sectors', as long as they can be counted.
pub proof fn lemma_chain_bytes(extents: Seq<Extent>)
    requires
        512 * sector_total(extents) <= u64::MAX,
    ensures
        chain_len(extents) == 512 * sector_total(extents),
    decreases extents.len(),
{
    if extents.len() > 0 {
        lemma_sector_total(extents.drop_last());
        lemma_chain_bytes(extents.drop_last());
    }
}

/// Reading a range gives that range: passing over what comes before it and then
/// taking pieces up to its length yields the bytes of the partition between its
/// start and its end. Chains of more bytes than 64 bits count are left out.
pub proof fn law_range_streams<D: ExtentSource>(
    d: &D,
    extents: Seq<Extent>,
    skip: u64,
    size: u64,
)
    requires
        512 * sector_total(extents) <= u64::MAX,
        range_of(capped(512 * sector_total(extents)), skip, size) is Some,
    ensures
        ({
            let (from, len) = range_of(capped(512 * sector_total(extents)), skip, size)->Some_0;
            &&& skip_end(extents, 0, from as int) == from
            &&& pieces_from(d, extents, skip_end(extents, 0, from as int), len as int)
                == chain_data(d, extents).subrange(from as int, from + len)
            &&& from + len <= chain_data(d, extents).len()
        }),
{
    let (from, len) = range_of(capped(512 * sector_total(extents)), skip, size)->Some_0;
    lemma_sector_total(extents);
    lemma_chain_bytes(extents);
    law_chain_size(d, extents);
    law_skip_end(extents, 0, from as int);
    law_pieces(d, extents, from as int, len as int);
}

} // verus!
