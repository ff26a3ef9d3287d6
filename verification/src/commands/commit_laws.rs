//! What an edit leaves in an image: the slot that it came from, rewritten, and all
//! else as it was.

use crate::commands::commit::{commits, placeable};
use crate::error::Error;
use crate::format::{copy_offset, Geometry};
use crate::reader::data::SuperView;
use crate::reader::load::slot_data;
use crate::reader::parser::{copy_at, geometry_at, geometry_of, GEOMETRY_SEARCH_STEP};
use crate::writer::read_back::{
    geometry_meets, law_slot_read_back, law_update_loads, lemma_slot_len, tables_storable,
};
use crate::writer::render::{law_slot_isolation, updated, SlotWrite};
use vstd::prelude::*;

verus! {

/// An edit that is carried out is what the slot loads with afterwards: the same tables,
/// the same versions and the same geometry. Both copies of the slot hold it, and every
/// byte outside them is as it was, the other slots and the data among them. Left out are
/// images whose geometry lies in a copy that is written, or where what is written reads
/// as a geometry that would be found before it.
pub proof fn law_commit_loads(c: Seq<u8>, format: Seq<char>, d: SuperView, w: SlotWrite)
    requires
        placeable(d),
        commits(d, w),
        tables_storable(d.tables),
        geometry_of(c) == Ok::<(Geometry, u64), Error>((d.geometry, d.geometry_offset)),
        copy_offset(2 * d.geometry.metadata_slot_count, d.geometry.metadata_max_size as int)
            <= c.len() <= u64::MAX,
        ({
            let max = d.geometry.metadata_max_size as int;
            let c2 = updated(c, w.primary as int, w.backup as int, w.data@);
            let at = d.geometry_offset;
            &&& !geometry_meets(at as int, w.primary as int, max)
            &&& !geometry_meets(at as int, w.backup as int, max)
            &&& forall|o: u64|
                0x3000 <= o < at && o % GEOMETRY_SEARCH_STEP == 0 && (geometry_meets(
                    o as int,
                    w.primary as int,
                    max,
                ) || geometry_meets(o as int, w.backup as int, max)) ==> (#[trigger] geometry_at(
                    c2,
                    o,
                )) is Err
        }),
    ensures
        ({
            let max = d.geometry.metadata_max_size as int;
            let count = d.geometry.metadata_slot_count as int;
            let c2 = updated(c, w.primary as int, w.backup as int, w.data@);
            &&& w.slot == d.metadata_slot
            &&& slot_data(c2, format, d.metadata_slot) matches Ok(v) && {
                &&& v.tables == d.tables
                &&& v.geometry == d.geometry
                &&& v.metadata_slot == d.metadata_slot
                &&& v.metadata_offset == w.primary
                &&& v.image_size == c.len()
                &&& v.header.major_version == d.header.major_version
                &&& v.header.minor_version == d.header.minor_version
                &&& v.header.header_size == d.header.header_size
            }
            &&& copy_at(c2, d.geometry, count + d.metadata_slot) matches Some((h, at)) && at
                == w.backup && h == slot_data(c2, format, d.metadata_slot)->Ok_0.header
            &&& w.primary + max <= w.backup
            &&& c2.len() == c.len()
            &&& forall|i: int|
                0 <= i < c.len() && !(w.primary <= i < w.primary + max) && !(w.backup <= i
                    < w.backup + max) ==> c2[i] == c[i]
            &&& forall|k: int|
                0 <= k < 2 * count && k != d.metadata_slot && k != count + d.metadata_slot
                    ==> c2.subrange(
                    #[trigger] copy_offset(k, max),
                    copy_offset(k, max) + max,
                ) == c.subrange(copy_offset(k, max), copy_offset(k, max) + max)
        }),
{
    let max = d.geometry.metadata_max_size;
    let count = d.geometry.metadata_slot_count as int;
    let slot = d.metadata_slot as int;
    let c2 = updated(c, w.primary as int, w.backup as int, w.data@);
    law_update_loads(
        c,
        format,
        d.geometry,
        d.geometry_offset,
        d.metadata_slot,
        d.header,
        d.tables,
    );
    lemma_slot_len(d.header, d.tables, max);
    law_slot_isolation(c, slot, count, max as int, w.data@);
    assert(slot * max + max <= (count + slot) * max && (count + slot) * max + max <= (2 * count)
        * max) by (nonlinear_arith)
        requires
            0 <= slot < count,
            max > 0,
    ;
    law_slot_read_back(c2, w.backup, d.header, d.tables, max);
}

} // verus!
