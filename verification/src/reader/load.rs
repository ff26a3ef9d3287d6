//! Loading the metadata of an image.

use crate::error::{Error, Fault};
use crate::format::{
    copy_offset, is_slot_copy, slot_of_offset, views, Geometry, MetadataHeader, TablesView,
};
use crate::reader::data::{SuperData, SuperView};
use crate::reader::parser::{
    copy_at, devices_at, extents_at, first_copy, geometry_at, geometry_of, groups_at, partitions_at,
    slot_metadata, slots_from, slots_reach, table_reach, LpParser, GEOMETRY_REACH,
};
use crate::reader::source::{
    complete, decoded, is_sparse, law_complete_stored, sparse_chunks, stored_at, sure_below,
    sure_in, BlockSource, Image,
};
use vstd::prelude::*;
use vstd::string::*;

verus! {

/// The four tables of a metadata copy.
pub open spec fn tables_at(c: Seq<u8>, h: MetadataHeader, offset: u64) -> Result<
    TablesView,
    Error,
> {
    match partitions_at(c, h, offset) {
        Err(e) => Err(e),
        Ok(partitions) => match extents_at(c, h, offset) {
            Err(e) => Err(e),
            Ok(extents) => match groups_at(c, h, offset) {
                Err(e) => Err(e),
                Ok(groups) => match devices_at(c, h, offset) {
                    Err(e) => Err(e),
                    Ok(block_devices) => Ok(
                        TablesView { partitions, extents, groups, block_devices },
                    ),
                },
            },
        },
    }
}

/// The metadata copy at `offset` as loaded data.
pub open spec fn data_at(
    c: Seq<u8>,
    format: Seq<char>,
    g: Geometry,
    geometry_offset: u64,
    h: MetadataHeader,
    offset: u64,
    slot: u64,
) -> Result<SuperView, Error> {
    match tables_at(c, h, offset) {
        Err(e) => Err(e),
        Ok(tables) => Ok(
            SuperView {
                image_format: format,
                image_size: c.len() as u64,
                geometry: g,
                geometry_offset,
                header: h,
                metadata_offset: offset,
                metadata_slot: slot,
                tables,
            },
        ),
    }
}

/// One slot of an image.
pub open spec fn slot_data(c: Seq<u8>, format: Seq<char>, slot: u64) -> Result<SuperView, Error> {
    match geometry_of(c) {
        Err(e) => Err(e),
        Ok((g, at)) => match slot_metadata(c, g, slot) {
            Err(e) => Err(e),
            Ok((h, offset)) => data_at(c, format, g, at, h, offset, slot),
        },
    }
}

/// The slot that a metadata copy belongs to.
pub open spec fn slot_at(g: Geometry, offset: u64) -> u64 {
    let s = choose|s: int| #[trigger]
        is_slot_copy(
            offset as int,
            s,
            g.metadata_slot_count as int,
            g.metadata_max_size as int,
        );
    s as u64
}

/// The first valid slot of an image.
pub open spec fn first_data(c: Seq<u8>, format: Seq<char>) -> Result<SuperView, Error> {
    match geometry_of(c) {
        Err(e) => Err(e),
        Ok((g, at)) => match first_copy(c, g, 0) {
            None => Err(Error::NotFound(Fault::Metadata)),
            Some((h, offset)) => data_at(c, format, g, at, h, offset, slot_at(g, offset)),
        },
    }
}

/// The slots of an image from `slot` up to `count` that are valid, with tables
/// that can be read.
pub open spec fn slots_data(c: Seq<u8>, format: Seq<char>, count: int, slot: int) -> Seq<SuperView>
    decreases count - slot,
{
    if slot < 0 || slot >= count {
        Seq::empty()
    } else {
        let rest = slots_data(c, format, count, slot + 1);
        match slot_data(c, format, slot as u64) {
            Ok(d) => seq![d] + rest,
            Err(_) => rest,
        }
    }
}

/// Every valid slot of an image, in order; one at least has to be there.
pub open spec fn all_data(c: Seq<u8>, format: Seq<char>) -> Result<Seq<SuperView>, Error> {
    match geometry_of(c) {
        Err(e) => Err(e),
        Ok((g, _)) => {
            let found = slots_data(c, format, g.metadata_slot_count as int, 0);
            if found.len() == 0 {
                Err(Error::NotFound(Fault::Metadata))
            } else {
                Ok(found)
            }
        },
    }
}

/// What holds of the slots of an image from `slot` on.
proof fn lemma_slots_data(c: Seq<u8>, format: Seq<char>, count: int, slot: int)
    requires
        0 <= slot,
        count <= u64::MAX,
    ensures
        ({
            let v = slots_data(c, format, count, slot);
            &&& forall|i: int|
                0 <= i < v.len() ==> slot <= (#[trigger] v[i]).metadata_slot < count && slot_data(
                    c,
                    format,
                    v[i].metadata_slot,
                ) == Ok::<SuperView, Error>(v[i])
            &&& forall|i: int, j: int|
                0 <= i < j < v.len() ==> (#[trigger] v[i]).metadata_slot < (
                #[trigger] v[j]).metadata_slot
            &&& forall|s: u64|
                slot <= s < count && (#[trigger] slot_data(c, format, s)) is Ok ==> v.contains(
                    slot_data(c, format, s)->Ok_0,
                )
        }),
    decreases count - slot,
{
    if slot < count {
        lemma_slots_data(c, format, count, slot + 1);
        let rest = slots_data(c, format, count, slot + 1);
        let v = slots_data(c, format, count, slot);
        assert forall|s: u64| slot <= s < count && (
        #[trigger] slot_data(c, format, s)) is Ok implies v.contains(
            slot_data(c, format, s)->Ok_0,
        ) by {
            let d = slot_data(c, format, s)->Ok_0;
            if s == slot {
                assert(v[0] == d);
            } else {
                let k = rest.index_of(d);
                assert(rest[k] == d);
                if slot_data(c, format, slot as u64) is Ok {
                    assert(v[k + 1] == d);
                }
            }
        }
    }
}

/// Loading all slots gives each slot that loads on its own, in slot order, out of
/// one geometry; it fails only where there is no geometry or no slot loads.
pub proof fn law_all_slots(c: Seq<u8>, format: Seq<char>)
    ensures
        match all_data(c, format) {
            Ok(v) => {
                &&& geometry_of(c) is Ok
                &&& v.len() > 0
                &&& forall|i: int|
                    0 <= i < v.len() ==> {
                        &&& slot_data(c, format, (#[trigger] v[i]).metadata_slot) == Ok::<
                            SuperView,
                            Error,
                        >(v[i])
                        &&& v[i].image_format == format
                        &&& v[i].image_size == c.len() as u64
                        &&& v[i].geometry == geometry_of(c)->Ok_0.0
                        &&& v[i].geometry_offset == geometry_of(c)->Ok_0.1
                    }
                &&& forall|i: int, j: int|
                    0 <= i < j < v.len() ==> (#[trigger] v[i]).metadata_slot < (
                    #[trigger] v[j]).metadata_slot
                &&& forall|s: u64|
                    (#[trigger] slot_data(c, format, s)) is Ok ==> v.contains(
                        slot_data(c, format, s)->Ok_0,
                    )
            },
            Err(_) => geometry_of(c) is Err || forall|s: u64|
                (#[trigger] slot_data(c, format, s)) is Err,
        },
{
    if geometry_of(c) is Ok {
        let g = geometry_of(c)->Ok_0.0;
        lemma_slots_data(c, format, g.metadata_slot_count as int, 0);
        if all_data(c, format) is Err {
            assert forall|s: u64| (#[trigger] slot_data(c, format, s)) is Err by {
                if s < g.metadata_slot_count && slot_data(c, format, s) is Ok {
                    assert(slots_data(c, format, g.metadata_slot_count as int, 0).contains(
                        slot_data(c, format, s)->Ok_0,
                    ));
                }
            }
        }
    }
}

/// The data of the found slots from the `i`-th on.
spec fn found_data(
    c: Seq<u8>,
    format: Seq<char>,
    g: Geometry,
    at: u64,
    found: Seq<(u64, MetadataHeader, u64)>,
    i: int,
) -> Seq<SuperView>
    decreases found.len() - i,
{
    if i < 0 || i >= found.len() {
        Seq::empty()
    } else {
        let rest = found_data(c, format, g, at, found, i + 1);
        let (slot, h, offset) = found[i];
        match data_at(c, format, g, at, h, offset, slot) {
            Ok(d) => seq![d] + rest,
            Err(_) => rest,
        }
    }
}

proof fn lemma_found_behind(
    c: Seq<u8>,
    format: Seq<char>,
    g: Geometry,
    at: u64,
    first: (u64, MetadataHeader, u64),
    rest: Seq<(u64, MetadataHeader, u64)>,
    i: int,
)
    requires
        0 <= i,
    ensures
        found_data(c, format, g, at, seq![first] + rest, i + 1) == found_data(
            c,
            format,
            g,
            at,
            rest,
            i,
        ),
    decreases rest.len() - i,
{
    if i < rest.len() {
        lemma_found_behind(c, format, g, at, first, rest, i + 1);
        assert((seq![first] + rest)[i + 1] == rest[i]);
    }
}

/// The found slots are those that load.
proof fn lemma_found_data(c: Seq<u8>, format: Seq<char>, g: Geometry, at: u64, slot: int)
    requires
        geometry_of(c) == Ok::<(Geometry, u64), Error>((g, at)),
        0 <= slot,
    ensures
        found_data(c, format, g, at, slots_from(c, g, slot), 0) == slots_data(
            c,
            format,
            g.metadata_slot_count as int,
            slot,
        ),
    decreases g.metadata_slot_count - slot,
{
    if slot < g.metadata_slot_count {
        lemma_found_data(c, format, g, at, slot + 1);
        match slot_metadata(c, g, slot as u64) {
            Ok((h, offset)) => {
                lemma_found_behind(
                    c,
                    format,
                    g,
                    at,
                    (slot as u64, h, offset),
                    slots_from(c, g, slot + 1),
                    0,
                );
            },
            Err(_) => {},
        }
    }
}

/// Whether loaded data is what the image holds: its geometry and its copy of
/// the metadata are valid, and its tables are the copy's.
pub open spec fn faithful(c: Seq<u8>, d: SuperView) -> bool {
    &&& d.image_size == c.len()
    &&& geometry_at(c, d.geometry_offset) == Ok::<Geometry, Error>(d.geometry)
    &&& is_slot_copy(
        d.metadata_offset as int,
        d.metadata_slot as int,
        d.geometry.metadata_slot_count as int,
        d.geometry.metadata_max_size as int,
    )
    &&& copy_at(c, d.geometry, d.metadata_slot as int) == Some((d.header, d.metadata_offset))
        || copy_at(c, d.geometry, d.geometry.metadata_slot_count + d.metadata_slot) == Some(
        (d.header, d.metadata_offset),
    )
    &&& tables_at(c, d.header, d.metadata_offset) == Ok::<TablesView, Error>(d.tables)
}

/// The format of the container in a file.
pub open spec fn container(f: Seq<u8>) -> Seq<char> {
    if is_sparse(f) {
        "android-sparse"@
    } else {
        "raw"@
    }
}

/// The larger of two numbers.
pub open spec fn larger(a: int, b: int) -> int {
    if a < b {
        b
    } else {
        a
    }
}

/// Where the last table of the metadata copy at `offset` ends.
pub open spec fn tables_reach(h: MetadataHeader, offset: u64) -> int {
    larger(
        larger(
            table_reach(h.partitions, offset, h.header_size),
            table_reach(h.extents, offset, h.header_size),
        ),
        larger(
            table_reach(h.groups, offset, h.header_size),
            table_reach(h.block_devices, offset, h.header_size),
        ),
    )
}

/// Where the last table of the valid copies from the `k`-th on ends.
pub open spec fn copies_reach(c: Seq<u8>, g: Geometry, k: int) -> int
    decreases 2 * g.metadata_slot_count - k,
{
    if k < 0 || k >= 2 * g.metadata_slot_count {
        0
    } else {
        let rest = copies_reach(c, g, k + 1);
        match copy_at(c, g, k) {
            Some((h, offset)) => larger(tables_reach(h, offset), rest),
            None => rest,
        }
    }
}

/// How far loading an image reads at most: the geometries, the copies of all
/// slots, and the tables of those that are valid.
pub open spec fn load_reach(c: Seq<u8>) -> int {
    match geometry_of(c) {
        Err(_) => GEOMETRY_REACH as int,
        Ok((g, _)) => larger(
            GEOMETRY_REACH as int,
            larger(slots_reach(g), copies_reach(c, g, 0)),
        ),
    }
}

proof fn lemma_copies_reach(c: Seq<u8>, g: Geometry, k: int, index: int)
    requires
        0 <= k <= index < 2 * g.metadata_slot_count,
        copy_at(c, g, index) is Some,
    ensures
        ({
            let (h, offset) = copy_at(c, g, index)->Some_0;
            tables_reach(h, offset) <= copies_reach(c, g, k)
        }),
    decreases index - k,
{
    if k < index {
        lemma_copies_reach(c, g, k + 1, index);
    }
}

/// Whether nothing but the bytes of the file decides what is loaded: the file
/// answers, and holds all that a loader looks at.
pub open spec fn settled<F: BlockSource>(file: &F) -> bool {
    file.reliable() && (decoded(file.bytes()) matches Ok(c) ==> stored_at(
        file.bytes(),
        0,
        load_reach(c),
    ))
}

/// Every read of a loader succeeds where the file settles what is loaded.
pub proof fn lemma_settled<F: BlockSource>(file: &F, image: &Image<F>)
    requires
        settled(file),
        decoded(file.bytes()) == Ok::<Seq<u8>, Error>(image.bytes()),
        forall|offset: int, len: int| #[trigger]
            image.sure_at(offset, len) == sure_in(file, offset, len),
    ensures
        sure_below(image, load_reach(image.bytes())),
{
    let f = file.bytes();
    let n = load_reach(image.bytes());
    assert forall|offset: int, len: int|
        0 <= offset && 0 <= len && offset + len <= n implies #[trigger] image.sure_at(
        offset,
        len,
    ) by {
        if is_sparse(f) {
            let chunks = sparse_chunks(f)->Ok_0;
            assert forall|k: int| 0 <= k < chunks.len() implies (#[trigger] chunks[k]).held_in(
                f,
                offset,
                offset + len,
            ) by {
                assert(chunks[k].held_in(f, 0, n));
            }
        }
    }
}

/// A file that answers and is complete settles what is loaded.
pub proof fn law_complete_settled<F: BlockSource>(file: &F)
    requires
        file.reliable(),
        complete(file.bytes()),
    ensures
        settled(file),
{
    if decoded(file.bytes()) is Ok {
        law_complete_stored(file.bytes(), 0, load_reach(decoded(file.bytes())->Ok_0));
    }
}

fn build_super_data<S: BlockSource>(
    parser: &LpParser,
    image: &S,
    geometry: Geometry,
    geometry_offset: u64,
    header: MetadataHeader,
    metadata_offset: u64,
    metadata_slot: u64,
) -> (r: Result<SuperData, Error>)
    ensures
        ({
            let wanted = data_at(
                image.bytes(),
                image.format(),
                geometry,
                geometry_offset,
                header,
                metadata_offset,
                metadata_slot,
            );
            match r {
                Ok(d) => wanted == Ok::<SuperView, Error>(d@) && d.image_size
                    == image.bytes().len(),
                Err(e) => wanted == Err::<SuperView, Error>(e) || (e == Error::Io
                    && !sure_below(image, tables_reach(header, metadata_offset))),
            }
        }),
{
    let partitions = parser.read_partitions(image, &header, metadata_offset)?;
    let extents = parser.read_extents(image, &header, metadata_offset)?;
    let groups = parser.read_groups(image, &header, metadata_offset)?;
    let devices = parser.read_block_devices(image, &header, metadata_offset)?;
    Ok(
        SuperData {
            image_format: String::from_str(image.format_name()),
            image_size: image.total_size(),
            geometry,
            geometry_offset,
            header,
            metadata_offset,
            metadata_slot,
            partitions,
            extents,
            groups,
            devices,
        },
    )
}

/// A valid copy of a slot is one of its two copies.
proof fn lemma_copy_is_slot(c: Seq<u8>, g: Geometry, slot: int, found: (MetadataHeader, u64))
    requires
        0 <= slot < g.metadata_slot_count,
        copy_at(c, g, slot) == Some(found) || copy_at(c, g, g.metadata_slot_count + slot) == Some(
            found,
        ),
    ensures
        is_slot_copy(
            found.1 as int,
            slot,
            g.metadata_slot_count as int,
            g.metadata_max_size as int,
        ),
{
}

/// Loads one slot of an open image.
pub fn load_slot<S: BlockSource>(image: &S, slot: u64) -> (r: Result<SuperData, Error>)
    ensures
        sure_below(image, load_reach(image.bytes())) ==> match r {
            Ok(d) => slot_data(image.bytes(), image.format(), slot) == Ok::<SuperView, Error>(d@),
            Err(e) => slot_data(image.bytes(), image.format(), slot) == Err::<SuperView, Error>(e),
        },
        r matches Ok(d) ==> faithful(image.bytes(), d@) && d.metadata_slot == slot,
{
    let parser = LpParser::new();
    let (geometry, at) = parser.find_geometry(image)?;
    let (header, offset) = parser.find_metadata_for_slot(image, &geometry, slot)?;
    proof {
        let index = if copy_at(image.bytes(), geometry, slot as int) == Some((header, offset)) {
            slot as int
        } else {
            geometry.metadata_slot_count + slot
        };
        lemma_copies_reach(image.bytes(), geometry, 0, index);
        lemma_copy_is_slot(image.bytes(), geometry, slot as int, (header, offset));
    }
    build_super_data(&parser, image, geometry, at, header, offset, slot)
}

/// Loads the first valid slot of an open image.
pub fn load_first<S: BlockSource>(image: &S) -> (r: Result<SuperData, Error>)
    ensures
        sure_below(image, load_reach(image.bytes())) ==> match r {
            Ok(d) => first_data(image.bytes(), image.format()) == Ok::<SuperView, Error>(d@),
            Err(e) => first_data(image.bytes(), image.format()) == Err::<SuperView, Error>(e),
        },
        r matches Ok(d) ==> faithful(image.bytes(), d@),
{
    let ghost c = image.bytes();
    let parser = LpParser::new();
    let (geometry, at) = parser.find_geometry(image)?;
    let (header, offset) = parser.find_metadata(image, &geometry)?;
    let max = geometry.metadata_max_size as u64;
    let count = geometry.metadata_slot_count as u64;
    proof {
        let index = choose|index: int|
            0 <= index < 2 * geometry.metadata_slot_count && #[trigger] copy_at(
                c,
                geometry,
                index,
            ) == Some((header, offset));
        let s = if index < count {
            index
        } else {
            index - count
        };
        assert(copy_at(c, geometry, index) == Some((header, offset)));
        lemma_copies_reach(c, geometry, 0, index);
        assert(is_slot_copy(offset as int, s, count as int, max as int));
    }
    match slot_of_offset(offset, count, max) {
        Some(slot) => {
            proof {
                lemma_slot_at(geometry, offset, slot as int);
            }
            build_super_data(&parser, image, geometry, at, header, offset, slot)
        },
        None => Err(Error::NotFound(Fault::Metadata)),
    }
}

/// The slot of an offset is the one that was found.
proof fn lemma_slot_at(g: Geometry, offset: u64, slot: int)
    requires
        g.metadata_max_size > 0,
        is_slot_copy(
            offset as int,
            slot,
            g.metadata_slot_count as int,
            g.metadata_max_size as int,
        ),
    ensures
        slot_at(g, offset) == slot,
{
    let count = g.metadata_slot_count as int;
    let max = g.metadata_max_size as int;
    let s = choose|s: int| #[trigger] is_slot_copy(offset as int, s, count, max);
    assert(is_slot_copy(offset as int, s, count, max));
    let i = if copy_offset(s, max) == offset {
        s
    } else {
        count + s
    };
    let j = if copy_offset(slot, max) == offset {
        slot
    } else {
        count + slot
    };
    assert(i == j) by (nonlinear_arith)
        requires
            i * max == j * max,
            max > 0,
    ;
}

/// Loads every valid slot of an open image; one whose tables cannot be read is
/// left out.
pub fn load_all<S: BlockSource>(image: &S) -> (r: Result<Vec<SuperData>, Error>)
    ensures
        sure_below(image, load_reach(image.bytes())) ==> match r {
            Ok(v) => all_data(image.bytes(), image.format()) == Ok::<Seq<SuperView>, Error>(
                views(v@),
            ),
            Err(e) => all_data(image.bytes(), image.format()) == Err::<Seq<SuperView>, Error>(e),
        },
        r matches Ok(v) ==> v@.len() > 0 && forall|i: int|
            0 <= i < v@.len() ==> faithful(image.bytes(), (#[trigger] v@[i])@),
{
    let ghost c = image.bytes();
    let ghost format = image.format();
    let parser = LpParser::new();
    let (geometry, at) = parser.find_geometry(image)?;
    let found = parser.find_all_metadata(image, &geometry);
    let mut out: Vec<SuperData> = Vec::new();
    let mut i: usize = 0;
    proof {
        if sure_below(image, load_reach(image.bytes())) {
            lemma_found_data(c, format, geometry, at, 0);
        }
        assert(views(out@) =~= Seq::<SuperView>::empty());
        let rest = found_data(c, format, geometry, at, found@, 0);
        assert(views(out@) + rest =~= rest);
    }
    while i < found.len()
        invariant
            c == image.bytes(),
            format == image.format(),
            i <= found.len(),
            geometry_at(c, at) == Ok::<Geometry, Error>(geometry),
            sure_below(image, load_reach(image.bytes())) ==> geometry_of(c) == Ok::<(Geometry, u64), Error>((geometry, at)),
            sure_below(image, load_reach(image.bytes())) ==> slots_data(
                c,
                format,
                geometry.metadata_slot_count as int,
                0,
            ) == views(out@) + found_data(c, format, geometry, at, found@, i as int),
            forall|k: int|
                0 <= k < found@.len() ==> {
                    let (slot, h, offset) = #[trigger] found@[k];
                    &&& slot < geometry.metadata_slot_count
                    &&& copy_at(c, geometry, slot as int) == Some((h, offset)) || copy_at(
                        c,
                        geometry,
                        geometry.metadata_slot_count + slot,
                    ) == Some((h, offset))
                },
            forall|k: int| 0 <= k < out@.len() ==> faithful(c, (#[trigger] out@[k])@),
        decreases found.len() - i,
    {
        let (slot, header, offset) = found[i];
        proof {
            let f = found@[i as int];
            let index = if copy_at(c, geometry, slot as int) == Some((header, offset)) {
                slot as int
            } else {
                geometry.metadata_slot_count + slot
            };
            lemma_copies_reach(c, geometry, 0, index);
            lemma_copy_is_slot(c, geometry, slot as int, (header, offset));
        }
        if let Ok(data) = build_super_data(&parser, image, geometry, at, header, offset, slot) {
            let ghost before = views(out@);
            let ghost d = data@;
            out.push(data);
            proof {
                assert(views(out@) =~= before.push(d));
                let rest = found_data(c, format, geometry, at, found@, i + 1);
                assert(before + (seq![d] + rest) =~= views(out@) + rest);
            }
        }
        i += 1;
    }
    assert(views(out@) + Seq::<SuperView>::empty() =~= views(out@));
    if out.len() == 0 {
        return Err(Error::NotFound(Fault::Metadata));
    }
    Ok(out)
}

/// Loads one metadata slot of the image in a file: its primary copy, else its
/// backup copy.
pub fn load_super_in_slot<F: BlockSource>(file: F, slot: u64) -> (r: Result<SuperData, Error>)
    ensures
        settled(&file) ==> match decoded(file.bytes()) {
            Err(e) => r == Err::<SuperData, Error>(e),
            Ok(c) => match r {
                Ok(d) => slot_data(c, container(file.bytes()), slot) == Ok::<SuperView, Error>(d@),
                Err(e) => slot_data(c, container(file.bytes()), slot) == Err::<SuperView, Error>(e),
            },
        },
        r matches Ok(d) ==> (decoded(file.bytes()) matches Ok(c) && faithful(c, d@))
            && d.metadata_slot == slot,
{
    let ghost source = file;
    let image = Image::open(file)?;
    proof {
        if settled(&source) {
            lemma_settled(&source, &image);
        }
    }
    load_slot(&image, slot)
}

/// Loads every valid metadata slot of the image in a file, in slot order; one
/// whose tables cannot be read is left out.
pub fn load_super_all<F: BlockSource>(file: F) -> (r: Result<Vec<SuperData>, Error>)
    ensures
        settled(&file) ==> match decoded(file.bytes()) {
            Err(e) => r == Err::<Vec<SuperData>, Error>(e),
            Ok(c) => match r {
                Ok(v) => all_data(c, container(file.bytes())) == Ok::<Seq<SuperView>, Error>(
                    views(v@),
                ),
                Err(e) => all_data(c, container(file.bytes())) == Err::<Seq<SuperView>, Error>(e),
            },
        },
        r matches Ok(v) ==> v@.len() > 0 && (decoded(file.bytes()) matches Ok(c) && forall|i: int|
            0 <= i < v@.len() ==> faithful(c, (#[trigger] v@[i])@)),
{
    let ghost source = file;
    let image = Image::open(file)?;
    proof {
        if settled(&source) {
            lemma_settled(&source, &image);
        }
    }
    load_all(&image)
}

/// Loads the first valid metadata slot of the image in a file.
pub fn load_super<F: BlockSource>(file: F) -> (r: Result<SuperData, Error>)
    ensures
        settled(&file) ==> match decoded(file.bytes()) {
            Err(e) => r == Err::<SuperData, Error>(e),
            Ok(c) => match r {
                Ok(d) => first_data(c, container(file.bytes())) == Ok::<SuperView, Error>(d@),
                Err(e) => first_data(c, container(file.bytes())) == Err::<SuperView, Error>(e),
            },
        },
        r matches Ok(d) ==> (decoded(file.bytes()) matches Ok(c) && faithful(c, d@)),
{
    let ghost source = file;
    let image = Image::open(file)?;
    proof {
        if settled(&source) {
            lemma_settled(&source, &image);
        }
    }
    load_first(&image)
}

} // verus!
