//! Putting a new partition at the end of the tables.

use crate::commands::edit::{chains_apart, windows_apart};
use crate::commands::commit::{group_total, group_used};
use crate::commands::resize::lemma_window_push;
use crate::error::Error;
use crate::format::{partition_views, Extent, Partition, PartitionView, TablesView};
use crate::reader::data::{extents_of_partition, sector_total, SuperData, SuperView};
use crate::reader::multiblock::{binding_views, bindings_from, resolve_device_bindings};
use crate::text::texts;
use crate::writer::allocation::{first_free, free_at};
use crate::writer::spanning::{
    any_free, disjoint, extent_of, law_any_free, law_disjoint_kept, lemma_found,
};
use crate::writer::LpWriter;
use vstd::prelude::*;

verus! {

/// The tables with one more partition, with at most one extent.
pub open spec fn appended(
    t: TablesView,
    name: Seq<char>,
    attributes: u32,
    group_index: u32,
    extent: Option<Extent>,
) -> TablesView {
    let p = PartitionView {
        name,
        attributes,
        first_extent_index: t.extents.len() as u32,
        num_extents: if extent is Some {
            1
        } else {
            0
        },
        group_index,
    };
    TablesView {
        partitions: t.partitions.push(p),
        extents: match extent {
            Some(e) => t.extents.push(e),
            None => t.extents,
        },
        ..t
    }
}

/// Adds a partition to the tables.
pub fn append(
    data: &mut SuperData,
    name: String,
    attributes: u32,
    group_index: u32,
    extent: Option<Extent>,
)
    ensures
        final(data)@ == (SuperView {
            tables: appended(old(data)@.tables, name@, attributes, group_index, extent),
            ..old(data)@
        }),
{
    let first_extent_index = data.extents.len() as u32;
    let num_extents = match extent {
        Some(e) => {
            data.extents.push(e);
            1
        },
        None => 0,
    };
    let p = Partition { name, attributes, first_extent_index, num_extents, group_index };
    let ghost v = p@;
    data.partitions.push(p);
    assert(partition_views(data.partitions@) =~= partition_views(old(data).partitions@).push(v));
}

/// Whether an image has, or is given, more than one device.
pub open spec fn is_split(t: TablesView, specs: Seq<Seq<char>>) -> bool {
    t.block_devices.len() > 1 || specs.len() > 0
}

/// The devices that are bound: the primary one, and those of the bindings.
pub open spec fn bound_indices(bindings: Seq<(u32, Seq<char>)>) -> Seq<u32> {
    seq![0u32] + bindings.map_values(|b: (u32, Seq<char>)| b.0)
}

/// The devices of an image that new extents may go to: those that are bound.
pub open spec fn bound_devices(
    t: TablesView,
    specs: Seq<Seq<char>>,
    is_primary: Seq<bool>,
) -> Result<Seq<u32>, Error> {
    if is_split(t, specs) {
        match bindings_from(t.block_devices, specs, is_primary, 0, Seq::empty()) {
            Err(e) => Err(e),
            Ok(bindings) => Ok(bound_indices(bindings)),
        }
    } else {
        Ok(seq![0u32])
    }
}

/// Where `needed` sectors go: on a single device, or on a bound device of a split
/// image.
pub open spec fn place_for(
    t: TablesView,
    specs: Seq<Seq<char>>,
    is_primary: Seq<bool>,
    needed: u64,
) -> Result<(u32, u64), Error> {
    if is_split(t, specs) {
        match bindings_from(t.block_devices, specs, is_primary, 0, Seq::empty()) {
            Err(e) => Err(e),
            Ok(bindings) => any_free(
                t.extents,
                t.block_devices,
                needed,
                bound_indices(bindings),
            ),
        }
    } else {
        match first_free(t.extents, t.block_devices, 0, needed) {
            Err(e) => Err(e),
            Ok(sector) => Ok((0u32, sector)),
        }
    }
}

/// Lists the devices that are bound.
pub fn list_bound(bindings: &Vec<(u32, String)>) -> (r: Vec<u32>)
    ensures
        r@ == bound_indices(binding_views(bindings@)),
{
    let mut out: Vec<u32> = Vec::new();
    out.push(0);
    let mut k: usize = 0;
    while k < bindings.len()
        invariant
            k <= bindings.len(),
            out@.len() == k + 1,
            out@[0] == 0,
            forall|m: int| 0 <= m < k ==> #[trigger] out@[m + 1] == bindings@[m].0,
        decreases bindings.len() - k,
    {
        out.push(bindings[k].0);
        k += 1;
    }
    proof {
        let wanted = bound_indices(binding_views(bindings@));
        assert forall|m: int| 0 <= m < wanted.len() implies out@[m] == wanted[m] by {
            if m > 0 {
                assert(out@[(m - 1) + 1] == bindings@[m - 1].0);
            }
        }
        assert(out@ =~= wanted);
    }
    out
}

/// Finds the devices that new extents may go to.
pub fn find_bound(data: &SuperData, specs: &Vec<String>, is_primary: &Vec<bool>) -> (r: Result<
    Vec<u32>,
    Error,
>)
    requires
        data.devices@.len() <= u32::MAX,
        is_primary@.len() == specs@.len(),
    ensures
        match r {
            Ok(v) => bound_devices(data@.tables, texts(specs@), is_primary@) == Ok::<
                Seq<u32>,
                Error,
            >(v@),
            Err(e) => bound_devices(data@.tables, texts(specs@), is_primary@) == Err::<
                Seq<u32>,
                Error,
            >(e),
        },
{
    if data.devices.len() > 1 || specs.len() > 0 {
        let bindings = resolve_device_bindings(data.devices.as_slice(), specs, is_primary)?;
        Ok(list_bound(&bindings))
    } else {
        let out: Vec<u32> = vec![0u32];
        assert(out@ =~= seq![0u32]);
        Ok(out)
    }
}

/// Finds a place for `needed` sectors, and gives the bindings of a split image.
pub fn find_place(
    data: &SuperData,
    specs: &Vec<String>,
    is_primary: &Vec<bool>,
    needed: u64,
) -> (r: Result<(u32, u64, Vec<(u32, String)>), Error>)
    requires
        data.devices@.len() <= u32::MAX,
        is_primary@.len() == specs@.len(),
    ensures
        ({
            let place = place_for(data@.tables, texts(specs@), is_primary@, needed);
            match r {
                Ok((device, sector, bindings)) => {
                    &&& place == Ok::<(u32, u64), Error>((device, sector))
                    &&& is_split(data@.tables, texts(specs@)) ==> bindings_from(
                        data@.tables.block_devices,
                        texts(specs@),
                        is_primary@,
                        0,
                        Seq::empty(),
                    ) == Ok::<Seq<(u32, Seq<char>)>, Error>(binding_views(bindings@))
                    &&& !is_split(data@.tables, texts(specs@)) ==> bindings@.len() == 0
                },
                Err(e) => place == Err::<(u32, u64), Error>(e),
            }
        }),
{
    let writer = LpWriter::new();
    if data.devices.len() > 1 || specs.len() > 0 {
        let bindings = resolve_device_bindings(data.devices.as_slice(), specs, is_primary)?;
        let allowed = list_bound(&bindings);
        let (device, sector) = writer.find_free_sectors_any_in(
            data.extents.as_slice(),
            data.devices.as_slice(),
            needed,
            allowed.as_slice(),
        )?;
        Ok((device, sector, bindings))
    } else {
        let sector = writer.find_free_sectors(
            data.extents.as_slice(),
            data.devices.as_slice(),
            0,
            needed,
        )?;
        Ok((0, sector, Vec::new()))
    }
}

/// A place that was found is free on its device, and the device is bound.
pub proof fn law_place_is_free(
    t: TablesView,
    specs: Seq<Seq<char>>,
    is_primary: Seq<bool>,
    needed: u64,
)
    requires
        t.block_devices.len() <= u32::MAX,
        place_for(t, specs, is_primary, needed) is Ok,
    ensures
        ({
            let (device, sector) = place_for(t, specs, is_primary, needed)->Ok_0;
            &&& device < t.block_devices.len()
            &&& free_at(
                t.extents,
                t.block_devices[device as int],
                device,
                sector as int,
                needed as int,
            )
            &&& bound_devices(t, specs, is_primary) matches Ok(bound) && bound.contains(device)
        }),
{
    if is_split(t, specs) {
        let b = bindings_from(t.block_devices, specs, is_primary, 0, Seq::empty())->Ok_0;
        law_any_free(t.extents, t.block_devices, needed, bound_indices(b));
    } else {
        lemma_found(t.extents, t.block_devices, 0, needed);
        assert(seq![0u32][0] == 0);
    }
}

/// A new partition on free sectors changes no other partition, and overlaps
/// none.
pub proof fn law_appended_keeps_others(
    t: TablesView,
    name: Seq<char>,
    attributes: u32,
    group_index: u32,
    device: u32,
    sector: u64,
    n: u64,
)
    requires
        chains_apart(t.partitions, t.extents),
        disjoint(t.extents),
        t.extents.len() < u32::MAX,
        device < t.block_devices.len(),
        free_at(
            t.extents,
            t.block_devices[device as int],
            device,
            sector as int,
            n as int,
        ),
    ensures
        ({
            let e = extent_of((device, sector, n));
            let t2 = appended(t, name, attributes, group_index, Some(e));
            &&& forall|j: int|
                0 <= j < t.partitions.len() ==> #[trigger] t2.partitions[j] == t.partitions[j]
                    && extents_of_partition(t2.extents, t2.partitions[j]) == extents_of_partition(
                    t.extents,
                    t.partitions[j],
                )
            &&& extents_of_partition(t2.extents, t2.partitions.last()) == seq![e]
            &&& chains_apart(t2.partitions, t2.extents)
            &&& disjoint(t2.extents)
        }),
{
    let e = extent_of((device, sector, n));
    let t2 = appended(t, name, attributes, group_index, Some(e));
    law_disjoint_kept(t.extents, t.block_devices[device as int], device, sector, n);
    assert forall|j: int| 0 <= j < t.partitions.len() implies #[trigger] t2.partitions[j]
        == t.partitions[j] && extents_of_partition(t2.extents, t2.partitions[j])
        == extents_of_partition(t.extents, t.partitions[j]) by {
        lemma_window_push(t.extents, e, t.partitions[j]);
    }
    assert(extents_of_partition(t2.extents, t2.partitions.last()) =~= seq![e]);
    assert forall|j: int, k: int|
        0 <= j < k < t2.partitions.len() && (#[trigger] t2.partitions[j]).num_extents > 0 && (
        #[trigger] t2.partitions[k]).num_extents > 0 implies windows_apart(
        t2.partitions[j],
        t2.partitions[k],
    ) by {
        assert(t2.partitions[j] == t.partitions[j]);
        if k < t.partitions.len() {
            assert(t2.partitions[k] == t.partitions[k]);
        }
    }
    assert forall|j: int|
        0 <= j < t2.partitions.len() && (#[trigger] t2.partitions[j]).num_extents
            > 0 implies t2.partitions[j].first_extent_index + t2.partitions[j].num_extents
        <= t2.extents.len() by {
        if j < t.partitions.len() {
            assert(t2.partitions[j] == t.partitions[j]);
        }
    }
}

/// The count of a group over partitions that were there before.
proof fn lemma_count_before(t: TablesView, e: Extent, more: Seq<PartitionView>, g: u32, n: int)
    requires
        chains_apart(t.partitions, t.extents),
        0 <= n <= t.partitions.len() <= more.len(),
        forall|j: int| 0 <= j < n ==> #[trigger] more[j] == t.partitions[j],
    ensures
        group_total(more, t.extents.push(e), g, None, n) == group_total(
            t.partitions,
            t.extents,
            g,
            None,
            n,
        ),
    decreases n,
{
    if n > 0 {
        lemma_count_before(t, e, more, g, n - 1);
        assert(more[n - 1] == t.partitions[n - 1]);
        lemma_window_push(t.extents, e, t.partitions[n - 1]);
    }
}

/// A new partition adds its sectors to its group, and nothing to any other.
pub proof fn law_appended_counts(
    t: TablesView,
    name: Seq<char>,
    attributes: u32,
    group_index: u32,
    e: Extent,
    g: u32,
)
    requires
        chains_apart(t.partitions, t.extents),
        t.extents.len() < u32::MAX,
    ensures
        group_used(appended(t, name, attributes, group_index, Some(e)), g, None) == group_used(
            t,
            g,
            None,
        ) + (if g == group_index {
            e.num_sectors as int
        } else {
            0
        }),
{
    let t2 = appended(t, name, attributes, group_index, Some(e));
    lemma_count_before(t, e, t2.partitions, g, t.partitions.len() as int);
    let chain = extents_of_partition(t2.extents, t2.partitions.last());
    assert(chain =~= seq![e]);
    assert(chain.drop_last() =~= Seq::<Extent>::empty());
    assert(sector_total(chain.drop_last()) == 0);
}

} // verus!
