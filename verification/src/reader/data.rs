//! The metadata of one slot, and what can be asked of it.

use crate::error::{Error, Fault, NameError};
use crate::format::{
    tables_view, BlockDevice, Extent, Geometry, Group, GroupView, MetadataHeader, Partition,
    PartitionView, TablesView, LP_PARTITION_ATTR_DISABLED, LP_PARTITION_ATTR_READONLY,
    LP_PARTITION_ATTR_SLOT_SUFFIXED, LP_PARTITION_ATTR_UPDATED, LP_SECTOR_SIZE,
    LP_TARGET_TYPE_LINEAR,
};
use crate::encoding::{sat_mul, saturating_mul};
use crate::text::{ends_with, has_prefix, has_suffix, join, joined, starts_with, str_eq, texts};
use vstd::prelude::*;
use vstd::string::*;

verus! {

/// Everything that was loaded of one metadata slot.
#[derive(Debug)]
pub struct SuperData {
    pub image_format: String,
    pub image_size: u64,
    pub geometry: Geometry,
    pub geometry_offset: u64,
    pub header: MetadataHeader,
    pub metadata_offset: u64,
    pub metadata_slot: u64,
    pub partitions: Vec<Partition>,
    pub extents: Vec<Extent>,
    pub groups: Vec<Group>,
    pub devices: Vec<BlockDevice>,
}

/// The loaded metadata as a mathematical value.
#[verifier::ext_equal]
pub struct SuperView {
    pub image_format: Seq<char>,
    pub image_size: u64,
    pub geometry: Geometry,
    pub geometry_offset: u64,
    pub header: MetadataHeader,
    pub metadata_offset: u64,
    pub metadata_slot: u64,
    pub tables: TablesView,
}

impl View for SuperData {
    type V = SuperView;

    open spec fn view(&self) -> SuperView {
        SuperView {
            image_format: self.image_format@,
            image_size: self.image_size,
            geometry: self.geometry,
            geometry_offset: self.geometry_offset,
            header: self.header,
            metadata_offset: self.metadata_offset,
            metadata_slot: self.metadata_slot,
            tables: tables_view(self.partitions@, self.extents@, self.groups@, self.devices@),
        }
    }
}

/// Copies a list of values.
pub fn clone_list<T: Clone>(list: &Vec<T>) -> (r: Vec<T>)
    requires
        forall|i: int, x: T|
            0 <= i < list@.len() && call_ensures(T::clone, (&#[trigger] list@[i],), x) ==> x
                == list@[i],
    ensures
        r@ == list@,
{
    let mut out: Vec<T> = Vec::new();
    let mut i: usize = 0;
    while i < list.len()
        invariant
            i <= list.len(),
            forall|k: int, x: T|
                0 <= k < list@.len() && call_ensures(T::clone, (&#[trigger] list@[k],), x) ==> x
                    == list@[k],
            out@ == list@.take(i as int),
        decreases list.len() - i,
    {
        let x = list[i].clone();
        out.push(x);
        assert(list@.take(i + 1) =~= list@.take(i as int).push(list@[i as int]));
        i += 1;
    }
    assert(list@.take(i as int) =~= list@);
    out
}

impl Clone for SuperData {
    fn clone(&self) -> (r: SuperData)
        ensures
            r@ == self@,
    {
        SuperData {
            image_format: self.image_format.clone(),
            image_size: self.image_size,
            geometry: self.geometry,
            geometry_offset: self.geometry_offset,
            header: self.header,
            metadata_offset: self.metadata_offset,
            metadata_slot: self.metadata_slot,
            partitions: clone_list(&self.partitions),
            extents: clone_list(&self.extents),
            groups: clone_list(&self.groups),
            devices: clone_list(&self.devices),
        }
    }
}

/// `n`, capped at the largest 64-bit value.
pub open spec fn capped(n: int) -> u64 {
    if n > u64::MAX {
        u64::MAX
    } else {
        n as u64
    }
}

/// The extents of a partition; a chain that runs past the table is cut off.
pub open spec fn window(extents: Seq<Extent>, first: int, count: int) -> Seq<Extent> {
    if first >= extents.len() {
        Seq::empty()
    } else if first + count > extents.len() {
        extents.subrange(first, extents.len() as int)
    } else {
        extents.subrange(first, first + count)
    }
}

/// The extents of a partition.
pub open spec fn extents_of_partition(extents: Seq<Extent>, p: PartitionView) -> Seq<Extent> {
    window(extents, p.first_extent_index as int, p.num_extents as int)
}

/// The number of sectors of extents.
pub open spec fn sector_total(extents: Seq<Extent>) -> int
    decreases extents.len(),
{
    if extents.len() == 0 {
        0
    } else {
        sector_total(extents.drop_last()) + extents.last().num_sectors
    }
}

/// A sector total is not negative.
pub proof fn lemma_sector_total(extents: Seq<Extent>)
    ensures
        sector_total(extents) >= 0,
    decreases extents.len(),
{
    if extents.len() > 0 {
        lemma_sector_total(extents.drop_last());
    }
}

/// The tail that marks a partition of the first slot.
pub open spec fn tail_a() -> Seq<char> {
    seq!['_', 'a']
}

/// The tail that marks a partition of the second slot.
pub open spec fn tail_b() -> Seq<char> {
    seq!['_', 'b']
}

/// The slot letter at the end of a name.
pub open spec fn suffix_of(name: Seq<char>) -> Option<Seq<char>> {
    if has_suffix(name, tail_a()) {
        Some(seq!['a'])
    } else if has_suffix(name, tail_b()) {
        Some(seq!['b'])
    } else {
        None
    }
}

/// A name without its slot tail.
pub open spec fn base_of(name: Seq<char>) -> Seq<char> {
    if suffix_of(name) is Some {
        name.take(name.len() - 2)
    } else {
        name
    }
}

/// The view of an optional string.
pub open spec fn option_view(s: Option<&str>) -> Option<Seq<char>> {
    match s {
        Some(t) => Some(t@),
        None => None,
    }
}

/// Whether a partition passes a suffix filter: those without a suffix always do.
pub open spec fn passes(name: Seq<char>, suffix: Option<Seq<char>>) -> bool {
    suffix is None || suffix_of(name) is None || suffix_of(name) == suffix
}

/// Whether a partition answers to a base name under a suffix filter.
pub open spec fn answers(partition: Seq<char>, name: Seq<char>, suffix: Option<Seq<char>>) -> bool {
    base_of(partition) == name && passes(partition, suffix)
}

/// The indices from `i` on whose partitions answer to a base name.
pub open spec fn answering(
    partitions: Seq<PartitionView>,
    name: Seq<char>,
    suffix: Option<Seq<char>>,
    i: int,
) -> Seq<int>
    decreases partitions.len() - i,
{
    if i < 0 || i >= partitions.len() {
        Seq::empty()
    } else if answers(partitions[i].name, name, suffix) {
        seq![i] + answering(partitions, name, suffix, i + 1)
    } else {
        answering(partitions, name, suffix, i + 1)
    }
}

/// The names of the partitions with these indices.
pub open spec fn names_of(partitions: Seq<PartitionView>, indices: Seq<int>) -> Seq<Seq<char>> {
    indices.map_values(|i: int| partitions[i].name)
}

/// The index of the first partition of this very name, from `i` on.
pub open spec fn named(partitions: Seq<PartitionView>, name: Seq<char>, i: int) -> Option<int>
    decreases partitions.len() - i,
{
    if i < 0 || i >= partitions.len() {
        None
    } else if partitions[i].name == name {
        Some(i)
    } else {
        named(partitions, name, i + 1)
    }
}

/// The partition that a name stands for: the one of that very name, else the
/// only one that answers to it as a base name.
pub open spec fn resolved(
    partitions: Seq<PartitionView>,
    name: Seq<char>,
    suffix: Option<Seq<char>>,
) -> Result<int, Error> {
    match named(partitions, name, 0) {
        Some(i) => Ok(i),
        None => {
            let found = answering(partitions, name, suffix, 0);
            if found.len() == 0 {
                Err(Error::NotFound(Fault::Partition))
            } else if found.len() == 1 {
                Ok(found[0])
            } else {
                Err(Error::Invalid(Fault::Ambiguous))
            }
        },
    }
}

/// Maps a partition suffix to a metadata slot.
pub open spec fn slot_of_suffix(suffix: Seq<char>) -> Option<u64> {
    if suffix == seq!['a'] || suffix == seq!['A'] {
        Some(0)
    } else if suffix == seq!['b'] || suffix == seq!['B'] {
        Some(1)
    } else {
        None
    }
}

/// Maps a metadata slot to its suffix.
pub open spec fn suffix_of_slot(slot: u64) -> Option<Seq<char>> {
    if slot == 0 {
        Some(seq!['a'])
    } else if slot == 1 {
        Some(seq!['b'])
    } else {
        None
    }
}

/// Whether `s` is the one-character string `c`.
fn is_letter(s: &str, c: char) -> (r: bool)
    ensures
        r == (s@ == seq![c]),
{
    let r = s.unicode_len() == 1 && s.get_char(0) == c;
    proof {
        if s@.len() == 1 {
            assert(s@ =~= seq![s@[0]]);
        }
        if s@ == seq![c] {
            assert(s@.len() == 1);
            assert(s@[0] == c);
        }
    }
    r
}

/// Maps a partition suffix to a metadata slot: `a` is slot 0, `b` is slot 1.
pub fn suffix_to_slot(suffix: &str) -> (r: Option<u64>)
    ensures
        r == slot_of_suffix(suffix@),
{
    if is_letter(suffix, 'a') || is_letter(suffix, 'A') {
        Some(0)
    } else if is_letter(suffix, 'b') || is_letter(suffix, 'B') {
        Some(1)
    } else {
        None
    }
}

/// Maps a metadata slot to its suffix.
pub fn slot_to_suffix(slot: u64) -> (r: Option<&'static str>)
    ensures
        option_view(r) == suffix_of_slot(slot),
{
    proof {
        reveal_strlit("a");
        reveal_strlit("b");
        assert("a"@ =~= seq!['a']);
        assert("b"@ =~= seq!['b']);
    }
    if slot == 0 {
        Some("a")
    } else if slot == 1 {
        Some("b")
    } else {
        None
    }
}

/// Suffixes and slots map to each other and back.
pub proof fn law_suffix_slot_inverse(slot: u64, suffix: Seq<char>)
    ensures
        suffix_of_slot(slot) matches Some(s) ==> slot_of_suffix(s) == Some(slot),
        slot_of_suffix(suffix) matches Some(n) ==> suffix_of_slot(n) is Some && slot_of_suffix(
            suffix_of_slot(n)->Some_0,
        ) == Some(n),
{
    assert(seq!['a'][0] != seq!['b'][0]);
    assert(seq!['a'] != seq!['b'] && seq!['A'] != seq!['b'] && seq!['a'] != seq!['B']) by {
        assert(seq!['A'][0] != seq!['b'][0]);
        assert(seq!['a'][0] != seq!['B'][0]);
    }
}

/// A name is its base followed by its suffix tail, if it has one.
pub proof fn law_suffix_stripped(name: Seq<char>)
    ensures
        match suffix_of(name) {
            Some(s) => name == base_of(name) + seq!['_'] + s,
            None => base_of(name) == name,
        },
{
    if has_suffix(name, tail_a()) || has_suffix(name, tail_b()) {
        let n = name.len() as int;
        let tail = name.subrange(n - 2, n);
        assert(tail[0] == name[n - 2] && tail[1] == name[n - 1]);
        assert(name =~= base_of(name) + seq!['_'] + suffix_of(name)->Some_0);
    }
}

impl SuperData {
    /// The size of a partition in bytes.
    pub fn partition_size(&self, p: &Partition) -> (r: u64)
        ensures
            r == capped(512 * sector_total(extents_of_partition(self.extents@, p@))),
    {
        let ghost all = extents_of_partition(self.extents@, p@);
        let first = p.first_extent_index as u64;
        let mut total: u64 = 0;
        let mut i: u32 = 0;
        while i < p.num_extents && first + (i as u64) < self.extents.len() as u64
            invariant
                first == p.first_extent_index,
                i <= p.num_extents,
                i <= all.len(),
                all == extents_of_partition(self.extents@, p@),
                total == capped(512 * sector_total(all.take(i as int))),
            decreases p.num_extents - i,
        {
            let e = self.extents[(first + i as u64) as usize];
            proof {
                assert(all.take(i + 1).drop_last() =~= all.take(i as int));
                assert(all[i as int] == e);
                lemma_sector_total(all.take(i as int));
            }
            total = total.saturating_add(saturating_mul(e.num_sectors, LP_SECTOR_SIZE));
            i += 1;
        }
        assert(all.take(i as int) =~= all);
        total
    }

    /// The size of a partition in sectors.
    pub fn partition_sectors(&self, p: &Partition) -> (r: u64)
        ensures
            r == capped(sector_total(extents_of_partition(self.extents@, p@))),
    {
        let ghost all = extents_of_partition(self.extents@, p@);
        let first = p.first_extent_index as u64;
        let mut total: u64 = 0;
        let mut i: u32 = 0;
        while i < p.num_extents && first + (i as u64) < self.extents.len() as u64
            invariant
                first == p.first_extent_index,
                i <= p.num_extents,
                i <= all.len(),
                all == extents_of_partition(self.extents@, p@),
                total == capped(sector_total(all.take(i as int))),
            decreases p.num_extents - i,
        {
            let e = self.extents[(first + i as u64) as usize];
            proof {
                assert(all.take(i + 1).drop_last() =~= all.take(i as int));
                assert(all[i as int] == e);
                lemma_sector_total(all.take(i as int));
            }
            total = total.saturating_add(e.num_sectors);
            i += 1;
        }
        assert(all.take(i as int) =~= all);
        total
    }

    /// The name of a partition's group, or nothing where the index has none.
    pub fn partition_group_name(&self, p: &Partition) -> (r: &str)
        ensures
            r@ == (if p.group_index < self.groups@.len() {
                self.groups@[p.group_index as int].name@
            } else {
                Seq::empty()
            }),
    {
        if (p.group_index as usize) < self.groups.len() {
            self.groups[p.group_index as usize].name.as_str()
        } else {
            empty_str()
        }
    }

    /// The largest size of a partition's group.
    pub fn partition_group_max_size(&self, p: &Partition) -> (r: u64)
        ensures
            r == (if p.group_index < self.groups@.len() {
                self.groups@[p.group_index as int].maximum_size
            } else {
                0
            }),
    {
        if (p.group_index as usize) < self.groups.len() {
            self.groups[p.group_index as usize].maximum_size
        } else {
            0
        }
    }

    /// The byte offset of a partition's first extent, if that is linear.
    pub fn partition_first_phys_offset(&self, p: &Partition) -> (r: u64)
        ensures
            r == (if p.num_extents > 0 && p.first_extent_index < self.extents@.len()
                && self.extents@[p.first_extent_index as int].target_type
                == LP_TARGET_TYPE_LINEAR {
                sat_mul(self.extents@[p.first_extent_index as int].target_data, 512)
            } else {
                0
            }),
    {
        if p.num_extents == 0 || p.first_extent_index as usize >= self.extents.len() {
            return 0;
        }
        let e = self.extents[p.first_extent_index as usize];
        if e.target_type == LP_TARGET_TYPE_LINEAR {
            saturating_mul(e.target_data, LP_SECTOR_SIZE)
        } else {
            0
        }
    }

    /// The name of the device of a partition's first extent.
    pub fn partition_device_name(&self, p: &Partition) -> (r: &str)
        ensures
            r@ == (if p.num_extents > 0 && p.first_extent_index < self.extents@.len()
                && self.extents@[p.first_extent_index as int].target_source < self.devices@.len() {
                self.devices@[self.extents@[p.first_extent_index as int].target_source as int].partition_name@
            } else {
                Seq::empty()
            }),
    {
        if p.num_extents == 0 || p.first_extent_index as usize >= self.extents.len() {
            return empty_str();
        }
        let source = self.extents[p.first_extent_index as usize].target_source as usize;
        if source < self.devices.len() {
            self.devices[source].partition_name.as_str()
        } else {
            empty_str()
        }
    }

    /// The slot letter at the end of a name.
    pub fn find_suffix(name: &str) -> (r: Option<&'static str>)
        ensures
            option_view(r) == suffix_of(name@),
    {
        proof {
            reveal_strlit("_a");
            reveal_strlit("_b");
            reveal_strlit("a");
            reveal_strlit("b");
            assert("_a"@ =~= tail_a());
            assert("_b"@ =~= tail_b());
            assert("a"@ =~= seq!['a']);
            assert("b"@ =~= seq!['b']);
        }
        if ends_with(name, "_a") {
            Some("a")
        } else if ends_with(name, "_b") {
            Some("b")
        } else {
            None
        }
    }

    /// A name without its slot tail.
    pub fn strip_suffix(name: &str) -> (r: &str)
        ensures
            r@ == base_of(name@),
    {
        match Self::find_suffix(name) {
            Some(_) => {
                let n = name.unicode_len();
                let r = name.substring_char(0, n - 2);
                assert(r@ =~= name@.take(name@.len() - 2));
                r
            },
            None => name,
        }
    }

    /// The slot letters that occur, in order.
    pub fn available_suffixes(&self) -> (r: Vec<String>)
        ensures
            ({
                let has = |s: char|
                    exists|i: int|
                        0 <= i < self.partitions@.len() && suffix_of(
                            #[trigger] self.partitions@[i].name@,
                        ) == Some(seq![s]);
                texts(r@) == (if has('a') {
                    seq![seq!['a']]
                } else {
                    seq![]
                }) + (if has('b') {
                    seq![seq!['b']]
                } else {
                    seq![]
                })
            }),
    {
        let mut has_a = false;
        let mut has_b = false;
        let mut i: usize = 0;
        proof {
            assert(seq!['a'][0] != seq!['b'][0]);
        }
        while i < self.partitions.len()
            invariant
                i <= self.partitions.len(),
                has_a == exists|k: int|
                    0 <= k < i && suffix_of(#[trigger] self.partitions@[k].name@) == Some(
                        seq!['a'],
                    ),
                has_b == exists|k: int|
                    0 <= k < i && suffix_of(#[trigger] self.partitions@[k].name@) == Some(
                        seq!['b'],
                    ),
            decreases self.partitions.len() - i,
        {
            let ghost name = self.partitions@[i as int].name@;
            if let Some(s) = Self::find_suffix(self.partitions[i].name.as_str()) {
                assert(suffix_of(name) == Some(s@));
                if is_letter(s, 'a') {
                    has_a = true;
                }
                if is_letter(s, 'b') {
                    has_b = true;
                }
            }
            i += 1;
        }
        let mut out: Vec<String> = Vec::new();
        proof {
            reveal_strlit("a");
            reveal_strlit("b");
            assert("a"@ =~= seq!['a']);
            assert("b"@ =~= seq!['b']);
        }
        if has_a {
            out.push(String::from_str("a"));
        }
        if has_b {
            out.push(String::from_str("b"));
        }
        proof {
            let mapped = texts(out@);
            let front: Seq<Seq<char>> = if has_a {
                seq![seq!['a']]
            } else {
                seq![]
            };
            let back: Seq<Seq<char>> = if has_b {
                seq![seq!['b']]
            } else {
                seq![]
            };
            assert(mapped =~= front + back);
        }
        out
    }
}

/// The partitions that pass a suffix filter, in table order.
pub open spec fn passing(partitions: Seq<Partition>, suffix: Option<Seq<char>>) -> Seq<Partition>
    decreases partitions.len(),
{
    if partitions.len() == 0 {
        Seq::empty()
    } else {
        let rest = passing(partitions.drop_last(), suffix);
        if passes(partitions.last().name@, suffix) {
            rest.push(partitions.last())
        } else {
            rest
        }
    }
}

impl SuperData {
    /// Whether a name passes a suffix filter.
    pub fn passes_suffix(name: &str, suffix: Option<&str>) -> (r: bool)
        ensures
            r == passes(name@, option_view(suffix)),
    {
        match suffix {
            None => true,
            Some(wanted) => match SuperData::find_suffix(name) {
                None => true,
                Some(s) => str_eq(s, wanted),
            },
        }
    }

    /// The partitions that pass a suffix filter. A partition without a suffix
    /// passes every filter.
    pub fn filter_by_slot(&self, suffix: Option<&str>) -> (r: Vec<&Partition>)
        ensures
            r@.map_values(|p: &Partition| *p) == passing(self.partitions@, option_view(suffix)),
    {
        let ghost all = self.partitions@;
        let mut out: Vec<&Partition> = Vec::new();
        let mut i: usize = 0;
        assert(out@.map_values(|p: &Partition| *p) =~= Seq::<Partition>::empty());
        while i < self.partitions.len()
            invariant
                i <= self.partitions.len(),
                all == self.partitions@,
                out@.map_values(|p: &Partition| *p) == passing(
                    all.take(i as int),
                    option_view(suffix),
                ),
            decreases self.partitions.len() - i,
        {
            let p = &self.partitions[i];
            let ghost before = out@;
            proof {
                assert(all.take(i + 1).drop_last() =~= all.take(i as int));
                assert(all.take(i + 1).last() == *p);
            }
            if Self::passes_suffix(p.name.as_str(), suffix) {
                out.push(p);
                assert(out@.map_values(|p: &Partition| *p) =~= before.map_values(
                    |p: &Partition| *p,
                ).push(*p));
            }
            i += 1;
        }
        assert(all.take(i as int) =~= all);
        out
    }

    /// The indices of the partitions that answer to a base name.
    pub fn matching_partitions(&self, name: &str, slot: Option<&str>) -> (r: Vec<usize>)
        ensures
            r@.map_values(|i: usize| i as int) == answering(
                self@.tables.partitions,
                name@,
                option_view(slot),
                0,
            ),
            forall|k: int| 0 <= k < r@.len() ==> #[trigger] r@[k] < self.partitions@.len(),
    {
        let ghost views = self@.tables.partitions;
        let ghost wanted = option_view(slot);
        let mut out: Vec<usize> = Vec::new();
        let mut i: usize = 0;
        assert(out@.map_values(|i: usize| i as int) + answering(views, name@, wanted, 0)
            =~= answering(views, name@, wanted, 0));
        while i < self.partitions.len()
            invariant
                i <= self.partitions.len(),
                views == self@.tables.partitions,
                wanted == option_view(slot),
                answering(views, name@, wanted, 0) == out@.map_values(|i: usize| i as int)
                    + answering(views, name@, wanted, i as int),
                forall|k: int| 0 <= k < out@.len() ==> #[trigger] out@[k] < self.partitions@.len(),
            decreases self.partitions.len() - i,
        {
            let p = &self.partitions[i];
            let ghost before = out@;
            assert(views[i as int] == p@);
            if str_eq(Self::strip_suffix(p.name.as_str()), name) && Self::passes_suffix(
                p.name.as_str(),
                slot,
            ) {
                out.push(i);
                proof {
                    let rest = answering(views, name@, wanted, i + 1);
                    assert(before.map_values(|i: usize| i as int) + (seq![i as int] + rest)
                        =~= out@.map_values(|i: usize| i as int) + rest);
                }
            }
            i += 1;
        }
        assert(out@.map_values(|i: usize| i as int) + Seq::<int>::empty() =~= out@.map_values(
            |i: usize| i as int,
        ));
        out
    }

    /// The index of the first partition of this very name.
    pub fn position(&self, name: &str) -> (r: Option<usize>)
        ensures
            match r {
                Some(i) => named(self@.tables.partitions, name@, 0) == Some(i as int) && i
                    < self.partitions@.len() && self.partitions@[i as int].name@ == name@,
                None => named(self@.tables.partitions, name@, 0) is None,
            },
    {
        let ghost views = self@.tables.partitions;
        let mut i: usize = 0;
        while i < self.partitions.len()
            invariant
                i <= self.partitions.len(),
                views == self@.tables.partitions,
                named(views, name@, 0) == named(views, name@, i as int),
            decreases self.partitions.len() - i,
        {
            assert(views[i as int] == self.partitions@[i as int]@);
            if str_eq(self.partitions[i].name.as_str(), name) {
                return Some(i);
            }
            i += 1;
        }
        None
    }

    /// The names of some partitions.
    pub fn list_names(&self, indices: &Vec<usize>) -> (r: Vec<String>)
        requires
            forall|k: int|
                0 <= k < indices@.len() ==> #[trigger] indices@[k] < self.partitions@.len(),
        ensures
            texts(r@) == names_of(
                self@.tables.partitions,
                indices@.map_values(|i: usize| i as int),
            ),
    {
        let ghost all = names_of(
            self@.tables.partitions,
            indices@.map_values(|i: usize| i as int),
        );
        let mut out: Vec<String> = Vec::new();
        let mut k: usize = 0;
        while k < indices.len()
            invariant
                k <= indices.len(),
                out@.len() == k,
                forall|m: int|
                    0 <= m < indices@.len() ==> #[trigger] indices@[m] < self.partitions@.len(),
                all == names_of(
                    self@.tables.partitions,
                    indices@.map_values(|i: usize| i as int),
                ),
                forall|m: int| 0 <= m < k ==> (#[trigger] out@[m])@ == all[m],
            decreases indices.len() - k,
        {
            out.push(self.partitions[indices[k]].name.clone());
            k += 1;
        }
        assert(texts(out@) =~= all);
        out
    }

    /// The names of the partitions that an ambiguous name stands for.
    pub fn ambiguous_names(&self, name: &str, slot: Option<&str>) -> (r: Option<Vec<String>>)
        ensures
            ({
                let parts = self@.tables.partitions;
                match r {
                    Some(names) => is_ambiguous(parts, name@, option_view(slot)) && texts(names@)
                        == names_of(parts, answering(parts, name@, option_view(slot), 0)),
                    None => !is_ambiguous(parts, name@, option_view(slot)),
                }
            }),
    {
        match self.resolve_partition(name, slot) {
            Err(NameError::Ambiguous { names }) => Some(names),
            _ => None,
        }
    }

    /// Resolves a partition by its full name, or by its base name under a
    /// suffix filter. A base name of several partitions is refused, with the
    /// names of them all.
    pub fn resolve_partition(&self, name: &str, slot: Option<&str>) -> (r: Result<usize, NameError>)
        ensures
            ({
                let parts = self@.tables.partitions;
                match r {
                    Ok(i) => resolved(parts, name@, option_view(slot)) == Ok::<int, Error>(i as int)
                        && i < self.partitions@.len(),
                    Err(e) => resolved(parts, name@, option_view(slot)) == Err::<int, Error>(
                        e.fault(),
                    ) && e.lists(
                        names_of(parts, answering(parts, name@, option_view(slot), 0)),
                    ),
                }
            }),
    {
        if let Some(i) = self.position(name) {
            return Ok(i);
        }
        let found = self.matching_partitions(name, slot);
        let ghost mapped = found@.map_values(|i: usize| i as int);
        assert(mapped.len() == found@.len());
        if found.len() == 0 {
            return Err(NameError::Failed(Error::NotFound(Fault::Partition)));
        }
        if found.len() > 1 {
            return Err(NameError::Ambiguous { names: self.list_names(&found) });
        }
        proof {
            assert(mapped[0] == found@[0]);
            lemma_answering(self@.tables.partitions, name@, option_view(slot), 0);
        }
        Ok(found[0])
    }
}

/// Whether several partitions answer to a base name, and none has it as its name.
pub open spec fn is_ambiguous(
    partitions: Seq<PartitionView>,
    name: Seq<char>,
    suffix: Option<Seq<char>>,
) -> bool {
    resolved(partitions, name, suffix) == Err::<int, Error>(Error::Invalid(Fault::Ambiguous))
}

/// What answers to a name is in the table and does answer.
pub proof fn lemma_answering(
    partitions: Seq<PartitionView>,
    name: Seq<char>,
    suffix: Option<Seq<char>>,
    i: int,
)
    requires
        0 <= i,
    ensures
        forall|k: int|
            0 <= k < answering(partitions, name, suffix, i).len() ==> {
                let m = #[trigger] answering(partitions, name, suffix, i)[k];
                i <= m < partitions.len() && answers(partitions[m].name, name, suffix)
            },
    decreases partitions.len() - i,
{
    if i < partitions.len() {
        lemma_answering(partitions, name, suffix, i + 1);
        let all = answering(partitions, name, suffix, i);
        let rest = answering(partitions, name, suffix, i + 1);
        assert forall|k: int| 0 <= k < all.len() implies {
            let m = #[trigger] all[k];
            i <= m < partitions.len() && answers(partitions[m].name, name, suffix)
        } by {
            if answers(partitions[i].name, name, suffix) {
                if k > 0 {
                    assert(all[k] == rest[k - 1]);
                }
            } else {
                assert(all[k] == rest[k]);
            }
        }
    }
}

/// The rank of a group among those of known vendors.
pub open spec fn vendor_rank(name: Seq<char>) -> int {
    if has_prefix(name, "qti_dynamic_partitions"@) {
        0
    } else if has_prefix(name, "google_dynamic_partitions"@) {
        1
    } else if has_prefix(name, "samsung_dynamic_partitions"@) || has_prefix(
        name,
        "sec_dynamic_partitions"@,
    ) {
        2
    } else if has_prefix(name, "mtk_dynamic_partitions"@) {
        3
    } else {
        4
    }
}

/// Whether the group `i` goes before the group `j` for a partition with a suffix:
/// by vendor, then by size, then by place.
pub open spec fn preferred(groups: Seq<GroupView>, i: int, j: int) -> bool {
    let a = groups[i];
    let b = groups[j];
    ||| vendor_rank(a.name) < vendor_rank(b.name)
    ||| vendor_rank(a.name) == vendor_rank(b.name) && (a.maximum_size > b.maximum_size || (
    a.maximum_size == b.maximum_size && i <= j))
}

/// Whether a group carries the suffix of the partition.
pub open spec fn carries(group: Seq<char>, partition: Seq<char>) -> bool {
    match suffix_of(partition) {
        Some(s) => has_suffix(group, seq!['_'] + s),
        None => false,
    }
}

/// The group that a new partition belongs to: the preferred one of those that
/// carry its suffix, else the last of the largest.
pub open spec fn is_group_for(groups: Seq<GroupView>, name: Seq<char>, i: int) -> bool {
    if exists|k: int| 0 <= k < groups.len() && #[trigger] carries(groups[k].name, name) {
        &&& 0 <= i < groups.len()
        &&& carries(groups[i].name, name)
        &&& forall|k: int|
            0 <= k < groups.len() && #[trigger] carries(groups[k].name, name) ==> preferred(
                groups,
                i,
                k,
            )
    } else {
        &&& 0 <= i < groups.len()
        &&& forall|k: int|
            0 <= k < groups.len() ==> (#[trigger] groups[k]).maximum_size < groups[i].maximum_size
                || (groups[k].maximum_size == groups[i].maximum_size && k <= i)
    }
}

/// The group that a new partition belongs to, if there is any group.
pub open spec fn group_for(groups: Seq<GroupView>, name: Seq<char>) -> Option<u32> {
    if groups.len() == 0 {
        None
    } else {
        Some((choose|i: int| is_group_for(groups, name, i)) as u32)
    }
}

/// A new partition belongs to one group only.
proof fn lemma_group_unique(groups: Seq<GroupView>, name: Seq<char>, i: int, j: int)
    requires
        is_group_for(groups, name, i),
        is_group_for(groups, name, j),
    ensures
        i == j,
{
    if exists|k: int| 0 <= k < groups.len() && #[trigger] carries(groups[k].name, name) {
        assert(carries(groups[i].name, name) && carries(groups[j].name, name));
        assert(preferred(groups, i, j) && preferred(groups, j, i));
    } else {
        let a = groups[i];
        let b = groups[j];
    }
}

fn group_rank(name: &str) -> (r: u32)
    ensures
        r == vendor_rank(name@),
{
    if starts_with(name, "qti_dynamic_partitions") {
        0
    } else if starts_with(name, "google_dynamic_partitions") {
        1
    } else if starts_with(name, "samsung_dynamic_partitions") || starts_with(
        name,
        "sec_dynamic_partitions",
    ) {
        2
    } else if starts_with(name, "mtk_dynamic_partitions") {
        3
    } else {
        4
    }
}

impl SuperData {
    /// Whether a group carries the suffix of the partition.
    fn group_carries(group: &str, part_name: &str) -> (r: bool)
        ensures
            r == carries(group@, part_name@),
    {
        proof {
            reveal_strlit("_a");
            reveal_strlit("_b");
            assert("_a"@ =~= seq!['_'] + seq!['a']);
            assert("_b"@ =~= seq!['_'] + seq!['b']);
        }
        match Self::find_suffix(part_name) {
            None => false,
            Some(s) => if is_letter(s, 'a') {
                ends_with(group, "_a")
            } else {
                ends_with(group, "_b")
            },
        }
    }

    /// Selects the group for a new partition.
    pub fn select_group_for_name(&self, part_name: &str) -> (r: Option<u32>)
        requires
            self.groups@.len() <= u32::MAX,
        ensures
            match r {
                Some(i) => is_group_for(self@.tables.groups, part_name@, i as int),
                None => self.groups@.len() == 0,
            },
            r == group_for(self@.tables.groups, part_name@),
    {
        let ghost groups = self@.tables.groups;
        let count = self.groups.len();
        let mut best: Option<usize> = None;
        let mut i: usize = 0;
        while i < count
            invariant
                i <= count == self.groups@.len(),
                groups == self@.tables.groups,
                match best {
                    Some(b) => {
                        &&& b < i
                        &&& carries(groups[b as int].name, part_name@)
                        &&& forall|k: int|
                            0 <= k < i && #[trigger] carries(groups[k].name, part_name@)
                                ==> preferred(groups, b as int, k)
                    },
                    None => forall|k: int|
                        0 <= k < i ==> !#[trigger] carries(groups[k].name, part_name@),
                },
            decreases count - i,
        {
            assert(groups[i as int] == self.groups@[i as int]@);
            if Self::group_carries(self.groups[i].name.as_str(), part_name) {
                match best {
                    None => {
                        best = Some(i);
                    },
                    Some(b) => {
                        assert(groups[b as int] == self.groups@[b as int]@);
                        let rank_i = group_rank(self.groups[i].name.as_str());
                        let rank_b = group_rank(self.groups[b].name.as_str());
                        if rank_i < rank_b || (rank_i == rank_b && self.groups[i].maximum_size
                            > self.groups[b].maximum_size) {
                            best = Some(i);
                        }
                    },
                }
            }
            i += 1;
        }
        if let Some(b) = best {
            proof {
                assert(is_group_for(groups, part_name@, b as int));
                let c = choose|i: int| is_group_for(groups, part_name@, i);
                lemma_group_unique(groups, part_name@, b as int, c);
            }
            return Some(b as u32);
        }
        if count == 0 {
            return None;
        }
        let mut largest: usize = 0;
        let mut j: usize = 0;
        while j < count
            invariant
                j <= count == self.groups@.len(),
                count > 0,
                groups == self@.tables.groups,
                largest < count,
                largest <= j,
                forall|k: int|
                    0 <= k < j ==> (#[trigger] groups[k]).maximum_size
                        < groups[largest as int].maximum_size || (groups[k].maximum_size
                        == groups[largest as int].maximum_size && k <= largest),
            decreases count - j,
        {
            assert(groups[j as int] == self.groups@[j as int]@);
            assert(groups[largest as int] == self.groups@[largest as int]@);
            if self.groups[j].maximum_size >= self.groups[largest].maximum_size {
                largest = j;
            }
            j += 1;
        }
        proof {
            assert(is_group_for(groups, part_name@, largest as int));
            let c = choose|i: int| is_group_for(groups, part_name@, i);
            lemma_group_unique(groups, part_name@, largest as int, c);
        }
        Some(largest as u32)
    }

    /// The attribute flags of a partition as text.
    pub fn partition_attr_string(attrs: u32) -> (r: String)
        ensures
            r@ == attr_text(attrs),
    {
        let mut flags: Vec<String> = Vec::new();
        if attrs & LP_PARTITION_ATTR_READONLY != 0 {
            flags.push(String::from_str("readonly"));
        }
        assert(texts(flags@) =~= flag_text(attrs, LP_PARTITION_ATTR_READONLY, "readonly"@));
        if attrs & LP_PARTITION_ATTR_SLOT_SUFFIXED != 0 {
            flags.push(String::from_str("slot_suffixed"));
        }
        assert(texts(flags@) =~= flag_text(attrs, LP_PARTITION_ATTR_READONLY, "readonly"@)
            + flag_text(attrs, LP_PARTITION_ATTR_SLOT_SUFFIXED, "slot_suffixed"@));
        if attrs & LP_PARTITION_ATTR_UPDATED != 0 {
            flags.push(String::from_str("updated"));
        }
        assert(texts(flags@) =~= flag_text(attrs, LP_PARTITION_ATTR_READONLY, "readonly"@)
            + flag_text(attrs, LP_PARTITION_ATTR_SLOT_SUFFIXED, "slot_suffixed"@) + flag_text(
            attrs,
            LP_PARTITION_ATTR_UPDATED,
            "updated"@,
        ));
        if attrs & LP_PARTITION_ATTR_DISABLED != 0 {
            flags.push(String::from_str("disabled"));
        }
        assert(texts(flags@) =~= attr_flags(attrs));
        if flags.len() == 0 {
            String::from_str("none")
        } else {
            join(&flags, "|")
        }
    }
}

/// The name of a flag, where it is set.
pub open spec fn flag_text(attrs: u32, flag: u32, name: Seq<char>) -> Seq<Seq<char>> {
    if attrs & flag != 0 {
        seq![name]
    } else {
        seq![]
    }
}

/// The names of the flags that are set.
pub open spec fn attr_flags(attrs: u32) -> Seq<Seq<char>> {
    flag_text(attrs, LP_PARTITION_ATTR_READONLY, "readonly"@) + flag_text(
        attrs,
        LP_PARTITION_ATTR_SLOT_SUFFIXED,
        "slot_suffixed"@,
    ) + flag_text(attrs, LP_PARTITION_ATTR_UPDATED, "updated"@) + flag_text(
        attrs,
        LP_PARTITION_ATTR_DISABLED,
        "disabled"@,
    )
}

/// The attribute flags as text.
pub open spec fn attr_text(attrs: u32) -> Seq<char> {
    if attr_flags(attrs).len() == 0 {
        "none"@
    } else {
        joined(attr_flags(attrs), "|"@)
    }
}

/// The empty string.
fn empty_str() -> (r: &'static str)
    ensures
        r@ == Seq::<char>::empty(),
{
    proof {
        reveal_strlit("");
        assert(""@ =~= Seq::<char>::empty());
    }
    ""
}

} // verus!
