//! Split images: a `super` that spans several block devices, each in a file of
//! its own.

use crate::error::{Error, Fault};
use crate::format::{device_views, BlockDevice, BlockDeviceView, Extent, LP_TARGET_TYPE_LINEAR};
use crate::reader::extent_stream::{ExtentReader, ExtentSource};
use crate::reader::source::{complete, decoded, sure_in, BlockSource, Image};
use crate::text::{
    concat, ends_with, file_stem, has_prefix, has_suffix, lowercase, path_stem, position_of,
    split_once, starts_with, str_eq, texts, to_lowercase, trim, trimmed,
};
use vstd::prelude::*;
use vstd::string::*;

verus! {

/// The primary image, which is device 0, and the files bound to other devices.
pub struct MultiBlockImage<F: BlockSource> {
    primary: Image<F>,
    extra: Vec<(u32, Image<F>)>,
}

/// The place of a device among the bound ones, from the `i`-th on.
pub open spec fn bound_at<F: BlockSource>(
    extra: Seq<(u32, Image<F>)>,
    index: u32,
    i: int,
) -> Option<int>
    decreases extra.len() - i,
{
    if i < 0 || i >= extra.len() {
        None
    } else if extra[i].0 == index {
        Some(i)
    } else {
        bound_at(extra, index, i + 1)
    }
}

proof fn lemma_bound_push<F: BlockSource>(
    extra: Seq<(u32, Image<F>)>,
    more: (u32, Image<F>),
    index: u32,
    i: int,
)
    requires
        0 <= i <= extra.len(),
    ensures
        bound_at(extra.push(more), index, i) == (match bound_at(extra, index, i) {
            Some(k) => Some(k),
            None => if more.0 == index {
                Some(extra.len() as int)
            } else {
                None
            },
        }),
        bound_at(extra, index, i) matches Some(k) ==> i <= k < extra.len() && extra[k].0 == index,
    decreases extra.len() - i,
{
    if i < extra.len() {
        lemma_bound_push(extra, more, index, i + 1);
    } else {
        assert(bound_at(extra.push(more), index, i + 1) is None);
    }
}

proof fn lemma_bound_in<F: BlockSource>(extra: Seq<(u32, Image<F>)>, index: u32, i: int)
    requires
        0 <= i,
    ensures
        bound_at(extra, index, i) matches Some(k) ==> i <= k < extra.len() && extra[k].0 == index,
    decreases extra.len() - i,
{
    if i < extra.len() {
        lemma_bound_in(extra, index, i + 1);
    }
}

impl<F: BlockSource> MultiBlockImage<F> {
    /// The image that holds the data of a device.
    pub closed spec fn backing(&self, index: u32) -> Option<Image<F>> {
        if index == 0 {
            Some(self.primary)
        } else {
            match bound_at(self.extra@, index, 0) {
                Some(k) => Some(self.extra@[k].1),
                None => None,
            }
        }
    }

    /// A container with nothing but its primary image.
    pub fn open_primary(file: F) -> (r: Result<MultiBlockImage<F>, Error>)
        ensures
            match r {
                Ok(mb) => {
                    &&& mb.backing(0) matches Some(image) && image_in(image, file)
                    &&& forall|i: u32| i > 0 ==> (#[trigger] mb.backing(i)) is None
                },
                Err(e) => decoded(file.bytes()) == Err::<Seq<u8>, Error>(e) || (e == Error::Io
                    && !file.reliable()),
            },
    {
        Ok(MultiBlockImage { primary: Image::open(file)?, extra: Vec::new() })
    }

    /// The place of a bound device.
    fn find_bound(&self, index: u32) -> (r: Option<usize>)
        ensures
            match r {
                Some(k) => k < self.extra@.len() && bound_at(self.extra@, index, 0) == Some(
                    k as int,
                ),
                None => bound_at(self.extra@, index, 0) is None,
            },
    {
        let mut i: usize = 0;
        while i < self.extra.len()
            invariant
                i <= self.extra.len(),
                bound_at(self.extra@, index, 0) == bound_at(self.extra@, index, i as int),
            decreases self.extra.len() - i,
        {
            if self.extra[i].0 == index {
                return Some(i);
            }
            i += 1;
        }
        None
    }

    /// Binds a file to a device.
    pub fn bind(&mut self, index: u32, file: F) -> (r: Result<(), Error>)
        ensures
            match r {
                Ok(_) => {
                    &&& index != 0
                    &&& old(self).backing(index) is None
                    &&& final(self).backing(index) matches Some(image) && image_in(image, file)
                    &&& forall|i: u32|
                        i != index ==> #[trigger] final(self).backing(i) == old(self).backing(i)
                },
                Err(e) => {
                    &&& *final(self) == *old(self)
                    &&& if index == 0 {
                        e == Error::Invalid(Fault::PrimaryBinding)
                    } else if old(self).backing(index) is Some {
                        e == Error::Invalid(Fault::BoundTwice { index })
                    } else {
                        decoded(file.bytes()) == Err::<Seq<u8>, Error>(e) || (e == Error::Io
                            && !file.reliable())
                    }
                },
            },
    {
        if index == 0 {
            return Err(Error::Invalid(Fault::PrimaryBinding));
        }
        if self.find_bound(index).is_some() {
            return Err(Error::Invalid(Fault::BoundTwice { index }));
        }
        let image = Image::open(file)?;
        let ghost before = self.extra@;
        let ghost added = (index, image);
        self.extra.push((index, image));
        proof {
            assert forall|i: u32| #[trigger] self.backing(i) == if i == index {
                Some(image)
            } else {
                old(self).backing(i)
            } by {
                lemma_bound_push(before, added, i, 0);
            }
        }
        Ok(())
    }

    pub fn is_bound(&self, index: u32) -> (r: bool)
        ensures
            r == (self.backing(index) is Some),
    {
        index == 0 || self.find_bound(index).is_some()
    }

    /// Reads from the file that backs a device.
    pub fn read_at(&self, source: u32, offset: u64, len: usize) -> (r: Result<Vec<u8>, Error>)
        ensures
            match self.backing(source) {
                None => r == Err::<Vec<u8>, Error>(
                    Error::NotFound(Fault::NotBound { index: source }),
                ),
                Some(image) => match r {
                    Ok(data) => {
                        &&& offset + len <= image.bytes().len()
                        &&& data@ == image.bytes().subrange(offset as int, offset + len)
                    },
                    Err(e) => if offset + len > image.bytes().len() {
                        e == Error::Invalid(Fault::ReadRange)
                    } else {
                        e == Error::Io && !image.reliable() && !image.sure_at(
                            offset as int,
                            len as int,
                        )
                    },
                },
            },
    {
        if source == 0 {
            return self.primary.read_at(offset, len);
        }
        match self.find_bound(source) {
            Some(k) => self.extra[k].1.read_at(offset, len),
            None => Err(Error::NotFound(Fault::NotBound { index: source })),
        }
    }

    /// The size of the image that backs a device.
    pub fn backing_size(&self, source: u32) -> (r: Option<u64>)
        ensures
            match self.backing(source) {
                Some(image) => r matches Some(n) && n == image.bytes().len(),
                None => r is None,
            },
    {
        if source == 0 {
            return Some(self.primary.size());
        }
        match self.find_bound(source) {
            Some(k) => Some(self.extra[k].1.size()),
            None => None,
        }
    }

    /// Checks that the device of every linear extent is bound. The error gives
    /// the index and the name of the first that is not.
    pub fn check_extents_bound(&self, extents: &[Extent], devices: &[BlockDevice]) -> (r: Result<
        (),
        Unbound,
    >)
        ensures
            match r {
                Ok(_) => forall|i: int|
                    0 <= i < extents@.len() && (#[trigger] extents@[i]).target_type
                        == LP_TARGET_TYPE_LINEAR ==> self.backing(extents@[i].target_source) is Some,
                Err(e) => {
                    &&& e.name@ == name_of_device(device_views(devices@), e.index)
                    &&& exists|i: int|
                        0 <= i < extents@.len() && (#[trigger] extents@[i]).target_type
                            == LP_TARGET_TYPE_LINEAR && self.backing(
                            extents@[i].target_source,
                        ) is None && e.index == extents@[i].target_source && forall|k: int|
                            0 <= k < i && (#[trigger] extents@[k]).target_type
                                == LP_TARGET_TYPE_LINEAR ==> self.backing(
                                extents@[k].target_source,
                            ) is Some
                },
            },
    {
        let mut i: usize = 0;
        while i < extents.len()
            invariant
                i <= extents.len(),
                forall|k: int|
                    0 <= k < i && (#[trigger] extents@[k]).target_type == LP_TARGET_TYPE_LINEAR
                        ==> self.backing(extents@[k].target_source) is Some,
            decreases extents.len() - i,
        {
            let e = extents[i];
            if e.target_type == LP_TARGET_TYPE_LINEAR && !self.is_bound(e.target_source) {
                assert(extents@[i as int] == e);
                let index = e.target_source;
                let name = if (index as usize) < devices.len() {
                    devices[index as usize].partition_name.clone()
                } else {
                    String::from_str("?")
                };
                return Err(Unbound { index, name });
            }
            i += 1;
        }
        Ok(())
    }
}

/// A block device that has to be bound: its index and its name.
#[derive(Debug, PartialEq, Eq)]
pub struct Unbound {
    pub index: u32,
    pub name: String,
}

/// The name of a device of the table.
pub open spec fn name_of_device(devices: Seq<BlockDeviceView>, index: u32) -> Seq<char> {
    if index < devices.len() {
        devices[index as int].partition_name
    } else {
        "?"@
    }
}

impl<F: BlockSource> ExtentSource for MultiBlockImage<F> {
    open spec fn device(&self, source: u32) -> Option<Seq<u8>> {
        match self.backing(source) {
            Some(image) => Some(image.bytes()),
            None => None,
        }
    }

    open spec fn steady(&self) -> bool {
        forall|i: u32| (#[trigger] self.backing(i)) matches Some(image) ==> image.reliable()
    }

    open spec fn sure_on(&self, source: u32, offset: int, len: int) -> bool {
        self.backing(source) matches Some(image) ==> image.sure_at(offset, len)
    }

    fn read_device(&self, source: u32, offset: u64, len: usize) -> (r: Result<Vec<u8>, Error>) {
        self.read_at(source, offset, len)
    }
}

/// A partition of a split image that is read from front to back.
pub type SplitExtentReader<'a, F> = ExtentReader<'a, MultiBlockImage<F>>;

/// What stops the files from the `k`-th on from being bound; `bound` holds the
/// devices that are bound already.
pub open spec fn binding_fault<F: BlockSource>(
    files: Seq<(u32, F)>,
    k: int,
    bound: Set<u32>,
) -> Option<Error>
    decreases files.len() - k,
{
    if k < 0 || k >= files.len() {
        None
    } else {
        let (index, file) = files[k];
        if index == 0 {
            Some(Error::Invalid(Fault::PrimaryBinding))
        } else if bound.contains(index) {
            Some(Error::Invalid(Fault::BoundTwice { index }))
        } else {
            match decoded(file.bytes()) {
                Err(e) => Some(e),
                Ok(_) => binding_fault(files, k + 1, bound.insert(index)),
            }
        }
    }
}

/// The devices of the first `n` files.
pub open spec fn bound_set<F: BlockSource>(files: Seq<(u32, F)>, n: int) -> Set<u32>
    decreases n,
{
    if n <= 0 {
        Set::empty()
    } else {
        bound_set(files, n - 1).insert(files[n - 1].0)
    }
}

/// Whether an image is the one in a file.
pub open spec fn image_in<F: BlockSource>(image: Image<F>, file: F) -> bool {
    &&& decoded(file.bytes()) == Ok::<Seq<u8>, Error>(image.bytes())
    &&& image.reliable() == (file.reliable() && complete(file.bytes()))
    &&& forall|offset: int, len: int| #[trigger]
        image.sure_at(offset, len) == sure_in(&file, offset, len)
}

/// Opens a split image: the primary file, and the files of the other devices.
pub fn open_multiblock<F: BlockSource>(primary: F, files: Vec<(u32, F)>) -> (r: Result<
    MultiBlockImage<F>,
    Error,
>)
    ensures
        match r {
            Ok(mb) => {
                &&& mb.backing(0) matches Some(image) && image_in(image, primary)
                &&& forall|k: int|
                    0 <= k < files@.len() ==> {
                        &&& (#[trigger] files@[k]).0 != 0
                        &&& mb.backing(files@[k].0) matches Some(image) && image_in(
                            image,
                            files@[k].1,
                        )
                    }
                &&& forall|i: u32|
                    i != 0 && !bound_set(files@, files@.len() as int).contains(i) ==> (
                    #[trigger] mb.backing(i)) is None
            },
            Err(e) => {
                ||| decoded(primary.bytes()) == Err::<Seq<u8>, Error>(e)
                ||| decoded(primary.bytes()) is Ok && binding_fault(files@, 0, Set::empty())
                    == Some(e)
                ||| e == Error::Io && (!primary.reliable() || exists|k: int|
                    0 <= k < files@.len() && !(#[trigger] files@[k]).1.reliable())
            },
        },
{
    let mut mb = MultiBlockImage::open_primary(primary)?;
    let ghost all = files@;
    let mut rest = files;
    let ghost mut k: int = 0;
    assert(all.skip(0) =~= all);
    while rest.len() > 0
        invariant
            0 <= k <= all.len(),
            all == files@,
            rest@ == all.skip(k),
            decoded(primary.bytes()) is Ok,
            mb.backing(0) matches Some(image) && image_in(image, primary),
            forall|m: int|
                0 <= m < k ==> {
                    &&& (#[trigger] all[m]).0 != 0
                    &&& mb.backing(all[m].0) matches Some(image) && image_in(image, all[m].1)
                    &&& bound_set(all, k).contains(all[m].0)
                },
            forall|i: u32|
                i != 0 && !bound_set(all, k).contains(i) ==> (#[trigger] mb.backing(i)) is None,
            forall|i: u32| bound_set(all, k).contains(i) ==> (#[trigger] mb.backing(i)) is Some,
            binding_fault(all, 0, Set::empty()) == binding_fault(all, k, bound_set(all, k)),
        decreases rest.len(),
    {
        assert(rest@[0] == all[k]);
        let (index, file) = rest.remove(0);
        let ghost before = mb;
        mb.bind(index, file)?;
        proof {
            assert(rest@ =~= all.skip(k + 1));
            assert forall|m: int| 0 <= m < k + 1 implies {
                &&& (#[trigger] all[m]).0 != 0
                &&& mb.backing(all[m].0) matches Some(image) && image_in(image, all[m].1)
                &&& bound_set(all, k + 1).contains(all[m].0)
            } by {
                if m < k {
                    assert(before.backing(all[m].0) is Some);
                    assert(all[m].0 != index);
                    assert(mb.backing(all[m].0) == before.backing(all[m].0));
                }
            }
            assert(mb.backing(0) == before.backing(0));
            assert forall|i: u32| i != 0 && !bound_set(all, k + 1).contains(i) implies (
            #[trigger] mb.backing(i)) is None by {
                assert(mb.backing(i) == before.backing(i));
            }
            assert forall|i: u32| bound_set(all, k + 1).contains(i) implies (
            #[trigger] mb.backing(i)) is Some by {
                if i != index {
                    assert(mb.backing(i) == before.backing(i));
                }
            }
            k = k + 1;
        }
    }
    assert(k == all.len());
    Ok(mb)
}

/// The device name and the path in a binding such as `vendor=vendor.img`; a
/// binding without a name is all path.
pub open spec fn binding_parts(spec: Seq<char>) -> (Option<Seq<char>>, Seq<char>) {
    let at = position_of(spec, '=');
    if at < spec.len() {
        (Some(trimmed(spec.take(at))), trimmed(spec.skip(at + 1)))
    } else {
        (None, trimmed(spec))
    }
}

/// A file stem without a leading `super_` or `super-`.
pub open spec fn stripped_stem(stem: Seq<char>) -> Seq<char> {
    if has_prefix(stem, "super_"@) || has_prefix(stem, "super-"@) {
        stem.skip(6)
    } else {
        stem
    }
}

/// Whether a file stem names a device: as it is, without its `super` prefix, or
/// as its last part.
pub open spec fn stem_hits(device: Seq<char>, stem: Seq<char>) -> bool {
    device == stem || device == stripped_stem(stem) || has_suffix(stem, seq!['_'] + device)
}

/// Whether a file stem names a device when case is ignored.
pub open spec fn stem_hits_loosely(device: Seq<char>, stem: Seq<char>) -> bool {
    lowercase(device) == lowercase(stem) || lowercase(device) == lowercase(stripped_stem(stem))
}

/// The devices from the `i`-th on that a file stem names.
pub open spec fn hits(
    devices: Seq<BlockDeviceView>,
    stem: Seq<char>,
    loosely: bool,
    i: int,
) -> Seq<u32>
    decreases devices.len() - i,
{
    if i < 0 || i >= devices.len() {
        Seq::empty()
    } else {
        let rest = hits(devices, stem, loosely, i + 1);
        let name = devices[i].partition_name;
        if (!loosely && stem_hits(name, stem)) || (loosely && stem_hits_loosely(name, stem)) {
            seq![i as u32] + rest
        } else {
            rest
        }
    }
}

/// The only device that a file stem names; case counts, unless nothing matches
/// so.
pub open spec fn stem_match(devices: Seq<BlockDeviceView>, stem: Seq<char>) -> Option<u32> {
    let exact = hits(devices, stem, false, 0);
    let found = if exact.len() == 0 {
        hits(devices, stem, true, 0)
    } else {
        exact
    };
    if found.len() == 1 {
        Some(found[0])
    } else {
        None
    }
}

/// The first device of this name, from the `i`-th on.
pub open spec fn device_named(devices: Seq<BlockDeviceView>, name: Seq<char>, i: int) -> Option<u32>
    decreases devices.len() - i,
{
    if i < 0 || i >= devices.len() {
        None
    } else if devices[i].partition_name == name {
        Some(i as u32)
    } else {
        device_named(devices, name, i + 1)
    }
}

/// The device that a path names by its file stem.
pub open spec fn path_match(devices: Seq<BlockDeviceView>, path: Seq<char>) -> Option<u32> {
    match path_stem(path) {
        Some(stem) => stem_match(devices, stem),
        None => None,
    }
}

/// The device and the path of the `k`-th binding.
pub open spec fn binding(devices: Seq<BlockDeviceView>, spec: Seq<char>, k: usize) -> Result<
    (u32, Seq<char>),
    Error,
> {
    let (name, path) = binding_parts(spec);
    if path.len() == 0 {
        Err(Error::Invalid(Fault::BindingSpec { spec: k }))
    } else {
        match name {
            Some(n) => if n.len() == 0 {
                Err(Error::Invalid(Fault::BindingSpec { spec: k }))
            } else {
                match device_named(devices, n, 0) {
                    Some(i) => Ok((i, path)),
                    None => Err(Error::NotFound(Fault::BindingName { spec: k })),
                }
            },
            None => match path_match(devices, path) {
                Some(i) => Ok((i, path)),
                None => Err(Error::NotFound(Fault::BindingMatch { spec: k })),
            },
        }
    }
}

/// Whether a device is already bound.
pub open spec fn has_binding(done: Seq<(u32, Seq<char>)>, index: u32) -> bool {
    exists|k: int| 0 <= k < done.len() && (#[trigger] done[k]).0 == index
}

/// The bindings from the `i`-th on, behind those that came before. A binding of
/// the primary device is dropped where it is the primary file, and refused
/// otherwise.
pub open spec fn bindings_from(
    devices: Seq<BlockDeviceView>,
    specs: Seq<Seq<char>>,
    is_primary: Seq<bool>,
    i: int,
    done: Seq<(u32, Seq<char>)>,
) -> Result<Seq<(u32, Seq<char>)>, Error>
    decreases specs.len() - i,
{
    if i < 0 || i >= specs.len() {
        Ok(done)
    } else {
        match binding(devices, specs[i], i as usize) {
            Err(e) => Err(e),
            Ok((index, path)) => if index == 0 {
                if is_primary[i] {
                    bindings_from(devices, specs, is_primary, i + 1, done)
                } else {
                    Err(Error::Invalid(Fault::PrimaryBinding))
                }
            } else if has_binding(done, index) {
                Err(Error::Invalid(Fault::BoundTwice { index }))
            } else {
                bindings_from(devices, specs, is_primary, i + 1, done.push((index, path)))
            },
        }
    }
}

/// Whether a name is one of two others.
pub fn is_either(name: &str, one: &str, other: &str) -> (r: bool)
    ensures
        r == (name@ == one@ || name@ == other@),
{
    str_eq(name, one) || str_eq(name, other)
}

/// The devices that a file stem names.
fn stem_hit_list(devices: &[BlockDevice], stem: &str, loosely: bool) -> (r: Vec<u32>)
    requires
        devices@.len() <= u32::MAX,
    ensures
        r@ == hits(device_views(devices@), stem@, loosely, 0),
{
    let ghost views = device_views(devices@);
    proof {
        reveal_strlit("super_");
        reveal_strlit("super-");
    }
    let stripped = if starts_with(stem, "super_") || starts_with(stem, "super-") {
        let n = stem.unicode_len();
        let rest = stem.substring_char(6, n);
        assert(rest@ =~= stem@.skip(6));
        rest
    } else {
        stem
    };
    let mut out: Vec<u32> = Vec::new();
    let mut i: usize = 0;
    assert(out@ + hits(views, stem@, loosely, 0) =~= hits(views, stem@, loosely, 0));
    while i < devices.len()
        invariant
            i <= devices.len() <= u32::MAX,
            views == device_views(devices@),
            stripped@ == stripped_stem(stem@),
            hits(views, stem@, loosely, 0) == out@ + hits(views, stem@, loosely, i as int),
        decreases devices.len() - i,
    {
        let name = devices[i].partition_name.as_str();
        assert(views[i as int].partition_name == name@);
        let hit = if loosely {
            let lower = to_lowercase(name);
            is_either(
                lower.as_str(),
                to_lowercase(stem).as_str(),
                to_lowercase(stripped).as_str(),
            )
        } else {
            proof {
                reveal_strlit("_");
                assert("_"@ =~= seq!['_']);
            }
            str_eq(name, stem) || str_eq(name, stripped) || ends_with(
                stem,
                concat("_", name).as_str(),
            )
        };
        let ghost before = out@;
        if hit {
            out.push(i as u32);
            proof {
                let rest = hits(views, stem@, loosely, i + 1);
                assert(before + (seq![i as u32] + rest) =~= out@ + rest);
            }
        }
        i += 1;
    }
    assert(out@ + Seq::<u32>::empty() =~= out@);
    out
}

/// The only device that a file stem names.
pub fn match_stem(devices: &[BlockDevice], stem: &str) -> (r: Option<u32>)
    requires
        devices@.len() <= u32::MAX,
    ensures
        r == stem_match(device_views(devices@), stem@),
{
    let mut found = stem_hit_list(devices, stem, false);
    if found.len() == 0 {
        found = stem_hit_list(devices, stem, true);
    }
    if found.len() == 1 {
        Some(found[0])
    } else {
        None
    }
}

/// The device that a path names by its file stem.
pub fn auto_match_device(devices: &[BlockDevice], path: &str) -> (r: Option<u32>)
    requires
        devices@.len() <= u32::MAX,
    ensures
        r == path_match(device_views(devices@), path@),
{
    match file_stem(path) {
        Some(stem) => match_stem(devices, stem.as_str()),
        None => None,
    }
}

/// The first device of this name.
pub fn find_device(devices: &[BlockDevice], name: &str) -> (r: Option<u32>)
    requires
        devices@.len() <= u32::MAX,
    ensures
        r == device_named(device_views(devices@), name@, 0),
        r matches Some(i) ==> i < devices@.len() && devices@[i as int].partition_name@ == name@,
{
    let ghost views = device_views(devices@);
    let mut i: usize = 0;
    while i < devices.len()
        invariant
            i <= devices.len() <= u32::MAX,
            views == device_views(devices@),
            device_named(views, name@, 0) == device_named(views, name@, i as int),
        decreases devices.len() - i,
    {
        assert(views[i as int].partition_name == devices@[i as int].partition_name@);
        if str_eq(devices[i].partition_name.as_str(), name) {
            return Some(i as u32);
        }
        i += 1;
    }
    None
}

/// The device name and the path in a binding.
pub fn split_binding(spec: &str) -> (r: (Option<String>, String))
    ensures
        r.1@ == binding_parts(spec@).1,
        match r.0 {
            Some(name) => binding_parts(spec@).0 == Some(name@),
            None => binding_parts(spec@).0 is None,
        },
{
    match split_once(spec, '=') {
        Some((name, path)) => {
            let n = String::from_str(trim(name.as_str()));
            (Some(n), String::from_str(trim(path.as_str())))
        },
        None => (None, String::from_str(trim(spec))),
    }
}

/// The device and the path of one binding.
pub fn resolve_binding(devices: &[BlockDevice], spec: &str, k: usize) -> (r: Result<
    (u32, String),
    Error,
>)
    requires
        devices@.len() <= u32::MAX,
    ensures
        match r {
            Ok((index, path)) => binding(device_views(devices@), spec@, k) == Ok::<
                (u32, Seq<char>),
                Error,
            >((index, path@)),
            Err(e) => binding(device_views(devices@), spec@, k) == Err::<(u32, Seq<char>), Error>(
                e,
            ),
        },
{
    let (name, path) = split_binding(spec);
    if path.as_str().unicode_len() == 0 {
        return Err(Error::Invalid(Fault::BindingSpec { spec: k }));
    }
    match name {
        Some(n) => {
            if n.as_str().unicode_len() == 0 {
                return Err(Error::Invalid(Fault::BindingSpec { spec: k }));
            }
            match find_device(devices, n.as_str()) {
                Some(i) => Ok((i, path)),
                None => Err(Error::NotFound(Fault::BindingName { spec: k })),
            }
        },
        None => match auto_match_device(devices, path.as_str()) {
            Some(i) => Ok((i, path)),
            None => Err(Error::NotFound(Fault::BindingMatch { spec: k })),
        },
    }
}

/// Resolved bindings as mathematical values.
pub open spec fn binding_views(v: Seq<(u32, String)>) -> Seq<(u32, Seq<char>)> {
    v.map_values(|b: (u32, String)| (b.0, b.1@))
}

/// Whether a device is already bound.
fn is_listed(done: &Vec<(u32, String)>, index: u32) -> (r: bool)
    ensures
        r == has_binding(binding_views(done@), index),
{
    let ghost views = binding_views(done@);
    let mut i: usize = 0;
    while i < done.len()
        invariant
            i <= done.len(),
            views == binding_views(done@),
            forall|k: int| 0 <= k < i ==> (#[trigger] views[k]).0 != index,
        decreases done.len() - i,
    {
        assert(views[i as int].0 == done@[i as int].0);
        if done[i].0 == index {
            return true;
        }
        i += 1;
    }
    false
}

/// Resolves device bindings against the block device table: the index and the
/// path of each. `is_primary` tells of each binding whether its path is the
/// primary file.
pub fn resolve_device_bindings(
    devices: &[BlockDevice],
    specs: &Vec<String>,
    is_primary: &Vec<bool>,
) -> (r: Result<Vec<(u32, String)>, Error>)
    requires
        devices@.len() <= u32::MAX,
        is_primary@.len() == specs@.len(),
    ensures
        ({
            let wanted = bindings_from(
                device_views(devices@),
                texts(specs@),
                is_primary@,
                0,
                Seq::empty(),
            );
            match r {
                Ok(v) => wanted == Ok::<Seq<(u32, Seq<char>)>, Error>(binding_views(v@)),
                Err(e) => wanted == Err::<Seq<(u32, Seq<char>)>, Error>(e),
            }
        }),
{
    let ghost views = device_views(devices@);
    let ghost all = texts(specs@);
    let mut out: Vec<(u32, String)> = Vec::new();
    let mut i: usize = 0;
    assert(binding_views(out@) =~= Seq::<(u32, Seq<char>)>::empty());
    while i < specs.len()
        invariant
            i <= specs.len(),
            devices@.len() <= u32::MAX,
            is_primary@.len() == specs@.len(),
            views == device_views(devices@),
            all == texts(specs@),
            bindings_from(views, all, is_primary@, 0, Seq::empty()) == bindings_from(
                views,
                all,
                is_primary@,
                i as int,
                binding_views(out@),
            ),
        decreases specs.len() - i,
    {
        assert(all[i as int] == specs@[i as int]@);
        let (index, path) = resolve_binding(devices, specs[i].as_str(), i)?;
        if index == 0 {
            if !is_primary[i] {
                return Err(Error::Invalid(Fault::PrimaryBinding));
            }
        } else {
            if is_listed(&out, index) {
                return Err(Error::Invalid(Fault::BoundTwice { index }));
            }
            let ghost before = binding_views(out@);
            let ghost added = (index, path@);
            out.push((index, path));
            assert(binding_views(out@) =~= before.push(added));
        }
        i += 1;
    }
    Ok(out)
}

/// Resolved bindings leave the primary device out and bind no device twice.
pub proof fn law_bindings_distinct(
    devices: Seq<BlockDeviceView>,
    specs: Seq<Seq<char>>,
    is_primary: Seq<bool>,
    i: int,
    done: Seq<(u32, Seq<char>)>,
)
    requires
        forall|k: int| 0 <= k < done.len() ==> (#[trigger] done[k]).0 != 0,
        forall|j: int, k: int|
            0 <= j < k < done.len() ==> (#[trigger] done[j]).0 != (#[trigger] done[k]).0,
    ensures
        bindings_from(devices, specs, is_primary, i, done) matches Ok(all) ==> {
            &&& forall|k: int| 0 <= k < all.len() ==> (#[trigger] all[k]).0 != 0
            &&& forall|j: int, k: int|
                0 <= j < k < all.len() ==> (#[trigger] all[j]).0 != (#[trigger] all[k]).0
        },
    decreases specs.len() - i,
{
    if 0 <= i < specs.len() {
        match binding(devices, specs[i], i as usize) {
            Err(_) => {},
            Ok((index, path)) => {
                if index == 0 {
                    law_bindings_distinct(devices, specs, is_primary, i + 1, done);
                } else if !has_binding(done, index) {
                    law_bindings_distinct(
                        devices,
                        specs,
                        is_primary,
                        i + 1,
                        done.push((index, path)),
                    );
                }
            },
        }
    }
}

} // verus!
