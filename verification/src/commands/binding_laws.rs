//! Which device a binding names, and which devices are bound.

use crate::commands::place::{bound_devices, is_split};
use crate::commands::split_util::bound_path;
use crate::format::{BlockDeviceView, TablesView};
use crate::reader::multiblock::{
    binding, binding_parts, bindings_from, device_named, has_binding, hits, stem_hits,
    stem_hits_loosely, stem_match,
};
use crate::text::{has_prefix, has_suffix, path_stem, position_of, trimmed};
use crate::text_laws::law_position;
use vstd::prelude::*;
use vstd::string::*;

verus! {

/// Whether the stem of a file names a device: it is the device's name, that behind
/// `super_` or `super-`, or it ends in the name behind an underscore.
pub open spec fn stem_names(device: Seq<char>, stem: Seq<char>) -> bool {
    ||| stem == device
    ||| stem == seq!['s', 'u', 'p', 'e', 'r', '_'] + device
    ||| stem == seq!['s', 'u', 'p', 'e', 'r', '-'] + device
    ||| exists|front: Seq<char>| stem == #[trigger] (front + (seq!['_'] + device))
}

/// The first device of a name is found.
pub proof fn law_device_named(devices: Seq<BlockDeviceView>, name: Seq<char>, i: int)
    requires
        0 <= i,
        devices.len() <= u32::MAX,
    ensures
        match device_named(devices, name, i) {
            Some(k) => i <= k < devices.len() && devices[k as int].partition_name == name
                && forall|j: int|
                i <= j < k ==> (#[trigger] devices[j]).partition_name != name,
            None => forall|j: int|
                i <= j < devices.len() ==> (#[trigger] devices[j]).partition_name != name,
        },
    decreases devices.len() - i,
{
    if i < devices.len() && devices[i].partition_name != name {
        law_device_named(devices, name, i + 1);
    }
}

/// A device is named by a stem that is its name, with or without the usual front.
pub proof fn law_stem_hits(device: Seq<char>, stem: Seq<char>)
    ensures
        stem_hits(device, stem) <==> stem_names(device, stem),
{
    reveal_strlit("super_");
    reveal_strlit("super-");
    let a = seq!['s', 'u', 'p', 'e', 'r', '_'];
    let b = seq!['s', 'u', 'p', 'e', 'r', '-'];
    assert("super_"@ =~= a);
    assert("super-"@ =~= b);
    if has_prefix(stem, a) {
        assert(stem =~= a + stem.skip(6));
    }
    if has_prefix(stem, b) {
        assert(stem =~= b + stem.skip(6));
    }
    if stem == a + device {
        assert(stem.subrange(0, 6) =~= a);
        assert(stem.skip(6) =~= device);
    }
    if stem == b + device {
        assert(stem.subrange(0, 6) =~= b);
        assert(stem.skip(6) =~= device);
    }
    let tail = seq!['_'] + device;
    if has_suffix(stem, tail) {
        let front = stem.take(stem.len() - tail.len());
        assert(stem =~= front + tail);
    }
    if exists|front: Seq<char>| stem == #[trigger] (front + tail) {
        let front = choose|front: Seq<char>| stem == #[trigger] (front + tail);
        assert(stem.subrange(stem.len() - tail.len(), stem.len() as int) =~= tail);
    }
}

/// Whether a stem names a device, letter for letter or with case ignored.
pub open spec fn hit_by(d: BlockDeviceView, stem: Seq<char>, loosely: bool) -> bool {
    if loosely {
        stem_hits_loosely(d.partition_name, stem)
    } else {
        stem_names(d.partition_name, stem)
    }
}

proof fn lemma_hits(devices: Seq<BlockDeviceView>, stem: Seq<char>, loosely: bool, i: int)
    requires
        0 <= i <= devices.len() <= u32::MAX,
    ensures
        forall|k: u32|
            #[trigger] hits(devices, stem, loosely, i).contains(k) <==> i <= k < devices.len()
                && hit_by(devices[k as int], stem, loosely),
        forall|x: int, y: int|
            0 <= x < y < hits(devices, stem, loosely, i).len() ==> #[trigger] hits(
                devices,
                stem,
                loosely,
                i,
            )[x] < #[trigger] hits(devices, stem, loosely, i)[y],
    decreases devices.len() - i,
{
    if i < devices.len() {
        lemma_hits(devices, stem, loosely, i + 1);
        law_stem_hits(devices[i].partition_name, stem);
        let all = hits(devices, stem, loosely, i);
        let rest = hits(devices, stem, loosely, i + 1);
        if hit_by(devices[i], stem, loosely) {
            assert(all == seq![i as u32] + rest);
            assert forall|k: u32| #[trigger] all.contains(k) <==> i <= k < devices.len() && hit_by(
                devices[k as int],
                stem,
                loosely,
            ) by {
                if k == i {
                    assert(all[0] == k);
                }
                if all.contains(k) && k != i {
                    let m = all.index_of(k);
                    assert(rest[m - 1] == k);
                    assert(rest.contains(k));
                }
                if rest.contains(k) {
                    let m = rest.index_of(k);
                    assert(all[m + 1] == k);
                }
            }
            assert forall|x: int, y: int| 0 <= x < y < all.len() implies #[trigger] all[x]
                < #[trigger] all[y] by {
                assert(all[y] == rest[y - 1]);
                assert(rest.contains(rest[y - 1]));
                if x > 0 {
                    assert(all[x] == rest[x - 1]);
                }
            }
        }
    }
}

/// Whether a device is the only one that a stem names.
pub open spec fn only_hit(
    devices: Seq<BlockDeviceView>,
    stem: Seq<char>,
    loosely: bool,
    i: u32,
) -> bool {
    &&& i < devices.len()
    &&& hit_by(devices[i as int], stem, loosely)
    &&& forall|k: int|
        0 <= k < devices.len() && k != i ==> !hit_by(#[trigger] devices[k], stem, loosely)
}

/// Whether a stem names some device letter for letter.
pub open spec fn names_some(devices: Seq<BlockDeviceView>, stem: Seq<char>) -> bool {
    exists|k: int| 0 <= k < devices.len() && hit_by(#[trigger] devices[k], stem, false)
}

/// Whether a stem stands for a device: the only one that it names letter for letter, or
/// with case ignored where it names none so.
pub open spec fn stem_means(devices: Seq<BlockDeviceView>, stem: Seq<char>, i: u32) -> bool {
    only_hit(devices, stem, !names_some(devices, stem), i)
}

/// A stem stands for the only device that it names; only where it names none letter for
/// letter is case ignored.
pub proof fn law_stem_match(devices: Seq<BlockDeviceView>, stem: Seq<char>)
    requires
        devices.len() <= u32::MAX,
    ensures
        match stem_match(devices, stem) {
            Some(i) => stem_means(devices, stem, i),
            None => forall|i: u32| !#[trigger] stem_means(devices, stem, i),
        },
{
    lemma_hits(devices, stem, false, 0);
    lemma_hits(devices, stem, true, 0);
    let exact = names_some(devices, stem);
    let found = hits(devices, stem, false, 0);
    if exact {
        let k = choose|k: int|
            0 <= k < devices.len() && hit_by(#[trigger] devices[k], stem, false);
        assert(found.contains(k as u32));
    } else if found.len() > 0 {
        assert(found.contains(found[0]));
        assert(hit_by(devices[found[0] as int], stem, false));
    }
    let all = hits(devices, stem, !exact, 0);
    if all.len() == 1 {
        let i = all[0];
        assert(all.contains(i));
        assert forall|k: int| 0 <= k < devices.len() && k != i implies !hit_by(
            #[trigger] devices[k],
            stem,
            !exact,
        ) by {
            if hit_by(devices[k], stem, !exact) {
                assert(all.contains(k as u32));
                let m = all.index_of(k as u32);
            }
        }
    } else {
        assert forall|i: u32| !#[trigger] stem_means(devices, stem, i) by {
            if stem_means(devices, stem, i) {
                assert(all.contains(i));
                let m = all.index_of(i);
                let n = if m == 0 {
                    1
                } else {
                    0
                };
                assert(all.contains(all[n]));
                assert(hit_by(devices[all[n] as int], stem, !exact));
                if m < n {
                    assert(all[m] < all[n]);
                } else {
                    assert(all[n] < all[m]);
                }
            }
        }
    }
}

/// Whether a binding puts a path to a device: `name=path` by the first device of that
/// name, a path alone by the only device that its stem names.
pub open spec fn binds(
    devices: Seq<BlockDeviceView>,
    spec: Seq<char>,
    i: u32,
    path: Seq<char>,
) -> bool {
    &&& path.len() > 0
    &&& i < devices.len()
    &&& if spec.contains('=') {
        exists|a: Seq<char>, b: Seq<char>|
            {
                &&& spec == #[trigger] (a + (seq!['='] + b))
                &&& !a.contains('=')
                &&& path == trimmed(b)
                &&& trimmed(a).len() > 0
                &&& devices[i as int].partition_name == trimmed(a)
                &&& forall|j: int|
                    0 <= j < i ==> (#[trigger] devices[j]).partition_name != trimmed(a)
            }
    } else {
        &&& path == trimmed(spec)
        &&& path_stem(path) matches Some(stem) && stem_means(devices, stem, i)
    }
}

/// A binding names the device that it says, with the path that it says.
pub proof fn law_binding(devices: Seq<BlockDeviceView>, spec: Seq<char>, k: usize)
    requires
        devices.len() <= u32::MAX,
    ensures
        binding(devices, spec, k) matches Ok((i, path)) ==> binds(devices, spec, i, path),
        binding(devices, spec, k) is Err ==> forall|i: u32, path: Seq<char>|
            !#[trigger] binds(devices, spec, i, path),
{
    law_position(spec, '=', 0);
    let at = position_of(spec, '=');
    let (name, path) = binding_parts(spec);
    if at < spec.len() {
        assert(spec[at] == '=');
        assert(spec.contains('='));
        let a = spec.take(at);
        let b = spec.skip(at + 1);
        assert(spec =~= a + (seq!['='] + b));
        assert(!a.contains('=')) by {
            if a.contains('=') {
                let m = a.index_of('=');
                assert(spec[m] == '=');
            }
        }
        law_device_named(devices, trimmed(a), 0);
        if binding(devices, spec, k) is Err {
            assert forall|i: u32, path: Seq<char>| !#[trigger] binds(devices, spec, i, path) by {
                if binds(devices, spec, i, path) {
                    let (x, y) = choose|x: Seq<char>, y: Seq<char>|
                        {
                            &&& spec == #[trigger] (x + (seq!['='] + y))
                            &&& !x.contains('=')
                            &&& path == trimmed(y)
                            &&& trimmed(x).len() > 0
                            &&& devices[i as int].partition_name == trimmed(x)
                            &&& forall|j: int|
                                0 <= j < i ==> (#[trigger] devices[j]).partition_name != trimmed(x)
                        };
                    assert(spec[x.len() as int] == '=');
                    if x.len() > at {
                        assert(x[at] == spec[at]);
                        assert(x.contains('='));
                    }
                    assert(x.len() == at);
                    assert(x =~= a);
                    assert(y =~= b);
                }
            }
        }
    } else {
        assert(!spec.contains('=')) by {
            if spec.contains('=') {
                let m = spec.index_of('=');
                assert(spec[m] == '=');
            }
        }
        if let Some(stem) = path_stem(path) {
            law_stem_match(devices, stem);
        }
    }
}

/// Whether a binding is among all of them, or binds the first device to the image
/// itself.
pub open spec fn counted(
    devices: Seq<BlockDeviceView>,
    spec: Seq<char>,
    is_primary: bool,
    all: Seq<(u32, Seq<char>)>,
) -> bool {
    exists|index: u32, path: Seq<char>| #[trigger]
        binds(devices, spec, index, path) && (index == 0 && is_primary || index != 0
            && all.contains((index, path)))
}

/// The bindings are those of the specifications, one for each device in order; a
/// binding of the first device stands only for the image itself, and adds nothing.
pub proof fn law_bindings(
    devices: Seq<BlockDeviceView>,
    specs: Seq<Seq<char>>,
    is_primary: Seq<bool>,
    i: int,
    done: Seq<(u32, Seq<char>)>,
)
    requires
        0 <= i <= specs.len() == is_primary.len(),
        devices.len() <= u32::MAX,
    ensures
        bindings_from(devices, specs, is_primary, i, done) matches Ok(all) ==> {
            &&& all.len() >= done.len()
            &&& all.take(done.len() as int) == done
            &&& forall|m: int|
                done.len() <= m < all.len() ==> (#[trigger] all[m]).0 != 0 && exists|k: int|
                    i <= k < specs.len() && binds(
                        devices,
                        #[trigger] specs[k],
                        all[m].0,
                        all[m].1,
                    )
            &&& forall|k: int|
                #![trigger specs[k]]
                i <= k < specs.len() ==> counted(devices, specs[k], is_primary[k], all)
        },
    decreases specs.len() - i,
{
    if i < specs.len() {
        law_binding(devices, specs[i], i as usize);
        if let Ok((index, path)) = binding(devices, specs[i], i as usize) {
            let next = if index == 0 {
                done
            } else {
                done.push((index, path))
            };
            if let Ok(all) = bindings_from(devices, specs, is_primary, i, done) {
                law_bindings(devices, specs, is_primary, i + 1, next);
                assert(all.take(done.len() as int) =~= all.take(next.len() as int).take(
                    done.len() as int,
                ));
                assert(next.take(done.len() as int) =~= done);
                if index != 0 {
                    assert(all.take(next.len() as int)[done.len() as int] == (index, path));
                    assert(all[done.len() as int] == (index, path));
                    assert(all.contains((index, path)));
                }
                assert(binds(devices, specs[i], index, path));
                assert forall|m: int| done.len() <= m < all.len() implies (
                #[trigger] all[m]).0 != 0 && exists|k: int|
                    i <= k < specs.len() && binds(
                        devices,
                        #[trigger] specs[k],
                        all[m].0,
                        all[m].1,
                    ) by {
                    if m < next.len() {
                        assert(all[m] == (index, path));
                        assert(binds(devices, specs[i], all[m].0, all[m].1));
                    } else {
                        let k = choose|k: int|
                            i + 1 <= k < specs.len() && binds(
                                devices,
                                #[trigger] specs[k],
                                all[m].0,
                                all[m].1,
                            );
                        assert(binds(devices, specs[k], all[m].0, all[m].1));
                    }
                }
                assert forall|k: int|
                    #![trigger specs[k]]
                    i <= k < specs.len() implies counted(
                    devices,
                    specs[k],
                    is_primary[k],
                    all,
                ) by {
                    if k == i {
                        assert(binds(devices, specs[k], index, path));
                    } else {
                        let s = specs[k];
                    }
                }
            }
        }
    } else {
        assert(done.take(done.len() as int) =~= done);
    }
}

/// A device may take new extents where it is the first, or where a binding names it;
/// an image of one device without bindings has only the first.
pub proof fn law_bound_devices(t: TablesView, specs: Seq<Seq<char>>, is_primary: Seq<bool>, b: u32)
    requires
        specs.len() == is_primary.len(),
        t.block_devices.len() <= u32::MAX,
    ensures
        bound_devices(t, specs, is_primary) matches Ok(bound) ==> (bound.contains(b) <==> b == 0
            || exists|k: int, path: Seq<char>|
            0 <= k < specs.len() && #[trigger] binds(t.block_devices, specs[k], b, path)),
{
    let none = Seq::<(u32, Seq<char>)>::empty();
    if let Ok(bound) = bound_devices(t, specs, is_primary) {
        assert(bound[0] == 0);
        if is_split(t, specs) {
            let all = bindings_from(t.block_devices, specs, is_primary, 0, none)->Ok_0;
            law_bindings(t.block_devices, specs, is_primary, 0, none);
            if bound.contains(b) && b != 0 {
                let m = bound.index_of(b) - 1;
                assert(all[m].0 == b);
                let k = choose|k: int|
                    0 <= k < specs.len() && binds(
                        t.block_devices,
                        #[trigger] specs[k],
                        all[m].0,
                        all[m].1,
                    );
                assert(binds(t.block_devices, specs[k], b, all[m].1));
            }
            if exists|k: int, path: Seq<char>|
                0 <= k < specs.len() && #[trigger] binds(t.block_devices, specs[k], b, path) {
                let (k, path) = choose|k: int, path: Seq<char>|
                    0 <= k < specs.len() && #[trigger] binds(t.block_devices, specs[k], b, path);
                assert(counted(t.block_devices, specs[k], is_primary[k], all));
                let (index, other) = choose|index: u32, other: Seq<char>|
                    #[trigger] binds(t.block_devices, specs[k], index, other) && (index == 0
                        && is_primary[k] || index != 0 && all.contains((index, other)));
                lemma_binds_one(t.block_devices, specs[k], b, path, index, other);
                if b != 0 {
                    let m = all.index_of((index, other));
                    assert(bound[m + 1] == all[m].0);
                }
            }
        }
    }
}

/// A binding names one device.
proof fn lemma_binds_one(
    devices: Seq<BlockDeviceView>,
    spec: Seq<char>,
    i: u32,
    p: Seq<char>,
    j: u32,
    q: Seq<char>,
)
    requires
        devices.len() <= u32::MAX,
        binds(devices, spec, i, p),
        binds(devices, spec, j, q),
    ensures
        i == j,
        p == q,
{
    if spec.contains('=') {
        let (a, b) = choose|a: Seq<char>, b: Seq<char>|
            {
                &&& spec == #[trigger] (a + (seq!['='] + b))
                &&& !a.contains('=')
                &&& p == trimmed(b)
                &&& trimmed(a).len() > 0
                &&& devices[i as int].partition_name == trimmed(a)
                &&& forall|m: int|
                    0 <= m < i ==> (#[trigger] devices[m]).partition_name != trimmed(a)
            };
        let (x, y) = choose|x: Seq<char>, y: Seq<char>|
            {
                &&& spec == #[trigger] (x + (seq!['='] + y))
                &&& !x.contains('=')
                &&& q == trimmed(y)
                &&& trimmed(x).len() > 0
                &&& devices[j as int].partition_name == trimmed(x)
                &&& forall|m: int|
                    0 <= m < j ==> (#[trigger] devices[m]).partition_name != trimmed(x)
            };
        assert(spec[a.len() as int] == '=' && spec[x.len() as int] == '=');
        if x.len() > a.len() {
            assert(x[a.len() as int] == spec[a.len() as int]);
            assert(x.contains('='));
        }
        if a.len() > x.len() {
            assert(a[x.len() as int] == spec[x.len() as int]);
            assert(a.contains('='));
        }
        assert(a =~= spec.take(a.len() as int) && x =~= spec.take(x.len() as int));
        assert(b =~= spec.skip(1 + a.len() as int) && y =~= spec.skip(1 + x.len() as int));
        if i < j {
            assert(devices[i as int].partition_name != trimmed(x));
        }
        if j < i {
            assert(devices[j as int].partition_name != trimmed(a));
        }
    } else {
        let stem = path_stem(p)->Some_0;
        if i != j {
            assert(hit_by(devices[j as int], stem, !names_some(devices, stem)));
        }
    }
}

/// The path of a device is the one that it is bound to.
pub proof fn law_bound_path(bindings: Seq<(u32, Seq<char>)>, index: u32, k: int)
    requires
        0 <= k <= bindings.len(),
    ensures
        match bound_path(bindings, index, k) {
            Some(p) => exists|m: int|
                k <= m < bindings.len() && #[trigger] bindings[m] == (index, p),
            None => forall|m: int| k <= m < bindings.len() ==> (#[trigger] bindings[m]).0 != index,
        },
    decreases bindings.len() - k,
{
    if k < bindings.len() {
        if bindings[k].0 == index {
            assert(bindings[k] == (index, bindings[k].1));
        } else {
            law_bound_path(bindings, index, k + 1);
        }
    }
}

/// Whether a binding names no device.
pub open spec fn binds_nothing(devices: Seq<BlockDeviceView>, spec: Seq<char>) -> bool {
    forall|x: u32, p: Seq<char>| !#[trigger] binds(devices, spec, x, p)
}

/// Whether two bindings name one device.
pub open spec fn bind_one(devices: Seq<BlockDeviceView>, a: Seq<char>, b: Seq<char>) -> bool {
    exists|x: u32, p: Seq<char>, q: Seq<char>| #[trigger]
        binds(devices, a, x, p) && #[trigger] binds(devices, b, x, q)
}

/// Bindings are refused only where one of them binds nothing, where one binds the first
/// device to another file than the image, or where two bind one device.
pub proof fn law_bindings_refused(
    devices: Seq<BlockDeviceView>,
    specs: Seq<Seq<char>>,
    is_primary: Seq<bool>,
    i: int,
    done: Seq<(u32, Seq<char>)>,
)
    requires
        0 <= i <= specs.len() == is_primary.len(),
        devices.len() <= u32::MAX,
        bindings_from(devices, specs, is_primary, i, done) is Err,
        forall|m: int|
            0 <= m < done.len() ==> exists|k: int|
                0 <= k < i && binds(devices, #[trigger] specs[k], (#[trigger] done[m]).0, done[m].1),
    ensures
        ({
            ||| exists|k: int| 0 <= k < specs.len() && binds_nothing(devices, #[trigger] specs[k])
            ||| exists|k: int, p: Seq<char>|
                0 <= k < specs.len() && #[trigger] binds(devices, specs[k], 0, p) && !is_primary[k]
            ||| exists|j: int, k: int|
                0 <= j < k < specs.len() && bind_one(
                    devices,
                    #[trigger] specs[j],
                    #[trigger] specs[k],
                )
        }),
    decreases specs.len() - i,
{
    if i < specs.len() {
        law_binding(devices, specs[i], i as usize);
        if let Ok((index, path)) = binding(devices, specs[i], i as usize) {
            assert(binds(devices, specs[i], index, path));
            if index == 0 {
                if is_primary[i] {
                    assert forall|m: int| 0 <= m < done.len() implies exists|k: int|
                        0 <= k < i + 1 && binds(
                            devices,
                            #[trigger] specs[k],
                            (#[trigger] done[m]).0,
                            done[m].1,
                        ) by {
                        let k = choose|k: int|
                            0 <= k < i && binds(
                                devices,
                                #[trigger] specs[k],
                                done[m].0,
                                done[m].1,
                            );
                        assert(binds(devices, specs[k], done[m].0, done[m].1));
                    }
                    law_bindings_refused(devices, specs, is_primary, i + 1, done);
                }
            } else if has_binding(done, index) {
                let m = choose|m: int| 0 <= m < done.len() && (#[trigger] done[m]).0 == index;
                let k = choose|k: int|
                    0 <= k < i && binds(devices, #[trigger] specs[k], done[m].0, done[m].1);
                assert(binds(devices, specs[k], index, done[m].1));
                assert(bind_one(devices, specs[k], specs[i]));
            } else {
                let next = done.push((index, path));
                assert forall|m: int| 0 <= m < next.len() implies exists|k: int|
                    0 <= k < i + 1 && binds(
                        devices,
                        #[trigger] specs[k],
                        (#[trigger] next[m]).0,
                        next[m].1,
                    ) by {
                    if m < done.len() {
                        assert(next[m] == done[m]);
                        let k = choose|k: int|
                            0 <= k < i && binds(
                                devices,
                                #[trigger] specs[k],
                                done[m].0,
                                done[m].1,
                            );
                        assert(binds(devices, specs[k], next[m].0, next[m].1));
                    } else {
                        assert(binds(devices, specs[i], next[m].0, next[m].1));
                    }
                }
                law_bindings_refused(devices, specs, is_primary, i + 1, next);
            }
        } else {
            assert(binds_nothing(devices, specs[i]));
        }
    }
}

} // verus!
