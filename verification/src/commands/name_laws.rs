//! What a name stands for, said of the names in the tables alone.

use crate::commands::split_util::group_named;
use crate::error::{Error, Fault};
use crate::format::{GroupView, PartitionView};
use crate::reader::data::{
    answering, answers, base_of, law_suffix_stripped, lemma_answering, named, resolved, suffix_of,
};
use vstd::prelude::*;

verus! {

/// Whether a name ends in the tail of a slot.
pub open spec fn has_tail(full: Seq<char>) -> bool {
    full.len() >= 2 && full[full.len() - 2] == '_' && (full.last() == 'a' || full.last() == 'b')
}

/// Whether a partition of this full name stands under a base name: its name is the
/// base name with the tail of a slot that the filter lets through, or the base name
/// itself where that has no tail.
pub open spec fn stands_under(full: Seq<char>, base: Seq<char>, filter: Option<Seq<char>>) -> bool {
    ||| full == base + seq!['_', 'a'] && (filter is None || filter == Some(seq!['a']))
    ||| full == base + seq!['_', 'b'] && (filter is None || filter == Some(seq!['b']))
    ||| full == base && !has_tail(full)
}

/// The suffix of a name is the letter of its tail.
pub proof fn law_suffix_is_tail(name: Seq<char>)
    ensures
        suffix_of(name) is Some <==> has_tail(name),
        suffix_of(name) matches Some(s) ==> s == seq![name.last()],
{
    let n = name.len() as int;
    if n >= 2 {
        let tail = name.subrange(n - 2, n);
        assert(tail[0] == name[n - 2] && tail[1] == name[n - 1]);
        assert(seq!['_', 'a'][0] == '_' && seq!['_', 'a'][1] == 'a');
        assert(seq!['_', 'b'][0] == '_' && seq!['_', 'b'][1] == 'b');
        if has_tail(name) && name.last() == 'a' {
            assert(tail =~= seq!['_', 'a']);
        }
        if has_tail(name) && name.last() == 'b' {
            assert(tail =~= seq!['_', 'b']);
        }
    }
}

/// A partition answers to a base name where its name is that name, or that name
/// and the tail of a slot that the filter lets through.
pub proof fn law_answers(full: Seq<char>, base: Seq<char>, filter: Option<Seq<char>>)
    ensures
        answers(full, base, filter) <==> stands_under(full, base, filter),
{
    law_suffix_stripped(full);
    law_suffix_is_tail(full);
    assert(seq!['a'][0] == 'a' && seq!['b'][0] == 'b');
    if answers(full, base, filter) && suffix_of(full) is Some {
        let s = suffix_of(full)->Some_0;
        assert(base + seq!['_'] + s =~= base + seq!['_', full.last()]);
    }
    if full == base + seq!['_', 'a'] || full == base + seq!['_', 'b'] {
        assert(full[full.len() - 2] == '_');
        assert(base_of(full) =~= base);
        assert(suffix_of(full)->Some_0[0] == full.last());
    }
}

/// An index that is among those that answer.
proof fn lemma_answering_has(
    parts: Seq<PartitionView>,
    name: Seq<char>,
    filter: Option<Seq<char>>,
    i: int,
    m: int,
) -> (k: int)
    requires
        0 <= i <= m < parts.len(),
        answers(parts[m].name, name, filter),
    ensures
        0 <= k < answering(parts, name, filter, i).len(),
        answering(parts, name, filter, i)[k] == m,
    decreases parts.len() - i,
{
    if i == m {
        0
    } else {
        let k = lemma_answering_has(parts, name, filter, i + 1, m);
        if answers(parts[i].name, name, filter) {
            k + 1
        } else {
            k
        }
    }
}

/// Those that answer come in table order.
proof fn lemma_answering_rises(
    parts: Seq<PartitionView>,
    name: Seq<char>,
    filter: Option<Seq<char>>,
    i: int,
    j: int,
    k: int,
)
    requires
        0 <= i,
        0 <= j < k < answering(parts, name, filter, i).len(),
    ensures
        answering(parts, name, filter, i)[j] < answering(parts, name, filter, i)[k],
    decreases parts.len() - i,
{
    if i < parts.len() {
        let rest = answering(parts, name, filter, i + 1);
        if answers(parts[i].name, name, filter) {
            if j == 0 {
                lemma_answering(parts, name, filter, i + 1);
                assert(answering(parts, name, filter, i)[k] == rest[k - 1]);
            } else {
                lemma_answering_rises(parts, name, filter, i + 1, j - 1, k - 1);
            }
        } else {
            lemma_answering_rises(parts, name, filter, i + 1, j, k);
        }
    }
}

/// A search by name finds the first partition from the `i`-th on that has it.
pub proof fn law_named(parts: Seq<PartitionView>, name: Seq<char>, i: int)
    requires
        0 <= i,
    ensures
        match named(parts, name, i) {
            Some(k) => i <= k < parts.len() && parts[k].name == name && forall|j: int|
                i <= j < k ==> (#[trigger] parts[j]).name != name,
            None => forall|j: int| i <= j < parts.len() ==> (#[trigger] parts[j]).name != name,
        },
    decreases parts.len() - i,
{
    if i < parts.len() && parts[i].name != name {
        law_named(parts, name, i + 1);
    }
}

/// A search for a group finds the first one from the `i`-th on of that name.
pub proof fn law_group_named(groups: Seq<GroupView>, name: Seq<char>, i: int)
    requires
        0 <= i,
    ensures
        match group_named(groups, name, i) {
            Some(k) => i <= k < groups.len() && groups[k].name == name && forall|j: int|
                i <= j < k ==> (#[trigger] groups[j]).name != name,
            None => forall|j: int| i <= j < groups.len() ==> (#[trigger] groups[j]).name != name,
        },
    decreases groups.len() - i,
{
    if i < groups.len() && groups[i].name != name {
        law_group_named(groups, name, i + 1);
    }
}

/// Whether a name stands for the `i`-th partition: that is the first of this very
/// name; or there is none of that name, and it is the only one that stands under it.
pub open spec fn names_it(
    parts: Seq<PartitionView>,
    name: Seq<char>,
    filter: Option<Seq<char>>,
    i: int,
) -> bool {
    &&& 0 <= i < parts.len()
    &&& if parts[i].name == name {
        forall|j: int| 0 <= j < i ==> (#[trigger] parts[j]).name != name
    } else {
        &&& stands_under(parts[i].name, name, filter)
        &&& forall|j: int|
            0 <= j < parts.len() && j != i ==> (#[trigger] parts[j]).name != name && !stands_under(
                parts[j].name,
                name,
                filter,
            )
    }
}

/// A name resolves to the partition that it stands for. It is not found where no
/// partition has it or stands under it, and ambiguous where none has it and several
/// stand under it.
pub proof fn law_resolved(parts: Seq<PartitionView>, name: Seq<char>, filter: Option<Seq<char>>)
    ensures
        match resolved(parts, name, filter) {
            Ok(i) => names_it(parts, name, filter, i),
            Err(e) => {
                &&& forall|j: int| 0 <= j < parts.len() ==> (#[trigger] parts[j]).name != name
                &&& if forall|j: int|
                    0 <= j < parts.len() ==> !stands_under(
                        (#[trigger] parts[j]).name,
                        name,
                        filter,
                    ) {
                    e == Error::NotFound(Fault::Partition)
                } else {
                    &&& e == Error::Invalid(Fault::Ambiguous)
                    &&& exists|j: int, k: int|
                        0 <= j < k < parts.len() && stands_under(
                            (#[trigger] parts[j]).name,
                            name,
                            filter,
                        ) && stands_under((#[trigger] parts[k]).name, name, filter)
                }
            },
        },
        forall|i: int|
            #[trigger] names_it(parts, name, filter, i) ==> resolved(parts, name, filter) == Ok::<
                int,
                Error,
            >(i),
{
    law_named(parts, name, 0);
    lemma_answering(parts, name, filter, 0);
    let found = answering(parts, name, filter, 0);
    assert forall|j: int| 0 <= j < parts.len() implies answers(
        (#[trigger] parts[j]).name,
        name,
        filter,
    ) == stands_under(parts[j].name, name, filter) by {
        law_answers(parts[j].name, name, filter);
    }
    if named(parts, name, 0) is None {
        if found.len() == 0 {
            assert forall|j: int| 0 <= j < parts.len() implies !stands_under(
                (#[trigger] parts[j]).name,
                name,
                filter,
            ) by {
                if answers(parts[j].name, name, filter) {
                    let k = lemma_answering_has(parts, name, filter, 0, j);
                }
            }
        } else if found.len() == 1 {
            let i = found[0];
            assert forall|j: int| 0 <= j < parts.len() && j != i implies !stands_under(
                (#[trigger] parts[j]).name,
                name,
                filter,
            ) by {
                if answers(parts[j].name, name, filter) {
                    let k = lemma_answering_has(parts, name, filter, 0, j);
                }
            }
        } else {
            lemma_answering_rises(parts, name, filter, 0, 0, 1);
            let j = found[0];
            let k = found[1];
            assert(answers(parts[j].name, name, filter) && answers(parts[k].name, name, filter));
        }
    }
    assert forall|i: int| #[trigger] names_it(parts, name, filter, i) implies resolved(
        parts,
        name,
        filter,
    ) == Ok::<int, Error>(i) by {
        if parts[i].name == name {
            let k = named(parts, name, 0)->Some_0;
            assert(!(k < i) && !(i < k));
        } else {
            let k = lemma_answering_has(parts, name, filter, 0, i);
            if found.len() > 1 {
                lemma_answering_rises(parts, name, filter, 0, 0, 1);
                let a = found[0];
                let b = found[1];
                assert(answers(parts[a].name, name, filter) && answers(
                    parts[b].name,
                    name,
                    filter,
                ));
            }
        }
    }
}

} // verus!
