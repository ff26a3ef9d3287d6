//! What the arguments of commands stand for: sizes, attributes, slots, suffixes.

use crate::commands::arguments::{
    attribute_bit, attributes, attributes_from, size_or_zero, size_value, slot_selector,
    suffix_selector, unit_of,
};
use crate::commands::read::requested_range;
use crate::error::{Error, Fault};
use crate::reader::data::slot_of_suffix;
use crate::text::{decimal, is_digit, is_white, parsed_number, split_all, trimmed, unsigned_part};
use crate::text_laws::{law_number_read_back, law_trimmed, law_trimmed_stays, law_written};
use vstd::prelude::*;
use vstd::string::*;

verus! {

/// Whether a letter behind a number makes it count units of so many bytes.
pub open spec fn scales(c: char, sectors: bool, unit: int) -> bool {
    ||| (c == 'K' || c == 'k') && unit == 1024
    ||| (c == 'M' || c == 'm') && unit == 1024 * 1024
    ||| (c == 'G' || c == 'g') && unit == 1024 * 1024 * 1024
    ||| c == 's' && sectors && unit == 512
}

/// A number in decimal has no white space.
proof fn lemma_decimal_shape(n: nat)
    ensures
        decimal(n).len() > 0,
        forall|i: int| 0 <= i < decimal(n).len() ==> is_digit(#[trigger] decimal(n)[i]),
        !is_white(decimal(n)[0]),
        is_digit(decimal(n).last()),
{
    law_written(n, 10);
    let s = decimal(n);
    assert(is_digit(s[0]));
    assert(is_digit(s[s.len() - 1]));
}

/// A number stands for so many bytes, and a number with a unit for as many units; what
/// does not fit in 64 bits is refused.
pub proof fn law_size_spelled(n: u64, c: char, unit: int, sectors: bool)
    requires
        scales(c, sectors, unit),
    ensures
        size_value(decimal(n as nat), sectors) == Ok::<u64, Error>(n),
        size_or_zero(decimal(n as nat)) == Ok::<u64, Error>(n),
        size_value(decimal(n as nat).push(c), sectors) == (if n * unit <= u64::MAX {
            Ok((n * unit) as u64)
        } else {
            Err(Error::Invalid(Fault::SizeOverflow))
        }),
        !sectors ==> size_or_zero(decimal(n as nat).push(c)) == size_value(
            decimal(n as nat).push(c),
            false,
        ),
{
    let s = decimal(n as nat);
    lemma_decimal_shape(n as nat);
    law_number_read_back(n as nat, u64::MAX as nat);
    law_trimmed_stays(s);
    let t = s.push(c);
    assert(t[0] == s[0]);
    law_trimmed_stays(t);
    assert(t.drop_last() =~= s);
}

/// Whether a text is a number with a unit behind it.
pub open spec fn counts(t: Seq<char>, sectors: bool, n: nat, unit: int) -> bool {
    &&& scales(t.last(), sectors, unit)
    &&& parsed_number(t.drop_last(), u64::MAX as nat) == Some(n)
}

/// Whether a text is this many bytes: a number, or a number of units.
pub open spec fn reads_as(t: Seq<char>, sectors: bool, v: u64) -> bool {
    ||| parsed_number(t, u64::MAX as nat) == Some(v as nat)
    ||| exists|n: nat, unit: int| #[trigger] counts(t, sectors, n, unit) && v == n * unit
}

/// Whether a text is no number, and no number of units that fits in 64 bits.
pub open spec fn reads_not(t: Seq<char>, sectors: bool) -> bool {
    &&& parsed_number(t, u64::MAX as nat) is None
    &&& forall|n: nat, unit: int| #[trigger]
        counts(t, sectors, n, unit) ==> n * unit > u64::MAX
}

/// A size that was read is a number of units: the unit of its last letter, or bytes.
pub proof fn law_size_read(s: Seq<char>, sectors: bool)
    ensures
        size_value(s, sectors) matches Ok(v) ==> trimmed(s).len() > 0 && reads_as(
            trimmed(s),
            sectors,
            v,
        ),
        size_value(s, sectors) is Err ==> trimmed(s).len() == 0 || reads_not(trimmed(s), sectors),
        trimmed(s).len() > 0 ==> size_or_zero(s) == size_value(s, false),
        trimmed(s).len() == 0 ==> size_or_zero(s) == Ok::<u64, Error>(0),
{
    let t = trimmed(s);
    if t.len() > 0 {
        if let Some(u) = unit_of(t.last(), sectors) {
            let unit = u as int;
            assert(scales(t.last(), sectors, unit));
            assert(parsed_number(t, u64::MAX as nat) is None) by {
                let d = unsigned_part(t);
                if parsed_number(t, u64::MAX as nat) is Some {
                    assert(is_digit(d[d.len() - 1]));
                    assert(d[d.len() - 1] == t.last());
                }
            }
            if let Some(n) = parsed_number(t.drop_last(), u64::MAX as nat) {
                assert(counts(t, sectors, n, unit));
                assert(0 <= n * unit) by (nonlinear_arith)
                    requires
                        0 <= n,
                        0 <= unit,
                ;
                assert(n * u == n * unit);
                if let Ok(v) = size_value(s, sectors) {
                    assert(v == n * unit);
                    assert(reads_as(t, sectors, v));
                }
            }
        } else if let Some(n) = parsed_number(t, u64::MAX as nat) {
            assert(n * 1u64 == n) by (nonlinear_arith);
        }
    }
}

/// White space around a size does not matter.
pub proof fn law_size_trimmed(s: Seq<char>, sectors: bool)
    ensures
        size_value(trimmed(s), sectors) == size_value(s, sectors),
        size_or_zero(trimmed(s)) == size_or_zero(s),
{
    law_trimmed(s);
    law_trimmed_stays(trimmed(s));
}

/// Whether one of some words, without the white space around it, is this one.
pub open spec fn has_word(words: Seq<Seq<char>>, from: int, word: Seq<char>) -> bool {
    exists|k: int| from <= k < words.len() && trimmed(#[trigger] words[k]) == word
}

/// Whether a word is one that a list of attributes may hold.
pub open spec fn known_word(word: Seq<char>, full: bool) -> bool {
    ||| word.len() == 0
    ||| word == "readonly"@
    ||| word == "slot_suffixed"@
    ||| full && (word == "updated"@ || word == "disabled"@ || word == "none"@)
}

proof fn lemma_words()
    ensures
        "readonly"@.len() == 8,
        "slot_suffixed"@.len() == 13,
        "updated"@.len() == 7,
        "disabled"@.len() == 8,
        "none"@.len() == 4,
        "readonly"@[0] == 'r',
        "disabled"@[0] == 'd',
{
    reveal_strlit("readonly");
    reveal_strlit("slot_suffixed");
    reveal_strlit("updated");
    reveal_strlit("disabled");
    reveal_strlit("none");
}

proof fn lemma_bits(flags: u32, bit: u32, b: u32)
    ensures
        (flags | bit) & b != 0 <==> flags & b != 0 || bit & b != 0,
{
    assert((flags | bit) & b != 0 <==> flags & b != 0 || bit & b != 0) by (bit_vector);
}

proof fn lemma_single_bits()
    ensures
        0u32 & 1 == 0 && 1u32 & 1 != 0 && 2u32 & 1 == 0 && 4u32 & 1 == 0 && 8u32 & 1 == 0,
        0u32 & 2 == 0 && 1u32 & 2 == 0 && 2u32 & 2 != 0 && 4u32 & 2 == 0 && 8u32 & 2 == 0,
        0u32 & 4 == 0 && 1u32 & 4 == 0 && 2u32 & 4 == 0 && 4u32 & 4 != 0 && 8u32 & 4 == 0,
        0u32 & 8 == 0 && 1u32 & 8 == 0 && 2u32 & 8 == 0 && 4u32 & 8 == 0 && 8u32 & 8 != 0,
        forall|b: u32| #[trigger] (0u32 & b) == 0,
        0u32 & 0xffff_fff0 == 0 && 1u32 & 0xffff_fff0 == 0 && 2u32 & 0xffff_fff0 == 0 && 4u32
            & 0xffff_fff0 == 0 && 8u32 & 0xffff_fff0 == 0,
{
    assert(0u32 & 1 == 0 && 1u32 & 1 != 0 && 2u32 & 1 == 0 && 4u32 & 1 == 0 && 8u32 & 1 == 0)
        by (bit_vector);
    assert(0u32 & 2 == 0 && 1u32 & 2 == 0 && 2u32 & 2 != 0 && 4u32 & 2 == 0 && 8u32 & 2 == 0)
        by (bit_vector);
    assert(0u32 & 4 == 0 && 1u32 & 4 == 0 && 2u32 & 4 == 0 && 4u32 & 4 != 0 && 8u32 & 4 == 0)
        by (bit_vector);
    assert(0u32 & 8 == 0 && 1u32 & 8 == 0 && 2u32 & 8 == 0 && 4u32 & 8 == 0 && 8u32 & 8 != 0)
        by (bit_vector);
    assert(forall|b: u32| #[trigger] (0u32 & b) == 0) by (bit_vector);
    assert(0u32 & 0xffff_fff0 == 0 && 1u32 & 0xffff_fff0 == 0 && 2u32 & 0xffff_fff0 == 0 && 4u32
        & 0xffff_fff0 == 0 && 8u32 & 0xffff_fff0 == 0) by (bit_vector);
}

proof fn lemma_attributes(words: Seq<Seq<char>>, full: bool, i: int, flags: u32)
    requires
        0 <= i <= words.len() <= usize::MAX,
    ensures
        match attributes_from(words, full, i, flags) {
            Ok(f) => {
                &&& f & 1 != 0 <==> flags & 1 != 0 || has_word(words, i, "readonly"@)
                &&& f & 2 != 0 <==> flags & 2 != 0 || has_word(words, i, "slot_suffixed"@)
                &&& f & 4 != 0 <==> flags & 4 != 0 || full && has_word(words, i, "updated"@)
                &&& f & 8 != 0 <==> flags & 8 != 0 || full && has_word(words, i, "disabled"@)
                &&& f & 0xffff_fff0 != 0 <==> flags & 0xffff_fff0 != 0
                &&& forall|k: int|
                    i <= k < words.len() ==> known_word(trimmed(#[trigger] words[k]), full)
            },
            Err(e) => e matches Error::Invalid(Fault::Attribute { word }) && i <= word
                < words.len() && !known_word(trimmed(words[word as int]), full) && forall|k: int|
                i <= k < word ==> known_word(trimmed(#[trigger] words[k]), full),
        },
    decreases words.len() - i,
{
    lemma_words();
    if i < words.len() {
        let word = trimmed(words[i]);
        if let Some(bit) = attribute_bit(word, full) {
            lemma_attributes(words, full, i + 1, flags | bit);
            lemma_single_bits();
            lemma_bits(flags, bit, 1);
            lemma_bits(flags, bit, 2);
            lemma_bits(flags, bit, 4);
            lemma_bits(flags, bit, 8);
            lemma_bits(flags, bit, 0xffff_fff0);
            lemma_has_word(words, i, "readonly"@);
            lemma_has_word(words, i, "slot_suffixed"@);
            lemma_has_word(words, i, "updated"@);
            lemma_has_word(words, i, "disabled"@);
            assert(bit == 0 || bit == 1 || bit == 2 || bit == 4 || bit == 8);
            assert(known_word(word, full));
        }
    }
}

proof fn lemma_has_word(words: Seq<Seq<char>>, i: int, word: Seq<char>)
    requires
        0 <= i < words.len(),
    ensures
        has_word(words, i, word) <==> trimmed(words[i]) == word || has_word(words, i + 1, word),
{
    if has_word(words, i, word) && trimmed(words[i]) != word {
        let k = choose|k: int| i <= k < words.len() && trimmed(#[trigger] words[k]) == word;
        assert(i + 1 <= k);
    }
}

/// A list of attributes sets exactly the flags that it names, in any order and however
/// often; it is refused exactly where it has a word that is no attribute, and the first
/// such word is told.
pub proof fn law_attributes(s: Seq<char>, full: bool)
    requires
        s.len() < usize::MAX,
    ensures
        ({
            let words = split_all(s, ',');
            match attributes(s, full) {
                Ok(f) => {
                    &&& f & 1 != 0 <==> has_word(words, 0, "readonly"@)
                    &&& f & 2 != 0 <==> has_word(words, 0, "slot_suffixed"@)
                    &&& f & 4 != 0 <==> full && has_word(words, 0, "updated"@)
                    &&& f & 8 != 0 <==> full && has_word(words, 0, "disabled"@)
                    &&& f & 0xffff_fff0 == 0
                    &&& forall|k: int|
                        0 <= k < words.len() ==> known_word(trimmed(#[trigger] words[k]), full)
                },
                Err(e) => e matches Error::Invalid(Fault::Attribute { word }) && word
                    < words.len() && !known_word(trimmed(words[word as int]), full) && forall|
                    k: int,
                |
                    0 <= k < word ==> known_word(trimmed(#[trigger] words[k]), full),
            }
        }),
{
    lemma_split_count(s, ',');
    lemma_attributes(split_all(s, ','), full, 0, 0);
    lemma_single_bits();
}

/// A text has no more parts than characters, and one more.
proof fn lemma_split_count(s: Seq<char>, sep: char)
    ensures
        split_all(s, sep).len() <= s.len() + 1,
    decreases s.len(),
{
    let at = crate::text::position_of(s, sep);
    if 0 <= at < s.len() {
        lemma_split_count(s.subrange(at + 1, s.len() as int), sep);
    }
}

proof fn lemma_slot_words()
    ensures
        "all"@ == seq!['a', 'l', 'l'],
        "0"@ == seq!['0'] && "1"@ == seq!['1'] && "2"@ == seq!['2'] && "3"@ == seq!['3'],
        "4"@ == seq!['4'] && "5"@ == seq!['5'] && "6"@ == seq!['6'] && "7"@ == seq!['7'],
        "a"@ == seq!['a'] && "A"@ == seq!['A'] && "b"@ == seq!['b'] && "B"@ == seq!['B'],
        "_a"@ == seq!['_', 'a'] && "_A"@ == seq!['_', 'A'],
        "_b"@ == seq!['_', 'b'] && "_B"@ == seq!['_', 'B'],
{
    reveal_strlit("all");
    reveal_strlit("0");
    reveal_strlit("1");
    reveal_strlit("2");
    reveal_strlit("3");
    reveal_strlit("4");
    reveal_strlit("5");
    reveal_strlit("6");
    reveal_strlit("7");
    reveal_strlit("a");
    reveal_strlit("A");
    reveal_strlit("b");
    reveal_strlit("B");
    reveal_strlit("_a");
    reveal_strlit("_A");
    reveal_strlit("_b");
    reveal_strlit("_B");
    assert("all"@ =~= seq!['a', 'l', 'l']);
    assert("0"@ =~= seq!['0'] && "1"@ =~= seq!['1'] && "2"@ =~= seq!['2'] && "3"@ =~= seq!['3']);
    assert("4"@ =~= seq!['4'] && "5"@ =~= seq!['5'] && "6"@ =~= seq!['6'] && "7"@ =~= seq!['7']);
    assert("a"@ =~= seq!['a'] && "A"@ =~= seq!['A'] && "b"@ =~= seq!['b'] && "B"@ =~= seq!['B']);
    assert("_a"@ =~= seq!['_', 'a'] && "_A"@ =~= seq!['_', 'A']);
    assert("_b"@ =~= seq!['_', 'b'] && "_B"@ =~= seq!['_', 'B']);
}

/// A slot selector of one character is the digit of the slot or the letter of its
/// suffix; a letter may stand behind an underscore. Only `all` selects every slot, and
/// no slot behind the last possible one can be selected.
pub proof fn law_slot_selector(s: Seq<char>)
    ensures
        match slot_selector(s) {
            Ok(None) => s == seq!['a', 'l', 'l'],
            Ok(Some(n)) => {
                &&& n < 8
                &&& {
                    ||| s.len() == 1 && '0' <= s[0] <= '7' && s[0] as u32 - '0' as u32 == n
                    ||| s.len() == 1 && slot_of_suffix(s) == Some(n)
                    ||| s.len() == 2 && s[0] == '_' && slot_of_suffix(s.skip(1)) == Some(n)
                }
            },
            Err(e) => {
                &&& e == Error::Invalid(Fault::SlotText)
                &&& s != seq!['a', 'l', 'l']
                &&& !(s.len() == 1 && '0' <= s[0] <= '7')
                &&& slot_of_suffix(s) is None
                &&& !(s.len() == 2 && s[0] == '_' && slot_of_suffix(s.skip(1)) is Some)
            },
        },
{
    lemma_slot_words();
    assert(seq!['a'][0] == 'a' && seq!['A'][0] == 'A' && seq!['b'][0] == 'b' && seq!['B'][0] == 'B');
    if s.len() == 1 {
        assert(s =~= seq![s[0]]);
        assert('0' <= s[0] <= '7' ==> s[0] == '0' || s[0] == '1' || s[0] == '2' || s[0] == '3'
            || s[0] == '4' || s[0] == '5' || s[0] == '6' || s[0] == '7');
        assert(seq!['0'][0] == '0' && seq!['1'][0] == '1' && seq!['2'][0] == '2' && seq!['3'][0]
            == '3' && seq!['4'][0] == '4' && seq!['5'][0] == '5' && seq!['6'][0] == '6'
            && seq!['7'][0] == '7');
    }
    if s.len() == 2 {
        assert(s =~= seq![s[0], s[1]]);
        assert(s.skip(1) =~= seq![s[1]]);
        assert(seq!['_', 'a'].skip(1) =~= seq!['a']);
        assert(seq!['_', 'A'].skip(1) =~= seq!['A']);
        assert(seq!['_', 'b'].skip(1) =~= seq!['b']);
        assert(seq!['_', 'B'].skip(1) =~= seq!['B']);
        assert(seq!['_', 'a'][0] == '_' && seq!['_', 'A'][0] == '_');
        assert(seq!['_', 'b'][0] == '_' && seq!['_', 'B'][0] == '_');
    }
}

/// A suffix filter is the letter of a slot, in either case, or all suffixes; it comes
/// out as the letter in lower case.
pub proof fn law_suffix_selector(s: Seq<char>)
    ensures
        match suffix_selector(s) {
            Ok(None) => s == seq!['a', 'l', 'l'],
            Ok(Some(x)) => (x == seq!['a'] || x == seq!['b']) && slot_of_suffix(s) is Some
                && slot_of_suffix(x) == slot_of_suffix(s),
            Err(e) => e == Error::Invalid(Fault::SuffixText) && slot_of_suffix(s) is None && s
                != seq!['a', 'l', 'l'],
        },
{
    lemma_slot_words();
    assert(seq!['a'][0] == 'a' && seq!['A'][0] == 'A' && seq!['b'][0] == 'b' && seq!['B'][0] == 'B');
    assert(seq!['a', 'l', 'l'].len() == 3);
}

/// The range of a read: from where it was asked for, or from the start; as long as it
/// was asked for, or to the end; and no further than the end. Nothing is read from the
/// end on.
pub proof fn law_requested_range(total: u64, skip: Option<Seq<char>>, size: Option<Seq<char>>)
    ensures
        match requested_range(total, skip, size) {
            Ok(range) => {
                let from = match skip {
                    Some(s) => size_or_zero(s)->Ok_0,
                    None => 0,
                };
                &&& skip matches Some(s) ==> size_or_zero(s) is Ok
                &&& size matches Some(s) ==> size_or_zero(s) is Ok
                &&& range is None <==> from >= total
                &&& range matches Some((at, len)) ==> {
                    &&& at == from
                    &&& at + len <= total
                    &&& size is None ==> at + len == total
                    &&& size matches Some(s) ==> len <= size_or_zero(s)->Ok_0 && (len
                        == size_or_zero(s)->Ok_0 || at + len == total)
                }
            },
            Err(_) => (skip matches Some(s) && size_or_zero(s) is Err) || (size matches Some(s)
                && size_or_zero(s) is Err),
        },
{
}

} // verus!
