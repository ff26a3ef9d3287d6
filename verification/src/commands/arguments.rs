//! The values that commands take as text: sizes, attributes, slots, suffixes.

use crate::error::{Error, Fault};
use crate::format::{
    LP_PARTITION_ATTR_DISABLED, LP_PARTITION_ATTR_READONLY, LP_PARTITION_ATTR_SLOT_SUFFIXED,
    LP_PARTITION_ATTR_UPDATED,
};
use crate::reader::data::option_view;
use crate::text::{parse_u64, parsed_number, split, split_all, str_eq, texts, trim, trimmed};
use vstd::prelude::*;
use vstd::string::*;

verus! {

/// The unit that the last character of a size stands for.
pub open spec fn unit_of(c: char, sectors: bool) -> Option<u64> {
    if c == 'G' || c == 'g' {
        Some(0x4000_0000)
    } else if c == 'M' || c == 'm' {
        Some(0x10_0000)
    } else if c == 'K' || c == 'k' {
        Some(0x400)
    } else if c == 's' && sectors {
        Some(512)
    } else {
        None
    }
}

/// The number of bytes that a trimmed size stands for.
pub open spec fn size_in_units(t: Seq<char>, sectors: bool) -> Result<u64, Error> {
    let (digits, unit) = match unit_of(t.last(), sectors) {
        Some(u) => (t.drop_last(), u),
        None => (t, 1u64),
    };
    match parsed_number(digits, u64::MAX as nat) {
        None => Err(Error::Invalid(Fault::SizeText)),
        Some(n) => if n * unit > u64::MAX {
            Err(Error::Invalid(Fault::SizeOverflow))
        } else {
            Ok((n * unit) as u64)
        },
    }
}

/// The number of bytes that a size stands for: a number with a unit, of which
/// sectors are one where they are allowed. An empty size is refused.
pub open spec fn size_value(s: Seq<char>, sectors: bool) -> Result<u64, Error> {
    let t = trimmed(s);
    if t.len() == 0 {
        Err(Error::Invalid(Fault::SizeEmpty))
    } else {
        size_in_units(t, sectors)
    }
}

/// The same, but an empty size is zero.
pub open spec fn size_or_zero(s: Seq<char>) -> Result<u64, Error> {
    let t = trimmed(s);
    if t.len() == 0 {
        Ok(0)
    } else {
        size_in_units(t, false)
    }
}

fn unit(c: char, sectors: bool) -> (r: Option<u64>)
    ensures
        r == unit_of(c, sectors),
{
    if c == 'G' || c == 'g' {
        Some(0x4000_0000)
    } else if c == 'M' || c == 'm' {
        Some(0x10_0000)
    } else if c == 'K' || c == 'k' {
        Some(0x400)
    } else if c == 's' && sectors {
        Some(512)
    } else {
        None
    }
}

fn parse_units(t: &str, sectors: bool) -> (r: Result<u64, Error>)
    requires
        t@.len() > 0,
    ensures
        r == size_in_units(t@, sectors),
{
    let n = t.unicode_len();
    let last = t.get_char(n - 1);
    let (digits, factor) = match unit(last, sectors) {
        Some(u) => (t.substring_char(0, n - 1), u),
        None => (t, 1u64),
    };
    proof {
        assert(t@.subrange(0, t@.len() - 1) =~= t@.drop_last());
    }
    match parse_u64(digits) {
        None => Err(Error::Invalid(Fault::SizeText)),
        Some(v) => match v.checked_mul(factor) {
            Some(bytes) => Ok(bytes),
            None => Err(Error::Invalid(Fault::SizeOverflow)),
        },
    }
}

/// Reads a size; `sectors` allows the unit `s`.
pub fn parse_size(s: &str, sectors: bool) -> (r: Result<u64, Error>)
    ensures
        r == size_value(s@, sectors),
{
    let t = trim(s);
    if t.unicode_len() == 0 {
        return Err(Error::Invalid(Fault::SizeEmpty));
    }
    parse_units(t, sectors)
}

/// Reads a size that may be left empty.
pub fn parse_size_or_zero(s: &str) -> (r: Result<u64, Error>)
    ensures
        r == size_or_zero(s@),
{
    let t = trim(s);
    if t.unicode_len() == 0 {
        return Ok(0);
    }
    parse_units(t, false)
}

/// The flag that an attribute stands for. The full set has more names than the
/// one for partitions that are put into an image later.
pub open spec fn attribute_bit(word: Seq<char>, full: bool) -> Option<u32> {
    if word == "readonly"@ {
        Some(LP_PARTITION_ATTR_READONLY)
    } else if word == "slot_suffixed"@ {
        Some(LP_PARTITION_ATTR_SLOT_SUFFIXED)
    } else if full && word == "updated"@ {
        Some(LP_PARTITION_ATTR_UPDATED)
    } else if full && word == "disabled"@ {
        Some(LP_PARTITION_ATTR_DISABLED)
    } else if word.len() == 0 || (full && word == "none"@) {
        Some(0)
    } else {
        None
    }
}

/// The flags of the attributes from the `i`-th on, added to `flags`.
pub open spec fn attributes_from(
    words: Seq<Seq<char>>,
    full: bool,
    i: int,
    flags: u32,
) -> Result<u32, Error>
    decreases words.len() - i,
{
    if i < 0 || i >= words.len() {
        Ok(flags)
    } else {
        match attribute_bit(trimmed(words[i]), full) {
            Some(bit) => attributes_from(words, full, i + 1, flags | bit),
            None => Err(Error::Invalid(Fault::Attribute { word: i as usize })),
        }
    }
}

/// The flags of a comma-separated list of attributes.
pub open spec fn attributes(s: Seq<char>, full: bool) -> Result<u32, Error> {
    attributes_from(split_all(s, ','), full, 0, 0)
}

fn attribute(word: &str, full: bool) -> (r: Option<u32>)
    ensures
        r == attribute_bit(word@, full),
{
    if str_eq(word, "readonly") {
        Some(LP_PARTITION_ATTR_READONLY)
    } else if str_eq(word, "slot_suffixed") {
        Some(LP_PARTITION_ATTR_SLOT_SUFFIXED)
    } else if full && str_eq(word, "updated") {
        Some(LP_PARTITION_ATTR_UPDATED)
    } else if full && str_eq(word, "disabled") {
        Some(LP_PARTITION_ATTR_DISABLED)
    } else if word.unicode_len() == 0 || (full && str_eq(word, "none")) {
        Some(0)
    } else {
        None
    }
}

/// Reads a comma-separated list of attributes.
pub fn parse_attrs(s: &str, full: bool) -> (r: Result<u32, Error>)
    ensures
        r == attributes(s@, full),
{
    let words = split(s, ',');
    let ghost all = split_all(s@, ',');
    let mut flags: u32 = 0;
    let mut i: usize = 0;
    while i < words.len()
        invariant
            i <= words.len(),
            all == split_all(s@, ','),
            texts(words@) == all,
            attributes(s@, full) == attributes_from(all, full, i as int, flags),
        decreases words.len() - i,
    {
        assert(all[i as int] == words@[i as int]@);
        match attribute(trim(words[i].as_str()), full) {
            Some(bit) => {
                flags = flags | bit;
            },
            None => {
                return Err(Error::Invalid(Fault::Attribute { word: i }));
            },
        }
        i += 1;
    }
    Ok(flags)
}

/// The metadata slot that a selector stands for: none for all slots.
pub open spec fn slot_selector(s: Seq<char>) -> Result<Option<u64>, Error> {
    if s == "all"@ {
        Ok(None)
    } else if s == "0"@ || s == "a"@ || s == "A"@ || s == "_a"@ || s == "_A"@ {
        Ok(Some(0))
    } else if s == "1"@ || s == "b"@ || s == "B"@ || s == "_b"@ || s == "_B"@ {
        Ok(Some(1))
    } else if s == "2"@ {
        Ok(Some(2))
    } else if s == "3"@ {
        Ok(Some(3))
    } else if s == "4"@ {
        Ok(Some(4))
    } else if s == "5"@ {
        Ok(Some(5))
    } else if s == "6"@ {
        Ok(Some(6))
    } else if s == "7"@ {
        Ok(Some(7))
    } else {
        Err(Error::Invalid(Fault::SlotText))
    }
}

/// Reads a slot selector.
pub fn parse_slot_opt(s: &str) -> (r: Result<Option<u64>, Error>)
    ensures
        r == slot_selector(s@),
{
    if str_eq(s, "all") {
        Ok(None)
    } else if str_eq(s, "0") || str_eq(s, "a") || str_eq(s, "A") || str_eq(s, "_a") || str_eq(
        s,
        "_A",
    ) {
        Ok(Some(0))
    } else if str_eq(s, "1") || str_eq(s, "b") || str_eq(s, "B") || str_eq(s, "_b") || str_eq(
        s,
        "_B",
    ) {
        Ok(Some(1))
    } else if str_eq(s, "2") {
        Ok(Some(2))
    } else if str_eq(s, "3") {
        Ok(Some(3))
    } else if str_eq(s, "4") {
        Ok(Some(4))
    } else if str_eq(s, "5") {
        Ok(Some(5))
    } else if str_eq(s, "6") {
        Ok(Some(6))
    } else if str_eq(s, "7") {
        Ok(Some(7))
    } else {
        Err(Error::Invalid(Fault::SlotText))
    }
}

/// The suffix that a filter stands for: none for all suffixes.
pub open spec fn suffix_selector(s: Seq<char>) -> Result<Option<Seq<char>>, Error> {
    if s == "a"@ || s == "A"@ {
        Ok(Some("a"@))
    } else if s == "b"@ || s == "B"@ {
        Ok(Some("b"@))
    } else if s == "all"@ {
        Ok(None)
    } else {
        Err(Error::Invalid(Fault::SuffixText))
    }
}

/// Reads a suffix filter.
pub fn parse_suffix_opt(s: &str) -> (r: Result<Option<&'static str>, Error>)
    ensures
        match r {
            Ok(v) => suffix_selector(s@) == Ok::<Option<Seq<char>>, Error>(option_view(v)),
            Err(e) => suffix_selector(s@) == Err::<Option<Seq<char>>, Error>(e),
        },
{
    if str_eq(s, "a") || str_eq(s, "A") {
        Ok(Some("a"))
    } else if str_eq(s, "b") || str_eq(s, "B") {
        Ok(Some("b"))
    } else if str_eq(s, "all") {
        Ok(None)
    } else {
        Err(Error::Invalid(Fault::SuffixText))
    }
}

} // verus!
