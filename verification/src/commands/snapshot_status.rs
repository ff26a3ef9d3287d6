//! The state of an update, out of its state file.

use crate::reader::data::option_view;
use crate::text::{from_utf8, str_eq, trim, trimmed};
use vstd::prelude::*;
use vstd::utf8::*;

verus! {

/// A request for the state of an update.
#[derive(Debug)]
pub struct SnapshotStatusArgs {
    pub metadata_dir: String,
}

/// The name of a state.
pub open spec fn state_text(value: int) -> Option<Seq<char>> {
    if value == 0 {
        Some("none"@)
    } else if value == 1 {
        Some("initiated"@)
    } else if value == 2 {
        Some("unverified"@)
    } else if value == 3 {
        Some("merging"@)
    } else if value == 4 {
        Some("merge-needs-reboot"@)
    } else if value == 5 {
        Some("merge-completed"@)
    } else if value == 6 {
        Some("merge-failed"@)
    } else if value == 7 {
        Some("cancelled"@)
    } else {
        None
    }
}

/// The name of a state.
pub fn state_name(value: u64) -> (r: Option<&'static str>)
    ensures
        option_view(r) == state_text(value as int),
{
    if value == 0 {
        Some("none")
    } else if value == 1 {
        Some("initiated")
    } else if value == 2 {
        Some("unverified")
    } else if value == 3 {
        Some("merging")
    } else if value == 4 {
        Some("merge-needs-reboot")
    } else if value == 5 {
        Some("merge-completed")
    } else if value == 6 {
        Some("merge-failed")
    } else if value == 7 {
        Some("cancelled")
    } else {
        None
    }
}

/// Largest number of bytes of a number.
pub const MAX_VARINT: usize = 9;

/// The number that starts at `pos`, read from its `k`-th byte on, and how many
/// bytes it has in all: seven bits a byte, the low ones first, and the high bit
/// set in every byte but the last.
pub open spec fn varint_from(data: Seq<u8>, pos: int, k: int) -> Option<(int, int)>
    decreases MAX_VARINT - k,
{
    if k < 0 || k >= MAX_VARINT || pos + k >= data.len() {
        None
    } else {
        let byte = data[pos + k] as int;
        if byte < 128 {
            Some((byte, k + 1))
        } else {
            match varint_from(data, pos, k + 1) {
                Some((rest, n)) => Some((byte - 128 + 128 * rest, n)),
                None => None,
            }
        }
    }
}

/// Reads the number that starts at `pos`, and tells how many bytes it has.
pub fn read_varint(data: &Vec<u8>, pos: usize) -> (r: Option<(u64, usize)>)
    ensures
        match r {
            Some((value, n)) => varint_from(data@, pos as int, 0) == Some(
                (value as int, n as int),
            ) && 0 < n && pos + n <= data@.len(),
            None => varint_from(data@, pos as int, 0) is None,
        },
{
    if pos > data.len() {
        return None;
    }
    let mut value: u64 = 0;
    let mut factor: u64 = 1;
    let mut k: usize = 0;
    let ghost whole = varint_from(data@, pos as int, 0);
    while k < MAX_VARINT && k < data.len() - pos
        invariant
            pos <= data@.len(),
            k <= MAX_VARINT,
            k <= data@.len() - pos,
            value < factor,
            factor == pow128(k as int),
            whole == varint_from(data@, pos as int, 0),
            whole == (match varint_from(data@, pos as int, k as int) {
                Some((rest, n)) => Some((value + factor * rest, n)),
                None => None,
            }),
        decreases MAX_VARINT - k,
    {
        let byte = data[pos + k];
        proof {
            lemma_pow128(k as int);
            lemma_pow128(k + 1);
            let b = byte as int;
            let low = b % 128;
            assert(factor * low <= factor * 127) by (nonlinear_arith)
                requires
                    0 <= low <= 127,
                    factor > 0,
            ;
            assert(factor * low >= 0) by (nonlinear_arith)
                requires
                    0 <= low,
                    factor > 0,
            ;
            if b >= 128 {
                match varint_from(data@, pos as int, k + 1) {
                    Some((rest, n)) => {
                        assert(factor * (low + 128 * rest) == factor * low + (factor * 128) * rest)
                            by (nonlinear_arith);
                    },
                    None => {},
                }
            }
        }
        let bits = (byte % 128) as u64;
        value = value + factor * bits;
        k += 1;
        if byte < 128 {
            return Some((value, k));
        }
        factor = factor * 128;
    }
    None
}

/// The weight of the `k`-th byte of a number.
spec fn pow128(k: int) -> int
    decreases k,
{
    if k <= 0 {
        1
    } else {
        128 * pow128(k - 1)
    }
}

proof fn lemma_pow128(k: int)
    requires
        0 <= k <= 9,
    ensures
        0 < pow128(k) <= 0x8000_0000_0000_0000,
        k < 9 ==> 128 * pow128(k) <= 0x8000_0000_0000_0000,
{
    reveal_with_fuel(pow128, 11);
}

/// The state in the message from `pos` on: its first field, past all others.
pub open spec fn message_state(data: Seq<u8>, pos: int) -> Option<Seq<char>>
    decreases data.len() - pos,
{
    if pos < 0 || pos >= data.len() {
        None
    } else {
        match varint_from(data, pos, 0) {
            None => None,
            Some((key, used)) => {
                let at = pos + used;
                let number = varint_from(data, at, 0);
                if used <= 0 {
                    None
                } else if key % 8 == 0 {
                    match number {
                        None => None,
                        Some((value, n)) => if key / 8 == 1 {
                            state_text(value)
                        } else if n <= 0 || at + n > data.len() {
                            None
                        } else {
                            message_state(data, at + n)
                        },
                    }
                } else if key % 8 == 1 {
                    if at + 8 > data.len() {
                        None
                    } else {
                        message_state(data, at + 8)
                    }
                } else if key % 8 == 2 {
                    match number {
                        None => None,
                        Some((len, n)) => if n <= 0 || len < 0 || at + n + len > data.len() {
                            None
                        } else {
                            message_state(data, at + n + len)
                        },
                    }
                } else if key % 8 == 5 {
                    if at + 4 > data.len() {
                        None
                    } else {
                        message_state(data, at + 4)
                    }
                } else {
                    None
                }
            },
        }
    }
}

/// Reads the state out of a message; nothing where the data is no message or has
/// no known state.
pub fn parse_proto_state(data: &Vec<u8>) -> (r: Option<&'static str>)
    ensures
        option_view(r) == message_state(data@, 0),
{
    let mut pos: usize = 0;
    while pos < data.len()
        invariant
            pos <= data@.len(),
            message_state(data@, 0) == message_state(data@, pos as int),
        decreases data.len() - pos,
    {
        let (key, used) = match read_varint(data, pos) {
            Some(v) => v,
            None => {
                return None;
            },
        };
        let at = pos + used;
        let kind = key % 8;
        if kind == 0 {
            let (value, n) = match read_varint(data, at) {
                Some(v) => v,
                None => {
                    return None;
                },
            };
            if key / 8 == 1 {
                return state_name(value);
            }
            pos = at + n;
        } else if kind == 1 {
            if data.len() - at < 8 {
                return None;
            }
            pos = at + 8;
        } else if kind == 2 {
            let (len, n) = match read_varint(data, at) {
                Some(v) => v,
                None => {
                    return None;
                },
            };
            if len > (data.len() - at - n) as u64 {
                return None;
            }
            pos = at + n + len as usize;
        } else if kind == 5 {
            if data.len() - at < 4 {
                return None;
            }
            pos = at + 4;
        } else {
            return None;
        }
    }
    None
}

/// The state that a text stands for.
pub open spec fn word_state(word: Seq<char>) -> Option<Seq<char>> {
    if word.len() == 0 || word == "none"@ {
        Some("none"@)
    } else if word == "initiated"@ || word == "unverified"@ || word == "merging"@ || word
        == "merge-completed"@ || word == "merge-needs-reboot"@ || word == "merge-failed"@ || word
        == "cancelled"@ {
        Some(word)
    } else {
        None
    }
}

/// The state in a text file.
pub open spec fn text_state(data: Seq<u8>) -> Option<Seq<char>> {
    if valid_utf8(data) {
        word_state(trimmed(decode_utf8(data)))
    } else {
        None
    }
}

/// Reads the state out of a text file.
pub fn parse_legacy_state(data: &Vec<u8>) -> (r: Option<&'static str>)
    ensures
        option_view(r) == text_state(data@),
{
    let text = match from_utf8(data.as_slice()) {
        Some(s) => s,
        None => {
            return None;
        },
    };
    let word = trim(text);
    if word.is_empty() || str_eq(word, "none") {
        assert(word@.len() == 0 || word@ == "none"@);
        Some("none")
    } else if str_eq(word, "initiated") {
        Some("initiated")
    } else if str_eq(word, "unverified") {
        Some("unverified")
    } else if str_eq(word, "merging") {
        Some("merging")
    } else if str_eq(word, "merge-completed") {
        Some("merge-completed")
    } else if str_eq(word, "merge-needs-reboot") {
        Some("merge-needs-reboot")
    } else if str_eq(word, "merge-failed") {
        Some("merge-failed")
    } else if str_eq(word, "cancelled") {
        Some("cancelled")
    } else {
        None
    }
}

/// The state in a state file: a message, else a text, else none.
pub open spec fn update_state(data: Seq<u8>) -> Seq<char> {
    match message_state(data, 0) {
        Some(s) => s,
        None => match text_state(data) {
            Some(s) => s,
            None => "none"@,
        },
    }
}

/// Reads the state out of a state file, and tells whether the file had a known
/// form.
pub fn read_update_state(data: &Vec<u8>) -> (r: (&'static str, bool))
    ensures
        r.0@ == update_state(data@),
        r.1 == (message_state(data@, 0) is Some || text_state(data@) is Some),
{
    if let Some(s) = parse_proto_state(data) {
        return (s, true);
    }
    if let Some(s) = parse_legacy_state(data) {
        return (s, true);
    }
    ("none", false)
}

} // verus!
