//! What a state file says: numbers there and back, the field that counts, and the same
//! states in both forms.

use crate::commands::snapshot_status::{
    message_state, state_text, update_state, varint_from, word_state, MAX_VARINT,
};
use crate::text::trimmed;
use vstd::prelude::*;
use vstd::utf8::*;

verus! {

/// A number as it stands in a message: seven bits a byte, the low ones first, and the
/// high bit set in every byte but the last.
pub open spec fn varint_bytes(n: nat) -> Seq<u8>
    decreases n,
{
    if n < 128 {
        seq![n as u8]
    } else {
        seq![(128 + n % 128) as u8] + varint_bytes(n / 128)
    }
}

/// The smallest number that takes more than `k` bytes.
pub open spec fn varint_limit(k: nat) -> nat
    decreases k,
{
    if k == 0 {
        1
    } else {
        128 * varint_limit((k - 1) as nat)
    }
}

/// Whether the bytes from `at` on are these.
pub open spec fn stands_at(data: Seq<u8>, at: int, b: Seq<u8>) -> bool {
    0 <= at && at + b.len() <= data.len() && data.subrange(at, at + b.len()) == b
}

proof fn lemma_stands(data: Seq<u8>, at: int, a: Seq<u8>, b: Seq<u8>)
    requires
        stands_at(data, at, a + b),
    ensures
        stands_at(data, at, a),
        stands_at(data, at + a.len(), b),
{
    let whole = data.subrange(at, at + (a + b).len());
    assert(data.subrange(at, at + a.len()) =~= whole.subrange(0, a.len() as int));
    assert(whole.subrange(0, a.len() as int) =~= a);
    assert(data.subrange(at + a.len(), at + a.len() + b.len()) =~= whole.subrange(
        a.len() as int,
        whole.len() as int,
    ));
    assert(whole.subrange(a.len() as int, whole.len() as int) =~= b);
}

proof fn lemma_varint(data: Seq<u8>, pos: int, k: int, n: nat)
    requires
        0 <= pos,
        0 <= k < MAX_VARINT,
        n < varint_limit((MAX_VARINT - k) as nat),
        stands_at(data, pos + k, varint_bytes(n)),
    ensures
        varint_from(data, pos, k) == Some((n as int, k + varint_bytes(n).len())),
        varint_bytes(n).len() > 0,
    decreases n,
{
    let b = varint_bytes(n);
    assert(data[pos + k] == data.subrange(pos + k, pos + k + b.len())[0]);
    if n >= 128 {
        let rest = varint_bytes(n / 128);
        assert(b.len() == 1 + rest.len());
        lemma_stands(data, pos + k, seq![b[0]], rest);
        assert(b =~= seq![b[0]] + rest);
        assert(varint_limit((MAX_VARINT - k) as nat) == 128 * varint_limit(
            (MAX_VARINT - k - 1) as nat,
        ));
        if k + 1 == MAX_VARINT {
            assert(varint_limit(0) == 1);
            assert(varint_limit(1) == 128) by {
                reveal_with_fuel(varint_limit, 3);
            }
        }
        lemma_varint(data, pos, k + 1, n / 128);
    }
}

/// A number that takes at most nine bytes reads back as itself, with its length.
pub proof fn law_varint_read_back(data: Seq<u8>, pos: int, n: nat)
    requires
        n < 0x8000_0000_0000_0000,
        stands_at(data, pos, varint_bytes(n)),
    ensures
        varint_from(data, pos, 0) == Some((n as int, varint_bytes(n).len() as int)),
        varint_bytes(n).len() > 0,
{
    assert(varint_limit(9) == 0x8000_0000_0000_0000) by {
        reveal_with_fuel(varint_limit, 11);
    }
    lemma_varint(data, pos, 0, n);
}

/// The state of a message is the value of its first field.
pub proof fn law_message_state(data: Seq<u8>, pos: int, value: nat)
    requires
        value < 0x8000_0000_0000_0000,
        stands_at(data, pos, varint_bytes(8) + varint_bytes(value)),
    ensures
        message_state(data, pos) == state_text(value as int),
{
    lemma_stands(data, pos, varint_bytes(8), varint_bytes(value));
    law_varint_read_back(data, pos, 8);
    law_varint_read_back(data, pos + varint_bytes(8).len(), value);
}

/// Whether a field is one that a message may hold besides its state: a number, eight
/// or four bytes, or a text with its length before it.
pub open spec fn is_other_field(field: Seq<u8>) -> bool {
    ||| exists|number: nat, value: nat|
        number != 1 && number < 0x1000_0000_0000_0000 && value < 0x8000_0000_0000_0000 && field
            == #[trigger] varint_bytes(8 * number) + #[trigger] varint_bytes(value)
    ||| exists|number: nat, b: Seq<u8>|
        number < 0x0fff_ffff_ffff_ffff && b.len() == 8 && field == #[trigger] (varint_bytes(
            8 * number + 1,
        ) + b)
    ||| exists|number: nat, b: Seq<u8>|
        number < 0x0fff_ffff_ffff_ffff && b.len() < 0x8000_0000_0000_0000 && field
            == #[trigger] (varint_bytes(8 * number + 2) + (varint_bytes(b.len()) + b))
    ||| exists|number: nat, b: Seq<u8>|
        number < 0x0fff_ffff_ffff_ffff && b.len() == 4 && field == #[trigger] (varint_bytes(
            8 * number + 5,
        ) + b)
}

/// Any other field is passed over.
pub proof fn law_message_skips(data: Seq<u8>, pos: int, field: Seq<u8>)
    requires
        is_other_field(field),
        stands_at(data, pos, field),
    ensures
        message_state(data, pos) == message_state(data, pos + field.len()),
{
    if exists|number: nat, value: nat|
        number != 1 && number < 0x1000_0000_0000_0000 && value < 0x8000_0000_0000_0000 && field
            == #[trigger] varint_bytes(8 * number) + #[trigger] varint_bytes(value) {
        let (number, value) = choose|number: nat, value: nat|
            number != 1 && number < 0x1000_0000_0000_0000 && value < 0x8000_0000_0000_0000 && field
                == #[trigger] varint_bytes(8 * number) + #[trigger] varint_bytes(value);
        lemma_stands(data, pos, varint_bytes(8 * number), varint_bytes(value));
        law_varint_read_back(data, pos, 8 * number);
        law_varint_read_back(data, pos + varint_bytes(8 * number).len(), value);
    } else if exists|number: nat, b: Seq<u8>|
        number < 0x0fff_ffff_ffff_ffff && b.len() == 8 && field == #[trigger] (varint_bytes(
            8 * number + 1,
        ) + b) {
        let (number, b) = choose|number: nat, b: Seq<u8>|
            number < 0x0fff_ffff_ffff_ffff && b.len() == 8 && field == #[trigger] (varint_bytes(
                8 * number + 1,
            ) + b);
        lemma_stands(data, pos, varint_bytes(8 * number + 1), b);
        law_varint_read_back(data, pos, 8 * number + 1);
    } else if exists|number: nat, b: Seq<u8>|
        number < 0x0fff_ffff_ffff_ffff && b.len() < 0x8000_0000_0000_0000 && field
            == #[trigger] (varint_bytes(8 * number + 2) + (varint_bytes(b.len()) + b)) {
        let (number, b) = choose|number: nat, b: Seq<u8>|
            number < 0x0fff_ffff_ffff_ffff && b.len() < 0x8000_0000_0000_0000 && field
                == #[trigger] (varint_bytes(8 * number + 2) + (varint_bytes(b.len()) + b));
        let key = varint_bytes(8 * number + 2);
        lemma_stands(data, pos, key, varint_bytes(b.len()) + b);
        lemma_stands(data, pos + key.len(), varint_bytes(b.len()), b);
        law_varint_read_back(data, pos, 8 * number + 2);
        law_varint_read_back(data, pos + key.len(), b.len());
    } else {
        let (number, b) = choose|number: nat, b: Seq<u8>|
            number < 0x0fff_ffff_ffff_ffff && b.len() == 4 && field == #[trigger] (varint_bytes(
                8 * number + 5,
            ) + b);
        lemma_stands(data, pos, varint_bytes(8 * number + 5), b);
        law_varint_read_back(data, pos, 8 * number + 5);
    }
}

proof fn lemma_states()
    ensures
        "none"@.len() == 4 && "none"@[0] == 'n',
        "initiated"@.len() == 9 && "initiated"@[0] == 'i',
        "unverified"@.len() == 10 && "unverified"@[0] == 'u',
        "merging"@.len() == 7 && "merging"@[0] == 'm',
        "merge-needs-reboot"@.len() == 18,
        "merge-completed"@.len() == 15,
        "merge-failed"@.len() == 12,
        "cancelled"@.len() == 9 && "cancelled"@[0] == 'c',
{
    reveal_strlit("none");
    reveal_strlit("initiated");
    reveal_strlit("unverified");
    reveal_strlit("merging");
    reveal_strlit("merge-needs-reboot");
    reveal_strlit("merge-completed");
    reveal_strlit("merge-failed");
    reveal_strlit("cancelled");
}

/// There are eight states, and no two have one name.
pub proof fn law_states_differ(a: int, b: int)
    ensures
        state_text(a) is Some <==> 0 <= a < 8,
        state_text(a) is Some && state_text(a) == state_text(b) ==> a == b,
{
    lemma_states();
}

/// A text names the states that a message names, by the same words; an empty one is no
/// update.
pub proof fn law_words_agree(word: Seq<char>, value: int)
    ensures
        state_text(value) matches Some(w) ==> word_state(w) == Some(w),
        word_state(word) matches Some(w) ==> (w == word || word.len() == 0 && state_text(0) == Some(
            w,
        )) && exists|v: int| state_text(v) == Some(w),
        word.len() == 0 ==> word_state(word) == state_text(0),
{
    lemma_states();
    assert(state_text(0) == Some("none"@));
    assert(state_text(1) == Some("initiated"@));
    assert(state_text(2) == Some("unverified"@));
    assert(state_text(3) == Some("merging"@));
    assert(state_text(4) == Some("merge-needs-reboot"@));
    assert(state_text(5) == Some("merge-completed"@));
    assert(state_text(6) == Some("merge-failed"@));
    assert(state_text(7) == Some("cancelled"@));
}

/// A state file is read as a message where that gives a state, else as a text, else it
/// stands for no update; what comes out is one of the states.
pub proof fn law_update_state(data: Seq<u8>)
    ensures
        message_state(data, 0) matches Some(s) ==> update_state(data) == s,
        message_state(data, 0) is None && valid_utf8(data) && word_state(
            trimmed(decode_utf8(data)),
        ) is Some ==> update_state(data) == word_state(trimmed(decode_utf8(data)))->Some_0,
        message_state(data, 0) is None && !valid_utf8(data) ==> state_text(0) == Some(
            update_state(data),
        ),
        exists|v: int| state_text(v) == Some(update_state(data)),
{
    lemma_message_states(data, 0);
    assert(state_text(0) == Some("none"@));
    if message_state(data, 0) is None && valid_utf8(data) {
        law_words_agree(trimmed(decode_utf8(data)), 0);
    }
}

proof fn lemma_message_states(data: Seq<u8>, pos: int)
    ensures
        message_state(data, pos) matches Some(s) ==> exists|v: int| state_text(v) == Some(s),
    decreases data.len() - pos,
{
    if 0 <= pos < data.len() {
        if let Some((key, used)) = varint_from(data, pos, 0) {
            let at = pos + used;
            if used > 0 {
                if let Some((value, n)) = varint_from(data, at, 0) {
                    if key % 8 == 0 {
                        if key / 8 == 1 {
                            assert(message_state(data, pos) == state_text(value));
                        } else if n > 0 && at + n <= data.len() {
                            lemma_message_states(data, at + n);
                        }
                    }
                    if key % 8 == 2 && n > 0 && value >= 0 && at + n + value <= data.len() {
                        lemma_message_states(data, at + n + value);
                    }
                }
                if key % 8 == 1 && at + 8 <= data.len() {
                    lemma_message_states(data, at + 8);
                }
                if key % 8 == 5 && at + 4 <= data.len() {
                    lemma_message_states(data, at + 4);
                }
            }
        }
    }
}

} // verus!
