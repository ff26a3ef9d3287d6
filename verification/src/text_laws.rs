//! What the text helpers make of every text: trimming, cutting, joining, and numbers
//! there and back.

use crate::text::{
    decimal, digit_char, digits_value, hexadecimal, is_digit, is_white, joined, parsed_number,
    position_from, position_of, split_all, split_limit, trim_back, trim_front, trimmed,
    unsigned_part, written,
};
use vstd::prelude::*;

verus! {

/// Whether a text is a part of another with nothing but white space around it.
pub open spec fn cut_out(s: Seq<char>, t: Seq<char>, from: int, to: int) -> bool {
    &&& 0 <= from <= to <= s.len()
    &&& t == s.subrange(from, to)
    &&& forall|i: int| 0 <= i < s.len() && !(from <= i < to) ==> is_white(#[trigger] s[i])
}

proof fn lemma_trim_front(s: Seq<char>) -> (from: int)
    ensures
        cut_out(s, trim_front(s), from, s.len() as int),
        trim_front(s).len() > 0 ==> !is_white(trim_front(s)[0]),
    decreases s.len(),
{
    if s.len() > 0 && is_white(s[0]) {
        let rest = s.subrange(1, s.len() as int);
        let from = lemma_trim_front(rest);
        assert(rest.subrange(from, rest.len() as int) =~= s.subrange(from + 1, s.len() as int));
        assert forall|i: int| 0 <= i < from + 1 implies is_white(#[trigger] s[i]) by {
            if i > 0 {
                assert(rest[i - 1] == s[i]);
            }
        }
        from + 1
    } else {
        assert(s.subrange(0, s.len() as int) =~= s);
        0
    }
}

proof fn lemma_trim_back(s: Seq<char>) -> (to: int)
    ensures
        cut_out(s, trim_back(s), 0, to),
        trim_back(s).len() > 0 ==> !is_white(trim_back(s).last()),
    decreases s.len(),
{
    if s.len() > 0 && is_white(s.last()) {
        let rest = s.drop_last();
        let to = lemma_trim_back(rest);
        assert(rest.subrange(0, to) =~= s.subrange(0, to));
        assert forall|i: int| to <= i < s.len() implies is_white(#[trigger] s[i]) by {
            if i < rest.len() {
                assert(rest[i] == s[i]);
            }
        }
        to
    } else {
        assert(s.subrange(0, s.len() as int) =~= s);
        s.len() as int
    }
}

/// Trimming cuts the white space off both ends, and nothing else.
pub proof fn law_trimmed(s: Seq<char>)
    ensures
        exists|from: int, to: int| #[trigger] cut_out(s, trimmed(s), from, to),
        trimmed(s).len() > 0 ==> !is_white(trimmed(s)[0]) && !is_white(trimmed(s).last()),
{
    let t = trim_front(s);
    let from = lemma_trim_front(s);
    let to = lemma_trim_back(t);
    assert(t.subrange(0, to) =~= s.subrange(from, from + to));
    assert forall|i: int| 0 <= i < s.len() && !(from <= i < from + to) implies is_white(
        #[trigger] s[i],
    ) by {
        if i >= from {
            assert(t[i - from] == s[i]);
        }
    }
    assert(cut_out(s, trimmed(s), from, from + to));
    if trimmed(s).len() > 0 {
        assert(trimmed(s)[0] == t[0]);
    }
}

/// A text without white space at its ends stays as it is.
pub proof fn law_trimmed_stays(s: Seq<char>)
    requires
        s.len() > 0 ==> !is_white(s[0]) && !is_white(s.last()),
    ensures
        trimmed(s) == s,
{
}

/// A search finds the first place of a character from `from` on, or the end.
pub proof fn law_position(s: Seq<char>, c: char, from: int)
    requires
        0 <= from <= s.len(),
    ensures
        from <= position_from(s, c, from) <= s.len(),
        position_from(s, c, from) < s.len() ==> s[position_from(s, c, from)] == c,
        forall|i: int| from <= i < position_from(s, c, from) ==> #[trigger] s[i] != c,
    decreases s.len() - from,
{
    if from < s.len() && s[from] != c {
        law_position(s, c, from + 1);
    }
}

/// Joining from the front.
pub proof fn lemma_joined_front(first: Seq<char>, rest: Seq<Seq<char>>, sep: Seq<char>)
    requires
        rest.len() > 0,
    ensures
        joined(seq![first] + rest, sep) == first + sep + joined(rest, sep),
    decreases rest.len(),
{
    let all = seq![first] + rest;
    if rest.len() == 1 {
        assert(all.drop_last() =~= seq![first]);
        assert(joined(all.drop_last(), sep) == first);
        assert(all.last() == rest[0]);
    } else {
        assert(all.drop_last() =~= seq![first] + rest.drop_last());
        lemma_joined_front(first, rest.drop_last(), sep);
        assert(joined(all, sep) =~= first + sep + joined(rest, sep));
    }
}

/// Cutting a text at every separator loses nothing: joined again with the separator
/// the parts are the text, and none of them holds it.
pub proof fn law_split_all(s: Seq<char>, sep: char)
    ensures
        split_all(s, sep).len() >= 1,
        joined(split_all(s, sep), seq![sep]) == s,
        forall|k: int, i: int|
            0 <= k < split_all(s, sep).len() && 0 <= i < split_all(s, sep)[k].len()
                ==> #[trigger] split_all(s, sep)[k][i] != sep,
    decreases s.len(),
{
    law_position(s, sep, 0);
    let at = position_of(s, sep);
    let parts = split_all(s, sep);
    if at >= s.len() {
        assert(parts =~= seq![s]);
    } else {
        let first = s.subrange(0, at);
        let behind = s.subrange(at + 1, s.len() as int);
        let rest = split_all(behind, sep);
        law_split_all(behind, sep);
        lemma_joined_front(first, rest, seq![sep]);
        assert(first + seq![sep] + behind =~= s);
        assert forall|k: int, i: int|
            0 <= k < parts.len() && 0 <= i < parts[k].len() implies #[trigger] parts[k][i]
            != sep by {
            if k == 0 {
                assert(parts[0] == first);
                assert(first[i] == s[i]);
            } else {
                assert(parts[k] == rest[k - 1]);
                assert(rest[k - 1][i] != sep);
            }
        }
    }
}

/// Cutting a text into at most `n` parts loses nothing: joined again the parts are the
/// text. Only the last part may hold the separator, and that only where all `n` parts
/// are used.
pub proof fn law_split_limit(s: Seq<char>, sep: char, n: nat)
    requires
        n >= 1,
    ensures
        1 <= split_limit(s, sep, n).len() <= n,
        joined(split_limit(s, sep, n), seq![sep]) == s,
        forall|k: int, i: int|
            0 <= k < split_limit(s, sep, n).len() && (k < split_limit(s, sep, n).len() - 1
                || split_limit(s, sep, n).len() < n) && 0 <= i < split_limit(s, sep, n)[k].len()
                ==> #[trigger] split_limit(s, sep, n)[k][i] != sep,
    decreases n,
{
    law_position(s, sep, 0);
    let at = position_of(s, sep);
    let parts = split_limit(s, sep, n);
    if n <= 1 || at >= s.len() {
        assert(parts =~= seq![s]);
    } else {
        let first = s.subrange(0, at);
        let behind = s.subrange(at + 1, s.len() as int);
        let rest = split_limit(behind, sep, (n - 1) as nat);
        law_split_limit(behind, sep, (n - 1) as nat);
        lemma_joined_front(first, rest, seq![sep]);
        assert(first + seq![sep] + behind =~= s);
        assert forall|k: int, i: int|
            0 <= k < parts.len() && (k < parts.len() - 1 || parts.len() < n) && 0 <= i
                < parts[k].len() implies #[trigger] parts[k][i] != sep by {
            if k == 0 {
                assert(parts[0] == first);
                assert(first[i] == s[i]);
            } else {
                assert(parts[k] == rest[k - 1]);
                assert(rest[k - 1][i] != sep);
            }
        }
    }
}

/// The value of a digit, up to base sixteen.
pub open spec fn digit_value(c: char) -> nat {
    if '0' <= c <= '9' {
        (c as u32 - '0' as u32) as nat
    } else if 'a' <= c <= 'f' {
        (c as u32 - 'a' as u32 + 10) as nat
    } else {
        0
    }
}

/// The number that digits spell in a base.
pub open spec fn spelled(s: Seq<char>, base: nat) -> nat
    decreases s.len(),
{
    if s.len() == 0 {
        0
    } else {
        base * spelled(s.drop_last(), base) + digit_value(s.last())
    }
}

proof fn lemma_digit(d: nat)
    requires
        d < 16,
    ensures
        digit_value(digit_char(d)) == d,
        d < 10 ==> is_digit(digit_char(d)) && digit_char(d) as u32 == 0x30 + d,
        d > 0 ==> digit_char(d) != '0',
        digit_char(d) != '+',
{
}

/// A number that is written in a base spells itself, and starts with a zero only where
/// it is zero.
pub proof fn law_written(n: nat, base: nat)
    requires
        2 <= base <= 16,
    ensures
        written(n, base).len() > 0,
        spelled(written(n, base), base) == n,
        n > 0 ==> written(n, base)[0] != '0',
        written(n, base)[0] != '+',
        base <= 10 ==> forall|i: int|
            0 <= i < written(n, base).len() ==> is_digit(#[trigger] written(n, base)[i]),
    decreases n,
{
    if n < base {
        lemma_digit(n);
        let s = seq![digit_char(n)];
        assert(s.drop_last() =~= Seq::<char>::empty());
        assert(spelled(s.drop_last(), base) == 0);
        assert(base * 0 == 0);
    } else {
        let q = n / base;
        let m = n % base;
        assert(q < n && m < base && n == base * q + m) by (nonlinear_arith)
            requires
                n >= base,
                base >= 2,
                q == n / base,
                m == n % base,
        ;
        assert(q > 0) by (nonlinear_arith)
            requires
                n >= base,
                base >= 2,
                q == n / base,
        ;
        law_written(q, base);
        lemma_digit(m);
        let front = written(q, base);
        let s = front.push(digit_char(m));
        assert(s.drop_last() =~= front);
        assert(s[0] == front[0]);
        assert forall|i: int| base <= 10 && 0 <= i < s.len() implies is_digit(
            #[trigger] s[i],
        ) by {
            if i < front.len() {
                assert(s[i] == front[i]);
            }
        }
    }
}

proof fn lemma_spelled_decimal(s: Seq<char>)
    requires
        forall|i: int| 0 <= i < s.len() ==> is_digit(#[trigger] s[i]),
    ensures
        digits_value(s) == spelled(s, 10),
    decreases s.len(),
{
    if s.len() > 0 {
        assert(is_digit(s[s.len() - 1]));
        assert forall|i: int| 0 <= i < s.drop_last().len() implies is_digit(
            #[trigger] s.drop_last()[i],
        ) by {
            assert(s.drop_last()[i] == s[i]);
        }
        lemma_spelled_decimal(s.drop_last());
    }
}

/// A number in decimal reads back as itself wherever it is allowed, also behind a plus
/// sign; and what reads as a number spells it, digit by digit.
pub proof fn law_number_read_back(n: nat, max: nat)
    ensures
        n <= max ==> parsed_number(decimal(n), max) == Some(n),
        n <= max ==> parsed_number(seq!['+'] + decimal(n), max) == Some(n),
        n > max ==> parsed_number(decimal(n), max) is None,
{
    law_written(n, 10);
    let s = decimal(n);
    lemma_spelled_decimal(s);
    assert(unsigned_part(s) == s);
    let t = seq!['+'] + s;
    assert(t.subrange(1, t.len() as int) =~= s);
}

/// Whether a text is one or more decimal digits.
pub open spec fn all_digits(d: Seq<char>) -> bool {
    d.len() > 0 && forall|i: int| 0 <= i < d.len() ==> '0' <= #[trigger] d[i] <= '9'
}

/// What reads as a number is digits, behind a plus sign or not, that spell it.
pub proof fn law_number_spelled(s: Seq<char>, max: nat)
    ensures
        parsed_number(s, max) matches Some(n) ==> n <= max && exists|d: Seq<char>|
            #[trigger] all_digits(d) && spelled(d, 10) == n && (s == d || s == seq!['+'] + d),
{
    let d = unsigned_part(s);
    if s.len() > 0 && s[0] == '+' {
        assert(s =~= seq!['+'] + d);
    }
    if parsed_number(s, max) is Some {
        lemma_spelled_decimal(d);
        assert(all_digits(d));
    }
}

/// Digits that spell a number that is allowed read as it, with zeros before them and
/// behind a plus sign too; a larger number is refused.
pub proof fn law_digits_read(d: Seq<char>, max: nat)
    requires
        all_digits(d),
    ensures
        spelled(d, 10) <= max ==> parsed_number(d, max) == Some(spelled(d, 10)) && parsed_number(
            seq!['+'] + d,
            max,
        ) == Some(spelled(d, 10)),
        spelled(d, 10) > max ==> parsed_number(d, max) is None && parsed_number(
            seq!['+'] + d,
            max,
        ) is None,
{
    assert forall|i: int| 0 <= i < d.len() implies is_digit(#[trigger] d[i]) by {}
    lemma_spelled_decimal(d);
    assert('0' <= d[0] <= '9');
    assert(unsigned_part(d) == d);
    let t = seq!['+'] + d;
    assert(t.subrange(1, t.len() as int) =~= d);
}

/// A number in hexadecimal spells itself behind its mark.
pub proof fn law_hexadecimal(n: nat)
    ensures
        hexadecimal(n).len() > 2,
        hexadecimal(n)[0] == '0' && hexadecimal(n)[1] == 'x',
        spelled(hexadecimal(n).skip(2), 16) == n,
{
    law_written(n, 16);
    assert(hexadecimal(n).skip(2) =~= written(n, 16));
}

} // verus!
