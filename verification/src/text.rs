//! Text helpers: comparison, trimming, splitting, and the decimal and
//! hexadecimal forms of numbers.

use vstd::prelude::*;
use vstd::string::*;
use vstd::utf8::*;

verus! {

/// `String::push` appends the character at the end of the string.
pub assume_specification[ String::push ](s: &mut String, c: char)
    ensures
        final(s)@ == old(s)@.push(c),
;

/// `t` is the tail of `s`.
pub open spec fn has_suffix(s: Seq<char>, t: Seq<char>) -> bool {
    t.len() <= s.len() && s.subrange(s.len() - t.len(), s.len() as int) == t
}

/// `t` is the head of `s`.
pub open spec fn has_prefix(s: Seq<char>, t: Seq<char>) -> bool {
    t.len() <= s.len() && s.subrange(0, t.len() as int) == t
}

/// The characters with the Unicode `White_Space` property.
pub open spec fn is_white(c: char) -> bool {
    let u = c as u32;
    ||| 0x09 <= u <= 0x0d
    ||| u == 0x20
    ||| u == 0x85
    ||| u == 0xa0
    ||| u == 0x1680
    ||| 0x2000 <= u <= 0x200a
    ||| u == 0x2028
    ||| u == 0x2029
    ||| u == 0x202f
    ||| u == 0x205f
    ||| u == 0x3000
}

/// `s` without its leading white space.
pub open spec fn trim_front(s: Seq<char>) -> Seq<char>
    decreases s.len(),
{
    if s.len() > 0 && is_white(s[0]) {
        trim_front(s.subrange(1, s.len() as int))
    } else {
        s
    }
}

/// `s` without its trailing white space.
pub open spec fn trim_back(s: Seq<char>) -> Seq<char>
    decreases s.len(),
{
    if s.len() > 0 && is_white(s.last()) {
        trim_back(s.drop_last())
    } else {
        s
    }
}

/// `s` without white space at either end.
pub open spec fn trimmed(s: Seq<char>) -> Seq<char> {
    trim_back(trim_front(s))
}

/// The position of the first `c` in `s` at or after `from`, or `s.len()`.
pub open spec fn position_from(s: Seq<char>, c: char, from: int) -> int
    decreases s.len() - from,
{
    if from < 0 || from >= s.len() {
        s.len() as int
    } else if s[from] == c {
        from
    } else {
        position_from(s, c, from + 1)
    }
}

/// The position of the first `c` in `s`, or `s.len()` when there is none.
pub open spec fn position_of(s: Seq<char>, c: char) -> int {
    position_from(s, c, 0)
}

/// `s` cut at every `sep`.
pub open spec fn split_all(s: Seq<char>, sep: char) -> Seq<Seq<char>>
    decreases s.len(),
{
    let at = position_of(s, sep);
    if at < 0 || at >= s.len() {
        seq![s]
    } else {
        seq![s.subrange(0, at)] + split_all(s.subrange(at + 1, s.len() as int), sep)
    }
}

/// `s` cut at the first `n - 1` occurrences of `sep`.
pub open spec fn split_limit(s: Seq<char>, sep: char, n: nat) -> Seq<Seq<char>>
    decreases n,
{
    let at = position_of(s, sep);
    if n <= 1 || at < 0 || at >= s.len() {
        seq![s]
    } else {
        seq![s.subrange(0, at)] + split_limit(
            s.subrange(at + 1, s.len() as int),
            sep,
            (n - 1) as nat,
        )
    }
}

pub open spec fn is_digit(c: char) -> bool {
    '0' <= c <= '9'
}

/// The number that a run of decimal digits spells.
pub open spec fn digits_value(s: Seq<char>) -> nat
    decreases s.len(),
{
    if s.len() == 0 {
        0
    } else {
        10 * digits_value(s.drop_last()) + (s.last() as u32 - '0' as u32) as nat
    }
}

/// The digits of `s` behind an optional plus sign.
pub open spec fn unsigned_part(s: Seq<char>) -> Seq<char> {
    if s.len() > 0 && s[0] == '+' {
        s.subrange(1, s.len() as int)
    } else {
        s
    }
}

/// The number spelled by `s`: an optional plus sign and one or more decimal
/// digits whose value is at most `max`.
pub open spec fn parsed_number(s: Seq<char>, max: nat) -> Option<nat> {
    let d = unsigned_part(s);
    if d.len() > 0 && (forall|i: int| 0 <= i < d.len() ==> is_digit(#[trigger] d[i]))
        && digits_value(d) <= max {
        Some(digits_value(d))
    } else {
        None
    }
}

/// The character of one hexadecimal digit, lower case.
pub open spec fn digit_char(d: nat) -> char {
    if d < 10 {
        ((0x30 + d) as u8) as char
    } else {
        ((0x61 + (d - 10)) as u8) as char
    }
}

/// `n` written in `base`, without leading zeros.
pub open spec fn written(n: nat, base: nat) -> Seq<char>
    decreases n,
    when base >= 2
{
    if n < base {
        seq![digit_char(n)]
    } else {
        proof {
            assert(n / base < n) by (nonlinear_arith)
                requires
                    n >= base,
                    base >= 2,
            ;
        }
        written(n / base, base).push(digit_char(n % base))
    }
}

/// `n` in decimal.
pub open spec fn decimal(n: nat) -> Seq<char> {
    written(n, 10)
}

/// `n` in lower-case hexadecimal behind `0x`.
pub open spec fn hexadecimal(n: nat) -> Seq<char> {
    seq!['0', 'x'] + written(n, 16)
}

/// The characters of `s` as a vector.
pub fn chars_of(s: &str) -> (v: Vec<char>)
    ensures
        v@ == s@,
{
    let mut v: Vec<char> = Vec::new();
    for c in it: s.chars()
        invariant
            it.seq() == s@,
            v@ == s@.take(it.index()),
    {
        v.push(c);
        assert(s@.take(it.index()).push(c) =~= s@.take(it.index() + 1));
    }
    assert(s@.take(s@.len() as int) =~= s@);
    v
}

/// The string made of the characters of `v`.
pub fn string_of(v: &Vec<char>) -> (s: String)
    ensures
        s@ == v@,
{
    let mut s = String::new();
    let mut i: usize = 0;
    while i < v.len()
        invariant
            i <= v.len(),
            s@ == v@.take(i as int),
        decreases v.len() - i,
    {
        s.push(v[i]);
        assert(v@.take(i as int).push(v@[i as int]) =~= v@.take(i + 1));
        i += 1;
    }
    assert(v@.take(v@.len() as int) =~= v@);
    s
}

/// The characters of `v` from `from` up to `to`.
pub fn slice_chars(v: &Vec<char>, from: usize, to: usize) -> (r: Vec<char>)
    requires
        from <= to <= v.len(),
    ensures
        r@ == v@.subrange(from as int, to as int),
{
    let mut r: Vec<char> = Vec::new();
    let mut i: usize = from;
    while i < to
        invariant
            from <= i <= to <= v.len(),
            r@ == v@.subrange(from as int, i as int),
        decreases to - i,
    {
        r.push(v[i]);
        assert(v@.subrange(from as int, i as int).push(v@[i as int]) =~= v@.subrange(
            from as int,
            i + 1,
        ));
        i += 1;
    }
    r
}

/// Whether two strings hold the same characters.
pub fn str_eq(a: &str, b: &str) -> (r: bool)
    ensures
        r == (a@ == b@),
{
    let x = a.as_bytes();
    let y = b.as_bytes();
    proof {
        encode_utf8_decode_utf8(a@);
        encode_utf8_decode_utf8(b@);
    }
    if x.len() != y.len() {
        return false;
    }
    let mut i: usize = 0;
    while i < x.len()
        invariant
            i <= x.len() == y.len(),
            x@ == encode_utf8(a@),
            y@ == encode_utf8(b@),
            forall|k: int| 0 <= k < i ==> x@[k] == y@[k],
        decreases x.len() - i,
    {
        if x[i] != y[i] {
            return false;
        }
        i += 1;
    }
    assert(x@ =~= y@);
    true
}

/// Whether `s` ends with `t`.
pub fn ends_with(s: &str, t: &str) -> (r: bool)
    ensures
        r == has_suffix(s@, t@),
{
    let n = s.unicode_len();
    let m = t.unicode_len();
    if m > n {
        return false;
    }
    str_eq(s.substring_char(n - m, n), t)
}

/// Whether `s` starts with `t`.
pub fn starts_with(s: &str, t: &str) -> (r: bool)
    ensures
        r == has_prefix(s@, t@),
{
    let n = s.unicode_len();
    let m = t.unicode_len();
    if m > n {
        return false;
    }
    str_eq(s.substring_char(0, m), t)
}

/// Whether `c` is white space.
pub fn white(c: char) -> (r: bool)
    ensures
        r == is_white(c),
{
    let u = c as u32;
    (0x09 <= u && u <= 0x0d) || u == 0x20 || u == 0x85 || u == 0xa0 || u == 0x1680 || (0x2000 <= u
        && u <= 0x200a) || u == 0x2028 || u == 0x2029 || u == 0x202f || u == 0x205f || u == 0x3000
}

/// `s` without white space at either end.
pub fn trim(s: &str) -> (r: &str)
    ensures
        r@ == trimmed(s@),
{
    let v = chars_of(s);
    let n = v.len();
    let mut from: usize = 0;
    assert(v@.subrange(0, n as int) =~= v@);
    while from < n && white(v[from])
        invariant
            from <= n == v.len(),
            trim_front(v@) == trim_front(v@.subrange(from as int, n as int)),
        decreases n - from,
    {
        assert(v@.subrange(from as int, n as int).subrange(1, n - from) =~= v@.subrange(
            from + 1,
            n as int,
        ));
        from += 1;
    }
    let ghost w = v@.subrange(from as int, n as int);
    assert(trim_front(v@) == w);
    let mut to: usize = n;
    assert(w.subrange(0, n - from) =~= w);
    while to > from && white(v[to - 1])
        invariant
            from <= to <= n == v.len(),
            w == v@.subrange(from as int, n as int),
            trim_back(w) == trim_back(w.subrange(0, to - from)),
        decreases to,
    {
        assert(w.subrange(0, to - from).drop_last() =~= w.subrange(0, to - from - 1));
        to -= 1;
    }
    proof {
        let z = w.subrange(0, to - from);
        assert(z.len() > 0 ==> z.last() == v@[to - 1]);
        assert(trim_back(z) == z);
        assert(z =~= s@.subrange(from as int, to as int));
    }
    s.substring_char(from, to)
}

/// The position of the first `c` in `v` at or after `from`.
pub fn find_char(v: &Vec<char>, c: char, from: usize) -> (r: usize)
    requires
        from <= v.len(),
    ensures
        r == position_from(v@, c, from as int),
        from <= r <= v.len(),
        r < v.len() ==> v@[r as int] == c,
        forall|k: int| from <= k < r ==> v@[k] != c,
{
    let mut i: usize = from;
    while i < v.len()
        invariant
            from <= i <= v.len(),
            position_from(v@, c, from as int) == position_from(v@, c, i as int),
            forall|k: int| from <= k < i ==> v@[k] != c,
        decreases v.len() - i,
    {
        if v[i] == c {
            return i;
        }
        i += 1;
    }
    i
}

/// Where the first `c` of a tail of `s` stands, counted from the start of the tail.
pub proof fn lemma_position_of_tail(s: Seq<char>, c: char, from: int, at: int)
    requires
        0 <= from <= at <= s.len(),
    ensures
        position_from(s.subrange(from, s.len() as int), c, at - from) == position_from(s, c, at)
            - from,
    decreases s.len() - at,
{
    if at < s.len() && s[at] != c {
        lemma_position_of_tail(s, c, from, at + 1);
    }
}

/// Cuts `s` at every `sep`.
pub fn split(s: &str, sep: char) -> (r: Vec<String>)
    ensures
        texts(r@) == split_all(s@, sep),
        r.len() >= 1,
{
    let v = chars_of(s);
    let n = v.len();
    let mut r: Vec<String> = Vec::new();
    let mut from: usize = 0;
    assert(v@.subrange(0, n as int) =~= v@);
    assert(texts(r@) + split_all(v@.subrange(0, n as int), sep) =~= split_all(
        s@,
        sep,
    ));
    loop
        invariant
            from <= n == v.len(),
            v@ == s@,
            texts(r@) + split_all(v@.subrange(from as int, n as int), sep)
                == split_all(s@, sep),
        decreases n - from,
    {
        let at = find_char(&v, sep, from);
        let ghost rest = v@.subrange(from as int, n as int);
        let ghost before = texts(r@);
        proof {
            lemma_position_of_tail(v@, sep, from as int, from as int);
        }
        let part = string_of(&slice_chars(&v, from, at));
        r.push(part);
        assert(texts(r@) =~= before.push(part@));
        if at >= n {
            assert(part@ =~= rest);
            assert(split_all(rest, sep) =~= seq![rest]);
            assert(before + seq![rest] =~= before.push(rest));
            return r;
        }
        proof {
            assert(part@ =~= rest.subrange(0, at - from));
            assert(rest.subrange(at - from + 1, rest.len() as int) =~= v@.subrange(
                at + 1,
                n as int,
            ));
            let tail = split_all(v@.subrange(at + 1, n as int), sep);
            assert(split_all(rest, sep) =~= seq![part@] + tail);
            assert(before + (seq![part@] + tail) =~= before.push(part@) + tail);
        }
        from = at + 1;
    }
}

/// Cuts `s` at the first `limit - 1` occurrences of `sep`.
pub fn splitn(s: &str, sep: char, limit: usize) -> (r: Vec<String>)
    requires
        limit >= 1,
    ensures
        texts(r@) == split_limit(s@, sep, limit as nat),
        1 <= r.len() <= limit,
{
    let v = chars_of(s);
    let n = v.len();
    let mut r: Vec<String> = Vec::new();
    let mut from: usize = 0;
    let mut left: usize = limit;
    assert(v@.subrange(0, n as int) =~= v@);
    assert(texts(r@) + split_limit(
        v@.subrange(0, n as int),
        sep,
        limit as nat,
    ) =~= split_limit(s@, sep, limit as nat));
    loop
        invariant
            from <= n == v.len(),
            v@ == s@,
            1 <= left <= limit,
            r.len() + left == limit,
            texts(r@) + split_limit(
                v@.subrange(from as int, n as int),
                sep,
                left as nat,
            ) == split_limit(s@, sep, limit as nat),
        decreases left,
    {
        let at = find_char(&v, sep, from);
        let ghost rest = v@.subrange(from as int, n as int);
        let ghost before = texts(r@);
        proof {
            lemma_position_of_tail(v@, sep, from as int, from as int);
        }
        if left == 1 || at >= n {
            let part = string_of(&slice_chars(&v, from, n));
            r.push(part);
            assert(texts(r@) =~= before.push(part@));
            assert(split_limit(rest, sep, left as nat) =~= seq![rest]);
            assert(before + seq![rest] =~= before.push(rest));
            return r;
        }
        let part = string_of(&slice_chars(&v, from, at));
        r.push(part);
        proof {
            assert(texts(r@) =~= before.push(part@));
            assert(part@ =~= rest.subrange(0, at - from));
            assert(rest.subrange(at - from + 1, rest.len() as int) =~= v@.subrange(
                at + 1,
                n as int,
            ));
            let tail = split_limit(v@.subrange(at + 1, n as int), sep, (left - 1) as nat);
            assert(split_limit(rest, sep, left as nat) =~= seq![part@] + tail);
            assert(before + (seq![part@] + tail) =~= before.push(part@) + tail);
        }
        from = at + 1;
        left -= 1;
    }
}

/// Reads an unsigned number: an optional plus sign and decimal digits.
pub fn parse_u64(s: &str) -> (r: Option<u64>)
    ensures
        r == (match parsed_number(s@, u64::MAX as nat) {
            Some(n) => Some(n as u64),
            None => None,
        }),
{
    let v = chars_of(s);
    let from: usize = if v.len() > 0 && v[0] == '+' {
        1
    } else {
        0
    };
    let ghost d = unsigned_part(s@);
    assert(d =~= v@.subrange(from as int, v.len() as int));
    if from >= v.len() {
        return None;
    }
    let mut i: usize = from;
    let mut value: u64 = 0;
    let mut fits: bool = true;
    while i < v.len()
        invariant
            from <= i <= v.len(),
            v@ == s@,
            d == v@.subrange(from as int, v.len() as int),
            d == unsigned_part(s@),
            d.len() > 0,
            forall|k: int| 0 <= k < i - from ==> is_digit(#[trigger] d[k]),
            fits ==> value == digits_value(d.take(i - from)),
            !fits ==> digits_value(d.take(i - from)) > u64::MAX,
        decreases v.len() - i,
    {
        let c = v[i];
        if !('0' <= c && c <= '9') {
            assert(!is_digit(d[i - from]));
            return None;
        }
        let x = (c as u32 - '0' as u32) as u64;
        proof {
            assert(d.take(i + 1 - from).drop_last() =~= d.take(i - from));
            assert(d.take(i + 1 - from).last() == c);
        }
        if fits {
            match value.checked_mul(10) {
                Some(m) => match m.checked_add(x) {
                    Some(w) => {
                        value = w;
                    },
                    None => {
                        fits = false;
                    },
                },
                None => {
                    fits = false;
                },
            }
        }
        i += 1;
    }
    assert(d.take(d.len() as int) =~= d);
    if fits {
        Some(value)
    } else {
        None
    }
}

/// Reads an unsigned number that fits in 32 bits.
pub fn parse_u32(s: &str) -> (r: Option<u32>)
    ensures
        r == (match parsed_number(s@, u32::MAX as nat) {
            Some(n) => Some(n as u32),
            None => None,
        }),
{
    match parse_u64(s) {
        Some(n) => if n <= 0xffff_ffff {
            Some(n as u32)
        } else {
            None
        },
        None => None,
    }
}

/// Appends `n` in `base` to `out`.
fn push_written(out: &mut String, n: u64, base: u64)
    requires
        2 <= base <= 16,
    ensures
        final(out)@ == old(out)@ + written(n as nat, base as nat),
    decreases n,
{
    if n >= base {
        proof {
            assert(n / base < n) by (nonlinear_arith)
                requires
                    n >= base,
                    base >= 2,
            ;
        }
        push_written(out, n / base, base);
    }
    let d = (n % base) as u8;
    let c = if d < 10 {
        (0x30 + d) as char
    } else {
        (0x61 + (d - 10)) as char
    };
    out.push(c);
    assert(c == digit_char((n % base) as nat));
    proof {
        if n >= base {
            assert(old(out)@ + written((n / base) as nat, base as nat).push(c) =~= out@);
        } else {
            assert(n % base == n) by (nonlinear_arith)
                requires
                    0 <= n < base,
            ;
            assert(old(out)@ + seq![c] =~= out@);
        }
    }
}

/// `n` in decimal.
pub fn to_decimal(n: u64) -> (r: String)
    ensures
        r@ == decimal(n as nat),
{
    let mut out = String::new();
    push_written(&mut out, n, 10);
    assert(out@ =~= decimal(n as nat));
    out
}

/// `n` in hexadecimal behind `0x`.
pub fn to_hexadecimal(n: u64) -> (r: String)
    ensures
        r@ == hexadecimal(n as nat),
{
    let mut out = String::new();
    out.push('0');
    out.push('x');
    push_written(&mut out, n, 16);
    assert(out@ =~= hexadecimal(n as nat));
    out
}

/// `a` followed by `b`.
pub fn concat(a: &str, b: &str) -> (r: String)
    ensures
        r@ == a@ + b@,
{
    let mut out = String::from_str(a);
    out.append(b);
    out
}

/// The strings of `parts` with `sep` between them.
pub open spec fn joined(parts: Seq<Seq<char>>, sep: Seq<char>) -> Seq<char>
    decreases parts.len(),
{
    if parts.len() == 0 {
        Seq::empty()
    } else if parts.len() == 1 {
        parts[0]
    } else {
        joined(parts.drop_last(), sep) + sep + parts.last()
    }
}

/// The characters of each string.
pub open spec fn texts(v: Seq<String>) -> Seq<Seq<char>> {
    v.map_values(|s: String| s@)
}

/// Puts `sep` between the strings of `parts`.
pub fn join(parts: &Vec<String>, sep: &str) -> (r: String)
    ensures
        r@ == joined(texts(parts@), sep@),
{
    let ghost all = texts(parts@);
    let mut r = String::new();
    let mut i: usize = 0;
    while i < parts.len()
        invariant
            i <= parts.len(),
            all == texts(parts@),
            r@ == joined(all.take(i as int), sep@),
        decreases parts.len() - i,
    {
        if i > 0 {
            r.append(sep);
        }
        r.append(parts[i].as_str());
        proof {
            assert(all.take(i + 1).drop_last() =~= all.take(i as int));
            assert(all.take(i + 1).last() == parts@[i as int]@);
            if i == 0 {
                assert(r@ =~= all.take(1)[0]);
            }
        }
        i += 1;
    }
    assert(all.take(i as int) =~= all);
    r
}

/// What `str::to_lowercase` makes of a string.
pub uninterp spec fn lowercase(s: Seq<char>) -> Seq<char>;

/// Calls `str::to_lowercase`: the lowercase form under the Unicode rules, which
/// depends on the characters alone and goes by the name `lowercase`.
#[verifier::external_body]
pub(crate) fn to_lowercase(s: &str) -> (r: String)
    ensures
        r@ == lowercase(s@),
{
    s.to_lowercase()
}

/// What `str::to_uppercase` makes of a string.
pub uninterp spec fn uppercase(s: Seq<char>) -> Seq<char>;

/// Calls `str::to_uppercase`: the uppercase form under the Unicode rules, which
/// depends on the characters alone and goes by the name `uppercase`.
#[verifier::external_body]
pub(crate) fn to_uppercase(s: &str) -> (r: String)
    ensures
        r@ == uppercase(s@),
{
    s.to_uppercase()
}

/// `s` with every `from` replaced by `to`.
pub open spec fn replaced(s: Seq<char>, from: char, to: char) -> Seq<char> {
    s.map_values(
        |c: char|
            if c == from {
                to
            } else {
                c
            },
    )
}

/// Replaces every `from` by `to`.
pub fn replace_char(s: &str, from: char, to: char) -> (r: String)
    ensures
        r@ == replaced(s@, from, to),
{
    let v = chars_of(s);
    let mut out = String::new();
    let mut i: usize = 0;
    while i < v.len()
        invariant
            i <= v.len(),
            v@ == s@,
            out@ == replaced(s@, from, to).take(i as int),
        decreases v.len() - i,
    {
        let c = v[i];
        out.push(
            if c == from {
                to
            } else {
                c
            },
        );
        assert(out@ =~= replaced(s@, from, to).take(i + 1));
        i += 1;
    }
    assert(out@ =~= replaced(s@, from, to));
    out
}

/// Calls `std::str::from_utf8`: bytes that are valid UTF-8 give the string that
/// they encode, other bytes give nothing.
#[verifier::external_body]
pub(crate) fn from_utf8(bytes: &[u8]) -> (r: Option<&str>)
    ensures
        match r {
            Some(s) => valid_utf8(bytes@) && s@ == decode_utf8(bytes@),
            None => !valid_utf8(bytes@),
        },
{
    std::str::from_utf8(bytes).ok()
}

/// The file name of a path without its extension, as `Path::file_stem` gives it.
pub uninterp spec fn path_stem(path: Seq<char>) -> Option<Seq<char>>;

/// Calls `Path::file_stem`: the final component of the path without its
/// extension, or nothing where the path has no file name. Under the path rules
/// of Unix systems, which this tool is for, it depends on the path alone; it
/// goes by the name `path_stem`.
#[verifier::external_body]
pub(crate) fn file_stem(path: &str) -> (r: Option<String>)
    ensures
        match r {
            Some(stem) => path_stem(path@) == Some(stem@),
            None => path_stem(path@) is None,
        },
{
    std::path::Path::new(path).file_stem().map(|s| s.to_string_lossy().into_owned())
}

/// Cuts a string at its first `sep`: what stands before it and behind it.
pub fn split_once(s: &str, sep: char) -> (r: Option<(String, String)>)
    ensures
        match r {
            Some((a, b)) => {
                let at = position_of(s@, sep);
                at < s@.len() && a@ == s@.take(at) && b@ == s@.skip(at + 1)
            },
            None => position_of(s@, sep) == s@.len(),
        },
{
    let v = chars_of(s);
    let at = find_char(&v, sep, 0);
    if at == v.len() {
        return None;
    }
    let a = string_of(&slice_chars(&v, 0, at));
    let b = string_of(&slice_chars(&v, at + 1, v.len()));
    assert(a@ =~= s@.take(at as int));
    assert(b@ =~= s@.skip(at + 1));
    Some((a, b))
}

/// Encoding goes character by character.
pub proof fn lemma_encode_concat(a: Seq<char>, b: Seq<char>)
    ensures
        encode_utf8(a + b) == encode_utf8(a) + encode_utf8(b),
    decreases a.len(),
{
    if a.len() == 0 {
        assert(a + b =~= b);
        assert(encode_utf8(a) + encode_utf8(b) =~= encode_utf8(b));
    } else {
        assert((a + b).drop_first() =~= a.drop_first() + b);
        lemma_encode_concat(a.drop_first(), b);
        assert(encode_utf8(a + b) =~= encode_utf8(a) + encode_utf8(b));
    }
}

/// A character takes at most four bytes.
pub proof fn lemma_encode_len(a: Seq<char>)
    ensures
        encode_utf8(a).len() <= 4 * a.len(),
    decreases a.len(),
{
    if a.len() > 0 {
        lemma_encode_len(a.drop_first());
    }
}

spec fn pow10(k: nat) -> nat
    decreases k,
{
    if k == 0 {
        1
    } else {
        10 * pow10((k - 1) as nat)
    }
}

proof fn lemma_written_len(n: nat, k: nat)
    requires
        k >= 1,
        n < pow10(k),
    ensures
        written(n, 10).len() <= k,
    decreases k,
{
    if n >= 10 {
        if k == 1 {
            assert(pow10(1) == 10) by {
                reveal_with_fuel(pow10, 2);
            }
        } else {
            lemma_written_len(n / 10, (k - 1) as nat);
        }
    }
}

/// A 64-bit number has at most twenty decimal digits.
pub proof fn lemma_decimal_len(n: u64)
    ensures
        decimal(n as nat).len() <= 20,
{
    assert(pow10(20) > u64::MAX) by {
        reveal_with_fuel(pow10, 21);
    }
    lemma_written_len(n as nat, 20);
}

} // verus!
