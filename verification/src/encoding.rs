//! Little-endian integers and fixed-width names inside byte records.

use crate::error::{Error, Fault};
use vstd::bytes::*;
use vstd::prelude::*;
use vstd::utf8::*;

verus! {

/// The 16-bit integer at `at`.
pub open spec fn u16_at(s: Seq<u8>, at: int) -> u16 {
    spec_u16_from_le_bytes(s.subrange(at, at + 2))
}

/// The 32-bit integer at `at`.
pub open spec fn u32_at(s: Seq<u8>, at: int) -> u32 {
    spec_u32_from_le_bytes(s.subrange(at, at + 4))
}

/// The 64-bit integer at `at`.
pub open spec fn u64_at(s: Seq<u8>, at: int) -> u64 {
    spec_u64_from_le_bytes(s.subrange(at, at + 8))
}

/// `n` zero bytes.
pub open spec fn zeros(n: int) -> Seq<u8> {
    Seq::new(n as nat, |i: int| 0u8)
}

/// `b` filled up with zero bytes to a length of `n`.
pub open spec fn padded(b: Seq<u8>, n: int) -> Seq<u8> {
    b + zeros(n - b.len())
}

/// The bytes of `s` before its first zero byte.
pub open spec fn until_zero(s: Seq<u8>) -> Seq<u8>
    decreases s.len(),
{
    if s.len() == 0 || s[0] == 0 {
        Seq::empty()
    } else {
        seq![s[0]] + until_zero(s.subrange(1, s.len() as int))
    }
}

/// `s` with `b` written over the bytes from `at` on.
pub open spec fn overwritten(s: Seq<u8>, at: int, b: Seq<u8>) -> Seq<u8> {
    s.subrange(0, at) + b + s.subrange(at + b.len(), s.len() as int)
}

/// What `String::from_utf8_lossy` makes of a byte string that is not UTF-8.
pub uninterp spec fn lossy_utf8(bytes: Seq<u8>) -> Seq<char>;

/// The characters of a stored name: those that its bytes encode, or what
/// stands for bytes that are not UTF-8.
pub open spec fn name_chars(bytes: Seq<u8>) -> Seq<char> {
    if valid_utf8(bytes) {
        decode_utf8(bytes)
    } else {
        lossy_utf8(bytes)
    }
}

/// Calls `String::from_utf8_lossy`: bytes that are valid UTF-8 give the
/// characters that they encode; what comes of other bytes goes by the name
/// `lossy_utf8`.
#[verifier::external_body]
pub(crate) fn from_utf8_lossy(bytes: &[u8]) -> (s: String)
    ensures
        valid_utf8(bytes@) ==> s@ == decode_utf8(bytes@),
        !valid_utf8(bytes@) ==> s@ == lossy_utf8(bytes@),
{
    String::from_utf8_lossy(bytes).into_owned()
}

/// The name stored in `len` bytes at `at`, cut off at the end of the record.
pub open spec fn string_at(data: Seq<u8>, at: int, len: int) -> Seq<char> {
    let end = if at + len < data.len() {
        at + len
    } else {
        data.len() as int
    };
    if at > data.len() {
        Seq::empty()
    } else {
        name_chars(until_zero(data.subrange(at, end)))
    }
}

/// Whether `width` bytes at `offset` lie inside `len` bytes.
fn in_record(len: usize, offset: usize, width: usize) -> (r: bool)
    ensures
        r == (offset + width <= len),
{
    offset <= len && width <= len - offset
}

pub fn read_u16(data: &Vec<u8>, offset: usize) -> (r: Result<u16, Error>)
    ensures
        r == (if offset + 2 <= data.len() {
            Ok(u16_at(data@, offset as int))
        } else {
            Err(Error::Invalid(Fault::FieldMissing))
        }),
{
    if !in_record(data.len(), offset, 2) {
        return Err(Error::Invalid(Fault::FieldMissing));
    }
    Ok(u16_from_le_bytes(vstd::slice::slice_subrange(data.as_slice(), offset, offset + 2)))
}

pub fn read_u32(data: &Vec<u8>, offset: usize) -> (r: Result<u32, Error>)
    ensures
        r == (if offset + 4 <= data.len() {
            Ok(u32_at(data@, offset as int))
        } else {
            Err(Error::Invalid(Fault::FieldMissing))
        }),
{
    if !in_record(data.len(), offset, 4) {
        return Err(Error::Invalid(Fault::FieldMissing));
    }
    Ok(u32_from_le_bytes(vstd::slice::slice_subrange(data.as_slice(), offset, offset + 4)))
}

pub fn read_u64(data: &Vec<u8>, offset: usize) -> (r: Result<u64, Error>)
    ensures
        r == (if offset + 8 <= data.len() {
            Ok(u64_at(data@, offset as int))
        } else {
            Err(Error::Invalid(Fault::FieldMissing))
        }),
{
    if !in_record(data.len(), offset, 8) {
        return Err(Error::Invalid(Fault::FieldMissing));
    }
    Ok(u64_from_le_bytes(vstd::slice::slice_subrange(data.as_slice(), offset, offset + 8)))
}

/// A byte string without zero bytes up to `k` has them all before its first zero.
proof fn lemma_until_zero_prefix(s: Seq<u8>, k: int)
    requires
        0 <= k <= s.len(),
        forall|i: int| 0 <= i < k ==> s[i] != 0,
        k < s.len() ==> s[k] == 0,
    ensures
        until_zero(s) == s.subrange(0, k),
    decreases s.len(),
{
    if k > 0 {
        let t = s.subrange(1, s.len() as int);
        lemma_until_zero_prefix(t, k - 1);
        assert(seq![s[0]] + t.subrange(0, k - 1) =~= s.subrange(0, k));
    } else {
        assert(s.subrange(0, 0) =~= Seq::<u8>::empty());
    }
}

/// Reads the name stored in `len` bytes at `offset`, up to its first zero byte.
pub fn read_string(data: &Vec<u8>, offset: usize, len: usize) -> (r: String)
    ensures
        offset <= data.len() ==> r@ == string_at(data@, offset as int, len as int),
        offset > data.len() ==> r@.len() == 0,
{
    if offset > data.len() {
        return String::new();
    }
    let end = if len <= data.len() - offset {
        offset + len
    } else {
        data.len()
    };
    let mut i: usize = offset;
    while i < end && data[i] != 0
        invariant
            offset <= i <= end <= data.len(),
            forall|k: int| offset <= k < i ==> data@[k] != 0,
        decreases end - i,
    {
        i += 1;
    }
    proof {
        let field = data@.subrange(offset as int, end as int);
        lemma_until_zero_prefix(field, i - offset);
        assert(field.subrange(0, i - offset) =~= data@.subrange(offset as int, i as int));
    }
    from_utf8_lossy(vstd::slice::slice_subrange(data.as_slice(), offset, i))
}

/// Appends `src` to `out`.
pub fn push_bytes(out: &mut Vec<u8>, src: &[u8])
    ensures
        final(out)@ == old(out)@ + src@,
{
    out.extend_from_slice(src);
    assert(out@ =~= old(out)@ + src@);
}

/// Appends `n` zero bytes to `out`.
pub fn push_zeros(out: &mut Vec<u8>, n: usize)
    requires
        old(out).len() + n <= usize::MAX,
    ensures
        final(out)@ == old(out)@ + zeros(n as int),
{
    let len = out.len();
    out.resize(len + n, 0);
    assert(out@ =~= old(out)@ + zeros(n as int)) by {
        if n > 0 {
            assert forall|i: int| 0 <= i < len implies out@[i] == old(out)@[i] by {
                assert(out@[i] == out@.subrange(0, len as int)[i]);
            }
        } else {
            assert(old(out)@.subrange(0, len as int) =~= old(out)@);
        }
    }
}

/// Appends an integer to `out`.
pub fn push_u16(out: &mut Vec<u8>, v: u16)
    ensures
        final(out)@ == old(out)@ + spec_u16_to_le_bytes(v),
{
    let mut bytes = u16_to_le_bytes(v);
    out.append(&mut bytes);
}

/// Appends an integer to `out`.
pub fn push_u32(out: &mut Vec<u8>, v: u32)
    ensures
        final(out)@ == old(out)@ + spec_u32_to_le_bytes(v),
{
    let mut bytes = u32_to_le_bytes(v);
    out.append(&mut bytes);
}

/// Appends an integer to `out`.
pub fn push_u64(out: &mut Vec<u8>, v: u64)
    ensures
        final(out)@ == old(out)@ + spec_u64_to_le_bytes(v),
{
    let mut bytes = u64_to_le_bytes(v);
    out.append(&mut bytes);
}

/// The widths of stored integers.
pub proof fn lemma_widths()
    ensures
        forall|v: u16| (#[trigger] spec_u16_to_le_bytes(v)).len() == 2,
        forall|v: u32| (#[trigger] spec_u32_to_le_bytes(v)).len() == 4,
        forall|v: u64| (#[trigger] spec_u64_to_le_bytes(v)).len() == 8,
{
    lemma_auto_spec_u16_to_from_le_bytes();
    lemma_auto_spec_u32_to_from_le_bytes();
    lemma_auto_spec_u64_to_from_le_bytes();
}

/// Whether two byte strings are equal.
pub fn bytes_eq(a: &[u8], b: &[u8]) -> (r: bool)
    ensures
        r == (a@ == b@),
{
    if a.len() != b.len() {
        return false;
    }
    let mut i: usize = 0;
    while i < a.len()
        invariant
            i <= a.len() == b.len(),
            forall|k: int| 0 <= k < i ==> a@[k] == b@[k],
        decreases a.len() - i,
    {
        if a[i] != b[i] {
            return false;
        }
        i += 1;
    }
    assert(a@ =~= b@);
    true
}

/// The bytes of `data` from `from` up to `to`.
pub fn copy_range(data: &Vec<u8>, from: usize, to: usize) -> (r: Vec<u8>)
    requires
        from <= to <= data.len(),
    ensures
        r@ == data@.subrange(from as int, to as int),
{
    vstd::slice::slice_to_vec(vstd::slice::slice_subrange(data.as_slice(), from, to))
}

/// A copy of `data` with the bytes from `from` up to `to` set to zero.
pub fn zeroed(data: &Vec<u8>, from: usize, to: usize) -> (r: Vec<u8>)
    requires
        from <= to <= data.len(),
    ensures
        r@ == overwritten(data@, from as int, zeros(to - from)),
{
    let mut r = copy_range(data, 0, from);
    push_zeros(&mut r, to - from);
    push_bytes(&mut r, vstd::slice::slice_subrange(data.as_slice(), to, data.len()));
    r
}

/// `a * b`, capped at the largest 64-bit value.
pub open spec fn sat_mul(a: u64, b: u64) -> u64 {
    if a * b <= u64::MAX {
        (a * b) as u64
    } else {
        u64::MAX
    }
}

/// Multiplies, capping the result at the largest 64-bit value.
pub fn saturating_mul(a: u64, b: u64) -> (r: u64)
    ensures
        r == sat_mul(a, b),
{
    match a.checked_mul(b) {
        Some(v) => v,
        None => u64::MAX,
    }
}

/// A stored integer reads back as itself.
pub proof fn lemma_u16_stored(s: Seq<u8>, at: int, v: u16)
    requires
        0 <= at,
        at + 2 <= s.len(),
        s.subrange(at, at + 2) == spec_u16_to_le_bytes(v),
    ensures
        u16_at(s, at) == v,
{
    lemma_auto_spec_u16_to_from_le_bytes();
    assert(spec_u16_to_le_bytes(v).len() == 2);
}

/// A stored integer reads back as itself.
pub proof fn lemma_u32_stored(s: Seq<u8>, at: int, v: u32)
    requires
        0 <= at,
        at + 4 <= s.len(),
        s.subrange(at, at + 4) == spec_u32_to_le_bytes(v),
    ensures
        u32_at(s, at) == v,
{
    lemma_auto_spec_u32_to_from_le_bytes();
    assert(spec_u32_to_le_bytes(v).len() == 4);
}

/// A stored integer reads back as itself.
pub proof fn lemma_u64_stored(s: Seq<u8>, at: int, v: u64)
    requires
        0 <= at,
        at + 8 <= s.len(),
        s.subrange(at, at + 8) == spec_u64_to_le_bytes(v),
    ensures
        u64_at(s, at) == v,
{
    lemma_auto_spec_u64_to_from_le_bytes();
    assert(spec_u64_to_le_bytes(v).len() == 8);
}

/// An integer inside a piece is the integer at that place of the whole.
pub proof fn lemma_piece(s: Seq<u8>, from: int, to: int, at: int)
    requires
        0 <= from <= to <= s.len(),
        0 <= at,
    ensures
        from + at + 2 <= to ==> u16_at(s.subrange(from, to), at) == u16_at(s, from + at),
        from + at + 4 <= to ==> u32_at(s.subrange(from, to), at) == u32_at(s, from + at),
        from + at + 8 <= to ==> u64_at(s.subrange(from, to), at) == u64_at(s, from + at),
{
    let piece = s.subrange(from, to);
    if from + at + 2 <= to {
        assert(piece.subrange(at, at + 2) =~= s.subrange(from + at, from + at + 2));
    }
    if from + at + 4 <= to {
        assert(piece.subrange(at, at + 4) =~= s.subrange(from + at, from + at + 4));
    }
    if from + at + 8 <= to {
        assert(piece.subrange(at, at + 8) =~= s.subrange(from + at, from + at + 8));
    }
}

/// A padded name without zero bytes reads up to its padding.
pub proof fn lemma_until_zero_padded(b: Seq<u8>, n: int)
    requires
        b.len() <= n,
        forall|i: int| 0 <= i < b.len() ==> b[i] != 0,
    ensures
        until_zero(padded(b, n)) == b,
{
    lemma_until_zero_prefix(padded(b, n), b.len() as int);
    assert(padded(b, n).subrange(0, b.len() as int) =~= b);
}

} // verus!
