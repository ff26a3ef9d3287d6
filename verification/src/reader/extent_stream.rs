//! Reading a partition through its chain of extents.

use crate::encoding::{push_zeros, sat_mul, saturating_mul};
use crate::error::{Error, Fault};
use crate::format::{Extent, LP_SECTOR_SIZE, LP_TARGET_TYPE_LINEAR, LP_TARGET_TYPE_ZERO};
use crate::reader::data::capped;
use crate::reader::source::{BlockSource, Image};
use vstd::prelude::*;

verus! {

/// Something that holds the data of extents, by the index of their device.
pub trait ExtentSource: Sized {
    /// What the device holds, where it is bound.
    spec fn device(&self, source: u32) -> Option<Seq<u8>>;

    /// Whether every read inside a bound device succeeds.
    spec fn steady(&self) -> bool;

    /// Whether a read of `len` bytes at `offset` of a bound device, inside it,
    /// succeeds.
    spec fn sure_on(&self, source: u32, offset: int, len: int) -> bool;

    fn read_device(&self, source: u32, offset: u64, len: usize) -> (r: Result<Vec<u8>, Error>)
        ensures
            match self.device(source) {
                None => r == Err::<Vec<u8>, Error>(
                    Error::NotFound(Fault::NotBound { index: source }),
                ),
                Some(c) => match r {
                    Ok(data) => {
                        &&& offset + len <= c.len()
                        &&& data@ == c.subrange(offset as int, offset + len)
                    },
                    Err(e) => if offset + len > c.len() {
                        e == Error::Invalid(Fault::ReadRange)
                    } else {
                        e == Error::Io && !self.steady() && !self.sure_on(
                            source,
                            offset as int,
                            len as int,
                        )
                    },
                },
            },
    ;
}

/// A single image holds the data of every extent.
impl<F: BlockSource> ExtentSource for Image<F> {
    open spec fn device(&self, source: u32) -> Option<Seq<u8>> {
        Some(self.bytes())
    }

    open spec fn steady(&self) -> bool {
        self.reliable()
    }

    open spec fn sure_on(&self, source: u32, offset: int, len: int) -> bool {
        self.sure_at(offset, len)
    }

    fn read_device(&self, source: u32, offset: u64, len: usize) -> (r: Result<Vec<u8>, Error>) {
        self.read_at(offset, len)
    }
}

/// The length of an extent in bytes.
pub open spec fn extent_len(e: Extent) -> int {
    sat_mul(e.num_sectors, 512) as int
}

/// The length of a chain of extents.
pub open spec fn chain_len(extents: Seq<Extent>) -> int
    decreases extents.len(),
{
    if extents.len() == 0 {
        0
    } else {
        chain_len(extents.drop_last()) + extent_len(extents.last())
    }
}

/// The byte at `i` of an extent.
pub open spec fn extent_byte<D: ExtentSource>(d: &D, e: Extent, i: int) -> u8 {
    if e.target_type == LP_TARGET_TYPE_LINEAR {
        d.device(e.target_source)->Some_0[e.target_data * 512 + i]
    } else {
        0
    }
}

/// The data of an extent.
pub open spec fn extent_data<D: ExtentSource>(d: &D, e: Extent) -> Seq<u8> {
    Seq::new(extent_len(e) as nat, |i: int| extent_byte(d, e, i))
}

/// The data of a chain of extents.
pub open spec fn chain_data<D: ExtentSource>(d: &D, extents: Seq<Extent>) -> Seq<u8>
    decreases extents.len(),
{
    if extents.len() == 0 {
        Seq::empty()
    } else {
        chain_data(d, extents.drop_last()) + extent_data(d, extents.last())
    }
}

/// What stops a read of `n` bytes at `from` of an extent.
pub open spec fn extent_fault<D: ExtentSource>(d: &D, e: Extent, from: int, n: int) -> Option<
    Error,
> {
    let at = e.target_data * 512 + from;
    if e.target_type == LP_TARGET_TYPE_LINEAR {
        if at > u64::MAX {
            Some(Error::Invalid(Fault::PhysicalOffset))
        } else {
            match d.device(e.target_source) {
                None => Some(Error::NotFound(Fault::NotBound { index: e.target_source })),
                Some(c) => if at + n > c.len() {
                    Some(Error::Invalid(Fault::ReadRange))
                } else {
                    None
                },
            }
        }
    } else if e.target_type == LP_TARGET_TYPE_ZERO {
        None
    } else {
        Some(Error::Invalid(Fault::ExtentType { target_type: e.target_type }))
    }
}

/// What stops a read of `n` bytes at `from` of a chain, counted from the start
/// of its `k`-th extent.
pub open spec fn chain_fault<D: ExtentSource>(
    d: &D,
    extents: Seq<Extent>,
    k: int,
    from: int,
    n: int,
) -> Option<Error>
    decreases extents.len() - k,
{
    if k < 0 || k >= extents.len() || n <= 0 {
        None
    } else {
        let rest = extent_len(extents[k]) - from;
        let take = if rest < n {
            rest
        } else {
            n
        };
        if take <= 0 {
            chain_fault(d, extents, k + 1, from - extent_len(extents[k]), n)
        } else {
            match extent_fault(d, extents[k], from, take) {
                Some(e) => Some(e),
                None => chain_fault(d, extents, k + 1, 0, n - take),
            }
        }
    }
}

/// How many bytes of a read are done when it meets its fault.
pub open spec fn before_fault<D: ExtentSource>(
    d: &D,
    extents: Seq<Extent>,
    k: int,
    from: int,
    n: int,
) -> int
    decreases extents.len() - k,
{
    if k < 0 || k >= extents.len() || n <= 0 {
        0
    } else {
        let rest = extent_len(extents[k]) - from;
        let take = if rest < n {
            rest
        } else {
            n
        };
        if take <= 0 {
            before_fault(d, extents, k + 1, from - extent_len(extents[k]), n)
        } else {
            match extent_fault(d, extents[k], from, take) {
                Some(_) => 0,
                None => take + before_fault(d, extents, k + 1, 0, n - take),
            }
        }
    }
}

/// Whether a read, after `done` bytes that meet no fault, comes to a piece of an
/// extent whose device may fail to answer.
pub open spec fn may_stall<D: ExtentSource>(
    d: &D,
    extents: Seq<Extent>,
    k: int,
    from: int,
    n: int,
    done: int,
) -> bool
    decreases extents.len() - k,
{
    if k < 0 || k >= extents.len() || n <= 0 {
        false
    } else {
        let e = extents[k];
        let rest = extent_len(e) - from;
        let take = if rest < n {
            rest
        } else {
            n
        };
        if take <= 0 {
            may_stall(d, extents, k + 1, from - extent_len(e), n, done)
        } else if done == 0 {
            e.target_type == LP_TARGET_TYPE_LINEAR && !d.sure_on(
                e.target_source,
                e.target_data * 512 + from,
                take,
            )
        } else {
            extent_fault(d, e, from, take) is None && may_stall(
                d,
                extents,
                k + 1,
                0,
                n - take,
                done - take,
            )
        }
    }
}

/// Whether a read of `len` bytes at `at` of a chain can end in this error, at
/// `end`: over its fault, with all that comes before read, or over a device that
/// did not answer, with all pieces before read whole.
pub open spec fn read_stuck<D: ExtentSource>(
    d: &D,
    extents: Seq<Extent>,
    at: int,
    len: int,
    e: Error,
    end: int,
) -> bool {
    ||| chain_fault(d, extents, 0, at, len) == Some(e) && end == at + before_fault(
        d,
        extents,
        0,
        at,
        len,
    )
    ||| e == Error::Io && !d.steady() && may_stall(d, extents, 0, at, len, end - at)
}

/// Whether every byte of an extent can be read.
pub open spec fn readable<D: ExtentSource>(d: &D, e: Extent) -> bool {
    ||| e.target_type == LP_TARGET_TYPE_ZERO
    ||| e.target_type == LP_TARGET_TYPE_LINEAR && e.target_data * 512 + extent_len(e) <= u64::MAX
        && (d.device(e.target_source) matches Some(c) && e.target_data * 512 + extent_len(e)
        <= c.len())
}

/// No read fails on a chain whose extents all lie on bound devices.
pub proof fn law_chain_readable<D: ExtentSource>(
    d: &D,
    extents: Seq<Extent>,
    k: int,
    from: int,
    n: int,
)
    requires
        forall|i: int| 0 <= i < extents.len() ==> readable(d, #[trigger] extents[i]),
        0 <= k,
        0 <= from,
    ensures
        chain_fault(d, extents, k, from, n) is None,
    decreases extents.len() - k,
{
    if k < extents.len() && n > 0 {
        let e = extents[k];
        let rest = extent_len(e) - from;
        let take = if rest < n {
            rest
        } else {
            n
        };
        if take <= 0 {
            law_chain_readable(d, extents, k + 1, from - extent_len(e), n);
        } else {
            assert(readable(d, e));
            law_chain_readable(d, extents, k + 1, 0, n - take);
        }
    }
}

/// The fault of a read, counted from the start of the chain.
proof fn lemma_fault_at<D: ExtentSource>(
    d: &D,
    extents: Seq<Extent>,
    k: int,
    from: int,
    n: int,
)
    requires
        0 <= k <= extents.len(),
        0 <= from,
    ensures
        chain_fault(d, extents, 0, chain_len(extents.take(k)) + from, n) == chain_fault(
            d,
            extents,
            k,
            from,
            n,
        ),
        before_fault(d, extents, 0, chain_len(extents.take(k)) + from, n) == before_fault(
            d,
            extents,
            k,
            from,
            n,
        ),
        forall|done: int| #[trigger]
            may_stall(d, extents, 0, chain_len(extents.take(k)) + from, n, done) == may_stall(
                d,
                extents,
                k,
                from,
                n,
                done,
            ),
    decreases k,
{
    if k > 0 {
        lemma_chain_len(extents, k - 1);
        lemma_fault_at(d, extents, k - 1, extent_len(extents[k - 1]) + from, n);
    }
}

pub proof fn lemma_chain_len(extents: Seq<Extent>, k: int)
    requires
        0 <= k <= extents.len(),
    ensures
        0 <= chain_len(extents.take(k)) <= chain_len(extents),
        k < extents.len() ==> chain_len(extents.take(k + 1)) == chain_len(extents.take(k))
            + extent_len(extents[k]),
        k < extents.len() ==> chain_len(extents.take(k + 1)) <= chain_len(extents),
    decreases extents.len(),
{
    if k == extents.len() {
        assert(extents.take(k) =~= extents);
        if k > 0 {
            lemma_chain_len(extents.drop_last(), k - 1);
            assert(extents.drop_last().take(k - 1) =~= extents.drop_last());
        }
    } else {
        let t = extents.drop_last();
        lemma_chain_len(t, k);
        assert(t.take(k) =~= extents.take(k));
        assert(extents.take(k + 1).drop_last() =~= extents.take(k));
        if k + 1 < extents.len() {
            assert(t.take(k + 1) =~= extents.take(k + 1));
        } else {
            assert(extents.take(k + 1) =~= extents);
        }
    }
}

pub proof fn lemma_chain_data<D: ExtentSource>(d: &D, extents: Seq<Extent>, k: int)
    requires
        0 <= k < extents.len(),
    ensures
        chain_data(d, extents).len() == chain_len(extents),
        forall|i: int|
            0 <= i < extent_len(extents[k]) ==> #[trigger] chain_data(d, extents)[chain_len(
                extents.take(k),
            ) + i] == extent_byte(d, extents[k], i),
    decreases extents.len(),
{
    let t = extents.drop_last();
    let last = extent_data(d, extents.last());
    assert(last.len() == extent_len(extents.last()));
    assert(chain_data(d, extents) == chain_data(d, t) + last);
    if k < t.len() {
        lemma_chain_data(d, t, k);
        assert(t.take(k) =~= extents.take(k));
        lemma_chain_len(t, k);
    } else {
        if t.len() > 0 {
            lemma_chain_data(d, t, t.len() - 1);
        }
        assert(extents.take(k) =~= t);
        lemma_chain_len(t, t.len() as int);
        assert(t.take(t.len() as int) =~= t);
    }
}

/// What is read of a chain has the length of its extents together.
pub proof fn law_chain_size<D: ExtentSource>(d: &D, extents: Seq<Extent>)
    ensures
        chain_data(d, extents).len() == chain_len(extents),
{
    if extents.len() > 0 {
        lemma_chain_data(d, extents, 0);
    }
}

/// The data of two chains one after the other.
pub proof fn lemma_chain_data_append<D: ExtentSource>(d: &D, a: Seq<Extent>, b: Seq<Extent>)
    ensures
        chain_data(d, a + b) == chain_data(d, a) + chain_data(d, b),
    decreases b.len(),
{
    if b.len() == 0 {
        assert(a + b =~= a);
        assert(chain_data(d, a) + chain_data(d, b) =~= chain_data(d, a));
    } else {
        lemma_chain_data_append(d, a, b.drop_last());
        assert((a + b).drop_last() =~= a + b.drop_last());
        assert((a + b).last() == b.last());
        assert(chain_data(d, a + b) =~= chain_data(d, a) + chain_data(d, b));
    }
}

/// A part of the data of an extent.
spec fn extent_part<D: ExtentSource>(d: &D, e: Extent, from: int, n: int) -> Seq<u8> {
    Seq::new(n as nat, |i: int| extent_byte(d, e, from + i))
}

proof fn lemma_chain_part<D: ExtentSource>(
    d: &D,
    extents: Seq<Extent>,
    k: int,
    from: int,
    n: int,
)
    requires
        0 <= k < extents.len(),
        0 <= from,
        0 <= n,
        from + n <= extent_len(extents[k]),
    ensures
        ({
            let here = chain_len(extents.take(k)) + from;
            &&& 0 <= here
            &&& here + n <= chain_data(d, extents).len()
            &&& chain_data(d, extents).subrange(here, here + n) == extent_part(
                d,
                extents[k],
                from,
                n,
            )
        }),
{
    let all = chain_data(d, extents);
    let base = chain_len(extents.take(k));
    let part = extent_part(d, extents[k], from, n);
    lemma_chain_data(d, extents, k);
    lemma_chain_len(extents, k);
    let piece = all.subrange(base + from, base + from + n);
    assert forall|i: int| 0 <= i < n implies piece[i] == part[i] by {
        assert(all[base + (from + i)] == extent_byte(d, extents[k], from + i));
    }
    assert(piece =~= part);
}

/// A partition that is read from front to back, and how far that got.
pub struct ExtentReader<'a, D: ExtentSource> {
    source: &'a D,
    extents: Vec<Extent>,
    current_extent: usize,
    current_offset: u64,
    total_size: u64,
    position: u64,
}

/// Size of the pieces in which a chain is streamed out.
pub const STREAM_CHUNK: usize = 1_048_576;

/// Size of the pieces in which a chain is passed over.
pub const SKIP_CHUNK: usize = 65_536;

/// How many of `len` bytes are left of a chain.
pub open spec fn left_of(extents: Seq<Extent>, at: int, len: int) -> int {
    if at >= u64::MAX {
        0
    } else if chain_len(extents) - at < len {
        chain_len(extents) - at
    } else {
        len
    }
}

/// What a read of up to `len` bytes gives and where it ends.
pub open spec fn read_step<'a, D: ExtentSource>(
    before: ExtentReader<'a, D>,
    after: ExtentReader<'a, D>,
    len: int,
    r: Result<Vec<u8>, Error>,
) -> bool {
    let d = before.source();
    let at = before.at();
    let fault = chain_fault(&d, before.extents(), 0, at, len);
    let n = left_of(before.extents(), at, len);
    &&& after.extents() == before.extents()
    &&& after.source() == d
    &&& match r {
        Ok(data) => {
            &&& data@.len() == n
            &&& data@ == chain_data(&d, before.extents()).subrange(at, at + n)
            &&& after.at() == at + n
            &&& n > 0 ==> fault is None
        },
        Err(e) => n > 0 && read_stuck(&d, before.extents(), at, len, e, after.at()) && at
            <= after.at() <= at + n,
    }
}

/// The smaller of a number of bytes and the size of a piece.
pub open spec fn piece_of(left: int, chunk: int) -> int {
    if left < chunk {
        left
    } else {
        chunk
    }
}

/// What stops passing over `left` bytes at `at` of a chain, piece by piece.
pub open spec fn skip_fault<D: ExtentSource>(d: &D, extents: Seq<Extent>, at: int, left: int) -> Option<
    Error,
>
    decreases left,
{
    let want = piece_of(left, SKIP_CHUNK as int);
    let n = left_of(extents, at, want);
    if left <= 0 || n <= 0 {
        None
    } else {
        match chain_fault(d, extents, 0, at, want) {
            Some(e) => Some(e),
            None => skip_fault(d, extents, at + n, left - n),
        }
    }
}

/// Whether passing over `left` bytes at `at` of a chain can end in this error, at
/// `end`: some piece fails so, and all before it were read whole.
pub open spec fn skip_stuck<D: ExtentSource>(
    d: &D,
    extents: Seq<Extent>,
    at: int,
    left: int,
    e: Error,
    end: int,
) -> bool
    decreases left,
{
    let want = piece_of(left, SKIP_CHUNK as int);
    let n = left_of(extents, at, want);
    left > 0 && n > 0 && (read_stuck(d, extents, at, want, e, end) || (chain_fault(
        d,
        extents,
        0,
        at,
        want,
    ) is None && skip_stuck(d, extents, at + n, left - n, e, end)))
}

/// Where passing over `left` bytes at `at` of a chain ends.
pub open spec fn skip_end(extents: Seq<Extent>, at: int, left: int) -> int
    decreases left,
{
    let n = left_of(extents, at, piece_of(left, SKIP_CHUNK as int));
    if left <= 0 || n <= 0 {
        at
    } else {
        skip_end(extents, at + n, left - n)
    }
}

/// Passing over bytes ends behind them, or at the end of the chain.
pub proof fn law_skip_end(extents: Seq<Extent>, at: int, left: int)
    requires
        0 <= at <= chain_len(extents) <= u64::MAX,
        0 <= left,
    ensures
        skip_end(extents, at, left) == (if at + left < chain_len(extents) {
            at + left
        } else {
            chain_len(extents)
        }),
    decreases left,
{
    let n = left_of(extents, at, piece_of(left, SKIP_CHUNK as int));
    if left > 0 && n > 0 {
        law_skip_end(extents, at + n, left - n);
    }
}

/// What the pieces of the `left` bytes at `at` of a chain give together, taken up
/// to the first empty one.
pub open spec fn pieces_from<D: ExtentSource>(
    d: &D,
    extents: Seq<Extent>,
    at: int,
    left: int,
) -> Seq<u8>
    decreases left,
{
    let n = left_of(extents, at, piece_of(left, STREAM_CHUNK as int));
    if left <= 0 || n <= 0 {
        Seq::empty()
    } else {
        chain_data(d, extents).subrange(at, at + n) + pieces_from(d, extents, at + n, left - n)
    }
}

/// The pieces of a part of a chain are that part.
pub proof fn law_pieces<D: ExtentSource>(d: &D, extents: Seq<Extent>, at: int, left: int)
    requires
        0 <= at,
        0 <= left,
        at + left <= chain_len(extents) <= u64::MAX,
    ensures
        pieces_from(d, extents, at, left) == chain_data(d, extents).subrange(at, at + left),
    decreases left,
{
    let all = chain_data(d, extents);
    let n = left_of(extents, at, piece_of(left, STREAM_CHUNK as int));
    law_chain_size(d, extents);
    if left > 0 {
        law_pieces(d, extents, at + n, left - n);
        assert(all.subrange(at, at + n) + all.subrange(at + n, at + left) =~= all.subrange(
            at,
            at + left,
        ));
    } else {
        assert(all.subrange(at, at) =~= Seq::<u8>::empty());
    }
}

/// Passing over any part of a chain succeeds where its extents all lie on bound
/// devices.
pub proof fn law_chain_skippable<D: ExtentSource>(d: &D, extents: Seq<Extent>, at: int, left: int)
    requires
        forall|i: int| 0 <= i < extents.len() ==> readable(d, #[trigger] extents[i]),
        0 <= at,
    ensures
        skip_fault(d, extents, at, left) is None,
    decreases left,
{
    let want = piece_of(left, SKIP_CHUNK as int);
    let n = left_of(extents, at, want);
    if left > 0 && n > 0 {
        law_chain_readable(d, extents, 0, at, want);
        law_chain_skippable(d, extents, at + n, left - n);
    }
}

impl<'a, D: ExtentSource> ExtentReader<'a, D> {
    /// Where the data lies.
    pub closed spec fn source(&self) -> D {
        *self.source
    }

    pub closed spec fn extents(&self) -> Seq<Extent> {
        self.extents@
    }

    /// How many bytes were read.
    pub closed spec fn at(&self) -> int {
        chain_len(self.extents@.take(self.current_extent as int)) + self.current_offset
    }

    pub closed spec fn wf(&self) -> bool {
        &&& self.current_extent <= self.extents@.len()
        &&& self.current_extent < self.extents@.len() ==> self.current_offset <= extent_len(
            self.extents@[self.current_extent as int],
        )
        &&& self.current_extent == self.extents@.len() ==> self.current_offset == 0
        &&& self.total_size == capped(chain_len(self.extents@))
        &&& self.position == capped(self.at())
    }

    /// The start of a chain.
    pub fn new(source: &'a D, extents: Vec<Extent>) -> (r: ExtentReader<'a, D>)
        ensures
            r.wf(),
            r.source() == *source,
            r.extents() == extents@,
            r.at() == 0,
    {
        let mut total_size: u64 = 0;
        let mut i: usize = 0;
        while i < extents.len()
            invariant
                i <= extents.len(),
                total_size == capped(chain_len(extents@.take(i as int))),
            decreases extents.len() - i,
        {
            proof {
                lemma_chain_len(extents@, i as int);
            }
            total_size =
            total_size.saturating_add(saturating_mul(extents[i].num_sectors, LP_SECTOR_SIZE));
            i += 1;
        }
        assert(extents@.take(i as int) =~= extents@);
        ExtentReader {
            source,
            extents,
            current_extent: 0,
            current_offset: 0,
            total_size,
            position: 0,
        }
    }

    pub fn total_size(&self) -> (r: u64)
        requires
            self.wf(),
        ensures
            r == capped(chain_len(self.extents())),
    {
        self.total_size
    }

    /// Reads the next piece of the `left` bytes that are still wanted; it is
    /// empty where nothing is wanted or left.
    pub fn read_piece(&mut self, left: u64) -> (r: Result<Vec<u8>, Error>)
        requires
            old(self).wf(),
        ensures
            final(self).wf(),
            read_step(*old(self), *final(self), piece_of(left as int, STREAM_CHUNK as int), r),
    {
        let len: usize = if left < STREAM_CHUNK as u64 {
            left as usize
        } else {
            STREAM_CHUNK
        };
        self.read(len)
    }

    /// Passes over `n` bytes, or over what is left.
    pub fn skip(&mut self, n: u64) -> (r: Result<(), Error>)
        requires
            old(self).wf(),
        ensures
            final(self).wf(),
            final(self).extents() == old(self).extents(),
            final(self).source() == old(self).source(),
            ({
                let fault = skip_fault(
                    &old(self).source(),
                    old(self).extents(),
                    old(self).at(),
                    n as int,
                );
                match r {
                    Ok(()) => fault is None && final(self).at() == skip_end(
                        old(self).extents(),
                        old(self).at(),
                        n as int,
                    ),
                    Err(e) => {
                        &&& fault == Some(e) || (e == Error::Io && !old(self).source().steady())
                        &&& skip_stuck(
                            &old(self).source(),
                            old(self).extents(),
                            old(self).at(),
                            n as int,
                            e,
                            final(self).at(),
                        )
                    },
                }
            }),
    {
        let mut left = n;
        let ghost d = self.source();
        let ghost at = self.at();
        while left > 0
            invariant
                self.wf(),
                self.extents() == old(self).extents(),
                self.source() == old(self).source(),
                d == self.source(),
                at == old(self).at(),
                left <= n,
                self.at() == at + (n - left),
                skip_fault(&d, self.extents(), at, n as int) == skip_fault(
                    &d,
                    self.extents(),
                    self.at(),
                    left as int,
                ),
                skip_end(self.extents(), at, n as int) == skip_end(
                    self.extents(),
                    self.at(),
                    left as int,
                ),
                forall|e: Error, end: int|
                    skip_stuck(&d, self.extents(), self.at(), left as int, e, end) ==> #[trigger]
                    skip_stuck(&d, self.extents(), at, n as int, e, end),
            ensures
                skip_fault(&d, self.extents(), self.at(), left as int) is None,
                skip_end(self.extents(), self.at(), left as int) == self.at(),
            decreases left,
        {
            let len: usize = if left < SKIP_CHUNK as u64 {
                left as usize
            } else {
                SKIP_CHUNK
            };
            let ghost here = self.at();
            let ghost before = left as int;
            let data = match self.read(len) {
                Ok(v) => v,
                Err(e) => {
                    assert(skip_stuck(&d, self.extents(), here, before, e, self.at()));
                    assert(skip_stuck(&d, self.extents(), at, n as int, e, self.at()));
                    return Err(e);
                },
            };
            if data.len() == 0 {
                break;
            }
            left = left - data.len() as u64;
            proof {
                assert forall|e: Error, end: int|
                    skip_stuck(
                        &d,
                        self.extents(),
                        self.at(),
                        left as int,
                        e,
                        end,
                    ) implies #[trigger] skip_stuck(&d, self.extents(), at, n as int, e, end) by {
                    assert(skip_stuck(&d, self.extents(), here, before, e, end));
                }
            }
        }
        Ok(())
    }

    /// Reads up to `len` bytes and moves on by as many.
    pub fn read(&mut self, len: usize) -> (r: Result<Vec<u8>, Error>)
        requires
            old(self).wf(),
        ensures
            final(self).wf(),
            read_step(*old(self), *final(self), len as int, r),
    {
        let d = self.source;
        let ghost all = chain_data(d, self.extents@);
        let ghost total = chain_len(self.extents@);
        let ghost at = self.at();
        proof {
            lemma_chain_len(self.extents@, self.current_extent as int);
            if self.extents@.len() > 0 {
                lemma_chain_data(d, self.extents@, 0);
            }
            if self.current_extent < self.extents@.len() {
                lemma_chain_len(self.extents@, self.current_extent + 1);
            }
            assert(self.extents@.take(self.extents@.len() as int) =~= self.extents@);
        }
        let mut out: Vec<u8> = Vec::new();
        if len == 0 || self.position >= self.total_size {
            assert(out@ =~= all.subrange(at, at));
            return Ok(out);
        }
        assert(out@ =~= all.subrange(at, at));
        let ghost fault = chain_fault(d, self.extents@, 0, at, len as int);
        proof {
            lemma_fault_at(
                d,
                self.extents@,
                self.current_extent as int,
                self.current_offset as int,
                len as int,
            );
        }
        while out.len() < len && self.current_extent < self.extents.len()
            invariant
                self.wf(),
                self.extents@ == old(self).extents@,
                self.source == old(self).source,
                d == self.source,
                all == chain_data(d, self.extents@),
                total == chain_len(self.extents@),
                all.len() == total,
                out.len() <= len,
                len > 0,
                at == old(self).at(),
                0 <= at < total,
                at < u64::MAX,
                self.at() == at + out.len(),
                self.at() <= total,
                fault == chain_fault(d, self.extents@, 0, at, len as int),
                fault == chain_fault(
                    d,
                    self.extents@,
                    self.current_extent as int,
                    self.current_offset as int,
                    len - out.len(),
                ),
                before_fault(d, self.extents@, 0, at, len as int) == out.len() + before_fault(
                    d,
                    self.extents@,
                    self.current_extent as int,
                    self.current_offset as int,
                    len - out.len(),
                ),
                forall|done: int|
                    out.len() <= done && may_stall(
                        d,
                        self.extents@,
                        self.current_extent as int,
                        self.current_offset as int,
                        len - out.len(),
                        done - out.len(),
                    ) ==> #[trigger] may_stall(d, self.extents@, 0, at, len as int, done),
                out@ == all.subrange(at, at + out.len()),
            decreases self.extents.len() - self.current_extent, len - out.len(),
        {
            let ghost k = self.current_extent as int;
            let extent = self.extents[self.current_extent];
            let size = saturating_mul(extent.num_sectors, LP_SECTOR_SIZE);
            proof {
                lemma_chain_len(self.extents@, k);
                lemma_chain_len(self.extents@, k + 1);
                lemma_chain_data(d, self.extents@, k);
            }
            let left = size - self.current_offset;
            if left == 0 {
                self.current_extent = self.current_extent + 1;
                self.current_offset = 0;
                continue;
            }
            let want = len - out.len();
            let take = if left < want as u64 {
                left as usize
            } else {
                want
            };
            let ghost before = out@;
            let ghost from = self.current_offset as int;
            if extent.target_type == LP_TARGET_TYPE_LINEAR {
                let offset = match extent.target_data.checked_mul(LP_SECTOR_SIZE) {
                    Some(v) => match v.checked_add(self.current_offset) {
                        Some(w) => w,
                        None => {
                            return Err(Error::Invalid(Fault::PhysicalOffset));
                        },
                    },
                    None => {
                        return Err(Error::Invalid(Fault::PhysicalOffset));
                    },
                };
                match d.read_device(extent.target_source, offset, take) {
                    Err(e) => {
                        proof {
                            let n = len - out.len();
                            if e == Error::Io && !d.steady() {
                                assert(may_stall(d, self.extents@, k, from, n, 0));
                                assert(may_stall(
                                    d,
                                    self.extents@,
                                    0,
                                    at,
                                    len as int,
                                    out.len() as int,
                                ));
                            }
                        }
                        return Err(e);
                    },
                    Ok(mut data) => {
                        out.append(&mut data);
                    },
                }
            } else if extent.target_type == LP_TARGET_TYPE_ZERO {
                push_zeros(&mut out, take);
            } else {
                return Err(
                    Error::Invalid(Fault::ExtentType { target_type: extent.target_type }),
                );
            }
            proof {
                let part = extent_part(d, extent, from, take as int);
                lemma_chain_part(d, self.extents@, k, from, take as int);
                assert(out@ =~= before + part);
                assert(all.subrange(at, at + before.len()) + part =~= all.subrange(
                    at,
                    at + before.len() + take,
                )) by {
                    let here = at + before.len();
                    assert(all.subrange(here, here + take) == part);
                    assert forall|i: int| 0 <= i < take implies all[here + i] == part[i] by {
                        assert(all.subrange(here, here + take)[i] == all[here + i]);
                    }
                }
                let n = len - before.len();
                assert(chain_fault(d, self.extents@, k, from, n) == chain_fault(
                    d,
                    self.extents@,
                    k + 1,
                    0,
                    n - take,
                ));
                assert forall|done: int|
                    out.len() <= done && may_stall(
                        d,
                        self.extents@,
                        k + 1,
                        0,
                        n - take,
                        done - out.len(),
                    ) implies #[trigger] may_stall(d, self.extents@, 0, at, len as int, done) by {
                    assert(done - before.len() == done - out.len() + take);
                    assert(may_stall(d, self.extents@, k, from, n, done - before.len()));
                }
                assert(extent_fault(d, extent, from, take as int) is None);
                assert(before_fault(d, self.extents@, k, from, n) == take + before_fault(
                    d,
                    self.extents@,
                    k + 1,
                    0,
                    n - take,
                ));
                assert(before_fault(d, self.extents@, k, from + take, 0) == 0);
                assert(before_fault(d, self.extents@, k + 1, 0, 0) == 0);
                assert(chain_fault(d, self.extents@, k, from + take, 0) is None);
                assert(chain_fault(d, self.extents@, k + 1, 0, 0) is None);
            }
            self.current_offset = self.current_offset + take as u64;
            self.position = self.position.saturating_add(take as u64);
            if self.current_offset >= size {
                self.current_extent = self.current_extent + 1;
                self.current_offset = 0;
            }
        }
        Ok(out)
    }
}

} // verus!
