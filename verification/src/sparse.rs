//! Raw images as Android Sparse containers: a streaming encoder, and the law
//! that reading its output gives the raw image back.

use crate::encoding::{
    lemma_u16_stored, lemma_u32_stored, lemma_widths, overwritten, push_bytes, push_u16, push_u32,
    zeros,
};
use crate::error::{Error, Fault};
use crate::reader::source::{
    chunk_at, chunk_byte, chunk_content, chunks_from, complete, decoded, is_sparse, sparse_header,
    SparseChunk, SparseHeader, CHUNK_DONT_CARE, CHUNK_RAW, MAX_CHUNKS, MAX_SPARSE_BLOCK,
    MIN_SPARSE_BLOCK, SPARSE_MAGIC,
};
use vstd::bytes::*;
use vstd::prelude::*;

verus! {

/// A run of data blocks is closed once it holds this many bytes.
pub const MAX_RAW_RUN: usize = 8_388_608;

/// Size of a chunk header.
pub const CHUNK_HEADER_SIZE: u32 = 12;

/// How many bytes are read at a time.
pub const WINDOW_SIZE: u64 = 4_194_304;

/// Whether all bytes of `s` are zero.
pub open spec fn all_zero(s: Seq<u8>) -> bool {
    forall|i: int| 0 <= i < s.len() ==> s[i] == 0
}

/// The leading blocks of `raw` that are all zero, or that are all not; a run
/// of data blocks stops at its largest size. `got` bytes came before.
pub open spec fn lead(raw: Seq<u8>, bs: nat, zero: bool, got: int) -> Seq<u8>
    decreases raw.len(),
{
    if bs == 0 || raw.len() < bs || all_zero(raw.take(bs as int)) != zero || (!zero && got
        >= MAX_RAW_RUN) {
        Seq::empty()
    } else {
        raw.take(bs as int) + lead(raw.skip(bs as int), bs, zero, got + bs)
    }
}

/// The first run of an image.
pub open spec fn first_run(raw: Seq<u8>, bs: nat) -> Seq<u8> {
    lead(raw, bs, all_zero(raw.take(bs as int)), 0)
}

/// The runs that an image falls into, in order.
pub open spec fn runs(raw: Seq<u8>, bs: nat) -> Seq<Seq<u8>>
    decreases raw.len(),
{
    let run = first_run(raw, bs);
    if raw.len() == 0 || run.len() == 0 || run.len() > raw.len() {
        Seq::empty()
    } else {
        seq![run] + runs(raw.skip(run.len() as int), bs)
    }
}

/// A chunk header: kind, length in blocks, length in the file.
pub open spec fn chunk_header(kind: u16, blocks: u32, total: u32) -> Seq<u8> {
    spec_u16_to_le_bytes(kind) + spec_u16_to_le_bytes(0) + spec_u32_to_le_bytes(blocks)
        + spec_u32_to_le_bytes(total)
}

/// The chunk that stands for a run: zero blocks are left out of the file.
pub open spec fn chunk_bytes(run: Seq<u8>, bs: nat) -> Seq<u8> {
    let blocks = (run.len() / bs) as u32;
    if all_zero(run) {
        chunk_header(CHUNK_DONT_CARE, blocks, CHUNK_HEADER_SIZE)
    } else {
        chunk_header(CHUNK_RAW, blocks, (CHUNK_HEADER_SIZE + run.len()) as u32) + run
    }
}

/// The chunks of a list of runs, one after another.
pub open spec fn chunks_bytes(list: Seq<Seq<u8>>, bs: nat) -> Seq<u8>
    decreases list.len(),
{
    if list.len() == 0 {
        Seq::empty()
    } else {
        chunk_bytes(list[0], bs) + chunks_bytes(list.skip(1), bs)
    }
}

/// A sparse file header.
pub open spec fn header_bytes(block_size: u32, total_blocks: u32, total_chunks: u32) -> Seq<u8> {
    spec_u32_to_le_bytes(SPARSE_MAGIC) + spec_u16_to_le_bytes(1) + spec_u16_to_le_bytes(0)
        + spec_u16_to_le_bytes(28) + spec_u16_to_le_bytes(12) + spec_u32_to_le_bytes(block_size)
        + spec_u32_to_le_bytes(total_blocks) + spec_u32_to_le_bytes(total_chunks)
        + spec_u32_to_le_bytes(0)
}

/// The sparse container of an image.
pub open spec fn encoded(raw: Seq<u8>, block_size: u32) -> Seq<u8> {
    let list = runs(raw, block_size as nat);
    header_bytes(block_size, (raw.len() / block_size as nat) as u32, list.len() as u32)
        + chunks_bytes(list, block_size as nat)
}

/// The runs of an image that no further block can extend: all but an open last
/// one.
pub open spec fn closed_runs(raw: Seq<u8>, bs: nat) -> Seq<Seq<u8>> {
    let all = runs(raw, bs);
    if all.len() == 0 || (!all_zero(all.last()) && all.last().len() >= MAX_RAW_RUN) {
        all
    } else {
        all.drop_last()
    }
}

/// Where the number of chunks stands in the file header.
pub const TOTAL_CHUNKS_OFFSET: u64 = 20;

/// Renders a chunk header.
pub fn write_chunk_header(kind: u16, chunk_blocks: u32, total_sz: u32) -> (out: Vec<u8>)
    ensures
        out@ == chunk_header(kind, chunk_blocks, total_sz),
{
    let mut out: Vec<u8> = Vec::new();
    push_u16(&mut out, kind);
    push_u16(&mut out, 0);
    push_u32(&mut out, chunk_blocks);
    push_u32(&mut out, total_sz);
    assert(out@ =~= chunk_header(kind, chunk_blocks, total_sz));
    out
}

/// Renders a file header.
pub fn write_file_header(block_size: u32, total_blocks: u32, total_chunks: u32) -> (out: Vec<u8>)
    ensures
        out@ == header_bytes(block_size, total_blocks, total_chunks),
{
    let mut out: Vec<u8> = Vec::new();
    push_u32(&mut out, SPARSE_MAGIC);
    push_u16(&mut out, 1);
    push_u16(&mut out, 0);
    push_u16(&mut out, 28);
    push_u16(&mut out, 12);
    push_u32(&mut out, block_size);
    push_u32(&mut out, total_blocks);
    push_u32(&mut out, total_chunks);
    push_u32(&mut out, 0);
    assert(out@ =~= header_bytes(block_size, total_blocks, total_chunks));
    out
}

/// Whether `p` is made of blocks that are all zero, or of blocks that are all not.
spec fn uniform(p: Seq<u8>, bs: nat, zero: bool) -> bool
    decreases p.len(),
{
    p.len() == 0 || (bs > 0 && p.len() >= bs && all_zero(p.take(bs as int)) == zero && uniform(
        p.skip(bs as int),
        bs,
        zero,
    ))
}

proof fn lemma_uniform_push(p: Seq<u8>, block: Seq<u8>, bs: nat, zero: bool)
    requires
        uniform(p, bs, zero),
        bs > 0,
        block.len() == bs,
        all_zero(block) == zero,
    ensures
        uniform(p + block, bs, zero),
    decreases p.len(),
{
    let n = bs as int;
    if p.len() == 0 {
        assert(p + block =~= block);
        assert(block.take(n) =~= block);
        assert(uniform(block.skip(n), bs, zero));
    } else {
        lemma_uniform_push(p.skip(n), block, bs, zero);
        assert((p + block).take(n) =~= p.take(n));
        assert((p + block).skip(n) =~= p.skip(n) + block);
    }
}

/// The leading run of what starts with part of that run.
proof fn lemma_lead_prefix(p: Seq<u8>, t: Seq<u8>, bs: nat, zero: bool, got: int)
    requires
        uniform(p, bs, zero),
        bs > 0,
        zero || p.len() == 0 || got + p.len() < MAX_RAW_RUN + bs,
    ensures
        lead(p + t, bs, zero, got) == p + lead(t, bs, zero, got + p.len()),
    decreases p.len(),
{
    let n = bs as int;
    if p.len() == 0 {
        assert(p + t =~= t);
        assert(p + lead(t, bs, zero, got) =~= lead(t, bs, zero, got));
    } else {
        lemma_lead_prefix(p.skip(n), t, bs, zero, got + bs);
        assert((p + t).take(n) =~= p.take(n));
        assert((p + t).skip(n) =~= p.skip(n) + t);
        assert(p.take(n) + (p.skip(n) + lead(t, bs, zero, got + p.len())) =~= p + lead(
            t,
            bs,
            zero,
            got + p.len(),
        ));
    }
}

/// A uniform piece is a whole run where what follows cannot continue it.
proof fn lemma_run_closed(p: Seq<u8>, t: Seq<u8>, bs: nat, zero: bool)
    requires
        uniform(p, bs, zero),
        bs > 0,
        p.len() > 0,
        zero || p.len() < MAX_RAW_RUN + bs,
        t.len() < bs || all_zero(t.take(bs as int)) != zero || (!zero && p.len() >= MAX_RAW_RUN),
    ensures
        runs(p + t, bs) == seq![p] + runs(t, bs),
{
    lemma_lead_prefix(p, t, bs, zero, 0);
    assert((p + t).take(bs as int) =~= p.take(bs as int));
    assert(p + Seq::<u8>::empty() =~= p);
    assert((p + t).skip(p.len() as int) =~= t);
}

proof fn lemma_chunks_push(list: Seq<Seq<u8>>, run: Seq<u8>, bs: nat)
    ensures
        chunks_bytes(list.push(run), bs) == chunks_bytes(list, bs) + chunk_bytes(run, bs),
    decreases list.len(),
{
    let more = list.push(run);
    if list.len() == 0 {
        assert(more.skip(1) =~= Seq::<Seq<u8>>::empty());
        assert(chunks_bytes(more.skip(1), bs) =~= Seq::<u8>::empty());
        assert(chunks_bytes(more, bs) =~= chunk_bytes(run, bs));
        assert(chunks_bytes(list, bs) + chunk_bytes(run, bs) =~= chunk_bytes(run, bs));
    } else {
        lemma_chunks_push(list.skip(1), run, bs);
        assert(more.skip(1) =~= list.skip(1).push(run));
    }
}

/// A raw image on its way into a sparse container, block by block.
pub struct SparseEncoder {
    block_size: u32,
    blocks_left: u32,
    raw_run: Vec<u8>,
    raw_run_blocks: u32,
    care_run_blocks: u32,
    total_chunks: u32,
    input: Ghost<Seq<u8>>,
    closed: Ghost<Seq<Seq<u8>>>,
}

impl SparseEncoder {
    pub closed spec fn block_size(&self) -> u32 {
        self.block_size
    }

    /// How many blocks are still to come.
    pub closed spec fn blocks_left(&self) -> u32 {
        self.blocks_left
    }

    /// The blocks that were pushed.
    pub closed spec fn input(&self) -> Seq<u8> {
        self.input@
    }

    /// The bytes that were handed out.
    pub closed spec fn output(&self) -> Seq<u8> {
        chunks_bytes(self.closed@, self.block_size as nat)
    }

    /// The open run.
    spec fn pending(&self) -> Seq<u8> {
        if self.raw_run_blocks > 0 {
            self.raw_run@
        } else {
            zeros(self.care_run_blocks * self.block_size)
        }
    }

    /// What holds of the counters and of the open run.
    spec fn shape(&self) -> bool {
        let bs = self.block_size as nat;
        &&& MIN_SPARSE_BLOCK <= self.block_size <= MAX_SPARSE_BLOCK
        &&& self.raw_run@.len() == self.raw_run_blocks * bs
        &&& self.raw_run_blocks > 0 ==> self.care_run_blocks == 0
        &&& self.raw_run@.len() < MAX_RAW_RUN + bs
        &&& uniform(self.pending(), bs, self.raw_run_blocks == 0)
        &&& self.total_chunks == self.closed@.len()
        &&& self.blocks_left + self.total_chunks + self.raw_run_blocks + self.care_run_blocks
            <= u32::MAX
    }

    /// The runs closed so far and the open run are those of the input,
    /// whatever follows.
    pub closed spec fn wf(&self) -> bool {
        &&& self.shape()
        &&& self.raw_run@.len() < MAX_RAW_RUN
        &&& self.pending().len() == 0 && self.closed@.len() > 0 ==> !all_zero(self.closed@.last())
            && self.closed@.last().len() >= MAX_RAW_RUN
        &&& forall|t: Seq<u8>| #[trigger]
            runs(self.input@ + t, self.block_size as nat) == self.closed@ + runs(
                self.pending() + t,
                self.block_size as nat,
            )
    }

    /// At any time, the chunks of all runs that are closed were handed out, and
    /// nothing else.
    pub proof fn law_handed_out(&self)
        requires
            self.wf(),
        ensures
            self.output() == chunks_bytes(
                closed_runs(self.input(), self.block_size() as nat),
                self.block_size() as nat,
            ),
    {
        let bs = self.block_size as nat;
        let pending = self.pending();
        let none = Seq::<u8>::empty();
        assert(self.input@ + none =~= self.input@);
        assert(pending + none =~= pending);
        assert(runs(self.input@ + none, bs) == self.closed@ + runs(pending + none, bs));
        assert(runs(none, bs) =~= Seq::<Seq<u8>>::empty());
        let all = runs(self.input@, bs);
        if pending.len() > 0 {
            lemma_run_closed(pending, none, bs, self.raw_run_blocks == 0);
            assert(self.closed@ + (seq![pending] + runs(none, bs)) =~= self.closed@.push(pending));
            assert(all.last() == pending);
            assert(all.drop_last() =~= self.closed@);
        } else {
            assert(pending =~= none);
            assert(all =~= self.closed@);
        }
    }

    /// Starts a container for a raw image of `raw_len` bytes.
    pub fn new(raw_len: u64, block_size: u32) -> (r: Result<SparseEncoder, Error>)
        ensures
            match r {
                Ok(encoder) => {
                    &&& encoder.wf()
                    &&& MIN_SPARSE_BLOCK <= block_size <= MAX_SPARSE_BLOCK
                    &&& encoder.block_size() == block_size
                    &&& 0 < raw_len == encoder.blocks_left() * block_size
                    &&& encoder.input().len() == 0
                    &&& encoder.output().len() == 0
                },
                Err(e) => {
                    let f = e->Invalid_0;
                    &&& e is Invalid
                    &&& f == (if !(MIN_SPARSE_BLOCK <= block_size <= MAX_SPARSE_BLOCK) {
                        Fault::SparseBlockSize
                    } else if raw_len == 0 {
                        Fault::RawEmpty
                    } else if raw_len % block_size as u64 != 0 {
                        Fault::RawUnaligned
                    } else {
                        Fault::RawTooLarge
                    })
                    &&& f == Fault::RawTooLarge ==> raw_len / block_size as u64 > u32::MAX
                },
            },
    {
        if block_size < MIN_SPARSE_BLOCK || block_size > MAX_SPARSE_BLOCK {
            return Err(Error::Invalid(Fault::SparseBlockSize));
        }
        let bs = block_size as u64;
        if raw_len == 0 {
            return Err(Error::Invalid(Fault::RawEmpty));
        }
        if raw_len % bs != 0 {
            return Err(Error::Invalid(Fault::RawUnaligned));
        }
        let total_blocks = raw_len / bs;
        if total_blocks > u32::MAX as u64 {
            return Err(Error::Invalid(Fault::RawTooLarge));
        }
        proof {
            vstd::arithmetic::div_mod::lemma_fundamental_div_mod(raw_len as int, bs as int);
            vstd::arithmetic::mul::lemma_mul_is_commutative(bs as int, total_blocks as int);
        }
        let encoder = SparseEncoder {
            block_size,
            blocks_left: total_blocks as u32,
            raw_run: Vec::new(),
            raw_run_blocks: 0,
            care_run_blocks: 0,
            total_chunks: 0,
            input: Ghost(Seq::empty()),
            closed: Ghost(Seq::empty()),
        };
        proof {
            assert(0 * encoder.block_size == 0) by (nonlinear_arith);
            assert(encoder.pending() =~= Seq::<u8>::empty());
            assert forall|t: Seq<u8>| #[trigger]
                runs(encoder.input@ + t, block_size as nat) == encoder.closed@ + runs(
                    encoder.pending() + t,
                    block_size as nat,
                ) by {
                assert(encoder.input@ + t =~= encoder.pending() + t);
                assert(encoder.closed@ + runs(encoder.pending() + t, block_size as nat) =~= runs(
                    encoder.pending() + t,
                    block_size as nat,
                ));
            }
        }
        Ok(encoder)
    }

    /// Closes the open run of data blocks.
    fn flush_raw(&mut self) -> (out: Vec<u8>)
        requires
            old(self).shape(),
        ensures
            final(self).shape(),
            final(self).raw_run_blocks == 0,
            final(self).care_run_blocks == old(self).care_run_blocks,
            final(self).block_size == old(self).block_size,
            final(self).blocks_left == old(self).blocks_left,
            final(self).input == old(self).input,
            final(self).closed@ == (if old(self).raw_run_blocks > 0 {
                old(self).closed@.push(old(self).raw_run@)
            } else {
                old(self).closed@
            }),
            final(self).output() == old(self).output() + out@,
    {
        if self.raw_run_blocks == 0 {
            proof {
                assert(old(self).output() + Seq::<u8>::empty() =~= old(self).output());
            }
            return Vec::new();
        }
        let ghost bs = self.block_size as nat;
        let ghost run = self.raw_run@;
        let data_len = self.raw_run.len();
        let mut out = write_chunk_header(
            CHUNK_RAW,
            self.raw_run_blocks,
            (CHUNK_HEADER_SIZE as usize + data_len) as u32,
        );
        proof {
            assert(self.raw_run_blocks * bs >= bs) by (nonlinear_arith)
                requires
                    self.raw_run_blocks >= 1,
            ;
            assert(0 * self.block_size == 0) by (nonlinear_arith);
            assert(!all_zero(run)) by {
                assert(!all_zero(run.take(bs as int)));
                if all_zero(run) {
                    assert(all_zero(run.take(bs as int)));
                }
            }
            vstd::arithmetic::div_mod::lemma_div_multiples_vanish(
                self.raw_run_blocks as int,
                bs as int,
            );
            vstd::arithmetic::mul::lemma_mul_is_commutative(self.raw_run_blocks as int, bs as int);
            lemma_chunks_push(self.closed@, run, bs);
        }
        out.append(&mut self.raw_run);
        assert(out@ =~= chunk_bytes(run, bs));
        self.total_chunks = self.total_chunks + 1;
        self.raw_run_blocks = 0;
        self.closed = Ghost(self.closed@.push(run));
        proof {
            assert(self.pending() =~= Seq::<u8>::empty());
        }
        out
    }

    /// Closes the open run of zero blocks.
    fn flush_care(&mut self) -> (out: Vec<u8>)
        requires
            old(self).shape(),
        ensures
            final(self).shape(),
            final(self).care_run_blocks == 0,
            final(self).raw_run_blocks == old(self).raw_run_blocks,
            final(self).raw_run@ == old(self).raw_run@,
            final(self).block_size == old(self).block_size,
            final(self).blocks_left == old(self).blocks_left,
            final(self).input == old(self).input,
            final(self).closed@ == (if old(self).care_run_blocks > 0 {
                old(self).closed@.push(old(self).pending())
            } else {
                old(self).closed@
            }),
            final(self).output() == old(self).output() + out@,
    {
        if self.care_run_blocks == 0 {
            proof {
                assert(old(self).output() + Seq::<u8>::empty() =~= old(self).output());
            }
            return Vec::new();
        }
        let ghost bs = self.block_size as nat;
        let ghost run = self.pending();
        let out = write_chunk_header(CHUNK_DONT_CARE, self.care_run_blocks, CHUNK_HEADER_SIZE);
        proof {
            vstd::arithmetic::div_mod::lemma_div_multiples_vanish(
                self.care_run_blocks as int,
                bs as int,
            );
            vstd::arithmetic::mul::lemma_mul_is_commutative(self.care_run_blocks as int, bs as int);
            assert(self.care_run_blocks * bs >= 0) by (nonlinear_arith);
            assert(0 * self.block_size == 0) by (nonlinear_arith);
            assert(out@ =~= chunk_bytes(run, bs));
            lemma_chunks_push(self.closed@, run, bs);
        }
        self.total_chunks = self.total_chunks + 1;
        self.care_run_blocks = 0;
        self.closed = Ghost(self.closed@.push(run));
        proof {
            assert(self.pending() =~= Seq::<u8>::empty());
        }
        out
    }

    /// Takes the next block and hands out the chunks that it closes.
    pub fn push_block(&mut self, block: &[u8]) -> (out: Vec<u8>)
        requires
            old(self).wf(),
            block@.len() == old(self).block_size(),
            old(self).blocks_left() > 0,
        ensures
            final(self).wf(),
            final(self).block_size() == old(self).block_size(),
            final(self).blocks_left() == old(self).blocks_left() - 1,
            final(self).input() == old(self).input() + block@,
            final(self).output() == old(self).output() + out@,
            final(self).output() == chunks_bytes(
                closed_runs(final(self).input(), final(self).block_size() as nat),
                final(self).block_size() as nat,
            ),
    {
        let ghost bs = self.block_size as nat;
        let ghost pending = self.pending();
        let ghost closed0 = self.closed@;
        let ghost input0 = self.input@;
        proof {
            assert(self.care_run_blocks * bs + bs == (self.care_run_blocks + 1) * bs)
                by (nonlinear_arith);
            assert(self.raw_run_blocks * bs + bs == (self.raw_run_blocks + 1) * bs)
                by (nonlinear_arith);
            assert(self.care_run_blocks * bs >= bs || self.care_run_blocks == 0)
                by (nonlinear_arith);
            assert(self.raw_run_blocks * bs >= bs || self.raw_run_blocks == 0) by (nonlinear_arith);
            assert(block@.take(bs as int) =~= block@);
        }
        self.input = Ghost(self.input@ + block@);
        self.blocks_left = self.blocks_left - 1;
        let zero = is_zero_block(block);
        let mut out: Vec<u8>;
        if zero {
            out = self.flush_raw();
            let ghost middle = self.pending();
            self.care_run_blocks = self.care_run_blocks + 1;
            proof {
                assert(self.pending() =~= middle + block@);
                lemma_uniform_push(middle, block@, bs, true);
            }
        } else {
            out = self.flush_care();
            let ghost middle = self.pending();
            let ghost run0 = self.raw_run@;
            push_bytes(&mut self.raw_run, block);
            self.raw_run_blocks = self.raw_run_blocks + 1;
            proof {
                assert(middle =~= run0);
                assert(uniform(run0, bs, false));
                lemma_uniform_push(run0, block@, bs, false);
            }
        }
        proof {
            assert forall|t: Seq<u8>| #[trigger]
                runs(self.input@ + t, bs) == self.closed@ + runs(self.pending() + t, bs) by {
                assert(self.input@ + t =~= input0 + (block@ + t));
                assert(runs(input0 + (block@ + t), bs) == closed0 + runs(
                    pending + (block@ + t),
                    bs,
                ));
                assert((block@ + t).take(bs as int) =~= block@);
                if self.closed@ != closed0 {
                    lemma_run_closed(pending, block@ + t, bs, !zero);
                    assert(self.pending() + t =~= block@ + t);
                    assert(closed0 + (seq![pending] + runs(block@ + t, bs)) =~= self.closed@
                        + runs(block@ + t, bs));
                } else {
                    assert(self.pending() + t =~= pending + (block@ + t));
                }
            }
        }
        if self.raw_run.len() >= MAX_RAW_RUN {
            let ghost run = self.pending();
            let ghost closed1 = self.closed@;
            let ghost input1 = self.input@;
            let ghost output1 = self.output();
            let mut tail = self.flush_raw();
            let ghost head = out@;
            let ghost last = tail@;
            out.append(&mut tail);
            proof {
                assert(old(self).output() + (head + last) =~= output1 + last);
                assert forall|t: Seq<u8>| #[trigger]
                    runs(self.input@ + t, bs) == self.closed@ + runs(self.pending() + t, bs) by {
                    assert(runs(input1 + t, bs) == closed1 + runs(run + t, bs));
                    lemma_run_closed(run, t, bs, false);
                    assert(self.pending() + t =~= t);
                    assert(closed1 + (seq![run] + runs(t, bs)) =~= self.closed@ + runs(t, bs));
                }
            }
        }
        proof {
            self.law_handed_out();
        }
        out
    }

    /// Takes a window of whole blocks and hands out the chunks that it closes.
    pub fn push_window(&mut self, window: &Vec<u8>) -> (out: Vec<u8>)
        requires
            old(self).wf(),
            window.len() % old(self).block_size() as usize == 0,
            window.len() / old(self).block_size() as usize <= old(self).blocks_left(),
        ensures
            final(self).wf(),
            final(self).block_size() == old(self).block_size(),
            final(self).blocks_left() == old(self).blocks_left() - window.len() / old(
                self,
            ).block_size() as usize,
            final(self).input() == old(self).input() + window@,
            final(self).output() == old(self).output() + out@,
            final(self).output() == chunks_bytes(
                closed_runs(final(self).input(), final(self).block_size() as nat),
                final(self).block_size() as nat,
            ),
    {
        let bs = self.block_size as usize;
        let count = window.len() / bs;
        proof {
            vstd::arithmetic::div_mod::lemma_fundamental_div_mod(
                window@.len() as int,
                bs as int,
            );
            assert(window@.take(0) =~= Seq::<u8>::empty());
            assert(self.input() + window@.take(0) =~= self.input());
            assert(self.output() + Seq::<u8>::empty() =~= self.output());
        }
        let mut out: Vec<u8> = Vec::new();
        let mut b: usize = 0;
        let mut start: usize = 0;
        while b < count
            invariant
                self.wf(),
                self.block_size() == bs == old(self).block_size(),
                b <= count,
                start == b * bs,
                window.len() == bs * count,
                count <= old(self).blocks_left(),
                self.blocks_left() == old(self).blocks_left() - b,
                self.input() == old(self).input() + window@.take(start as int),
                self.output() == old(self).output() + out@,
            decreases count - b,
        {
            proof {
                assert((b + 1) * bs <= bs * count) by (nonlinear_arith)
                    requires
                        b + 1 <= count,
                ;
                assert((b + 1) * bs == b * bs + bs) by (nonlinear_arith);
            }
            let end = start + bs;
            let ghost before = out@;
            let mut part = self.push_block(
                vstd::slice::slice_subrange(window.as_slice(), start, end),
            );
            let ghost added = part@;
            out.append(&mut part);
            proof {
                assert(old(self).input() + window@.take(end as int) =~= old(self).input()
                    + window@.take(start as int) + window@.subrange(start as int, end as int));
                assert(old(self).output() + (before + added) =~= old(self).output() + before
                    + added);
            }
            start = end;
            b += 1;
        }
        proof {
            assert(b * bs == bs * count) by (nonlinear_arith)
                requires
                    b == count,
            ;
            assert(window@.take(start as int) =~= window@);
            self.law_handed_out();
        }
        out
    }

    /// Hands out the last chunks, and the number of all chunks.
    pub fn finish(self) -> (r: (Vec<u8>, u32))
        requires
            self.wf(),
        ensures
            self.output() + r.0@ == chunks_bytes(
                runs(self.input(), self.block_size() as nat),
                self.block_size() as nat,
            ),
            r.1 == runs(self.input(), self.block_size() as nat).len(),
    {
        let ghost bs = self.block_size as nat;
        let ghost pending = self.pending();
        let ghost closed0 = self.closed@;
        let ghost none = Seq::<u8>::empty();
        proof {
            assert(self.input@ + none =~= self.input@);
            assert(pending + none =~= pending);
            assert(runs(self.input@ + none, bs) == closed0 + runs(pending + none, bs));
            assert(runs(none, bs) =~= Seq::<Seq<u8>>::empty());
            if pending.len() > 0 {
                lemma_run_closed(pending, none, bs, self.raw_run_blocks == 0);
                assert(closed0 + (seq![pending] + runs(none, bs)) =~= closed0.push(pending));
            } else {
                assert(pending =~= none);
                assert(closed0 + runs(none, bs) =~= closed0);
            }
            assert(self.raw_run_blocks * bs >= bs || self.raw_run_blocks == 0) by (nonlinear_arith);
            assert(self.care_run_blocks * bs >= bs || self.care_run_blocks == 0)
                by (nonlinear_arith);
        }
        let ghost output0 = self.output();
        let mut me = self;
        let mut out = me.flush_raw();
        let ghost head = out@;
        let mut tail = me.flush_care();
        let ghost last = tail@;
        out.append(&mut tail);
        assert(output0 + (head + last) =~= output0 + head + last);
        (out, me.total_chunks)
    }
}

/// Whether a block holds nothing but zero bytes.
fn is_zero_block(block: &[u8]) -> (r: bool)
    ensures
        r == all_zero(block@),
{
    let mut i: usize = 0;
    while i < block.len()
        invariant
            i <= block.len(),
            forall|k: int| 0 <= k < i ==> block@[k] == 0,
        decreases block.len() - i,
    {
        if block[i] != 0 {
            return false;
        }
        i += 1;
    }
    true
}

/// How many bytes of raw image to read at a time: whole blocks.
pub fn window_bytes(block_size: u32) -> (r: usize)
    requires
        MIN_SPARSE_BLOCK <= block_size <= MAX_SPARSE_BLOCK,
    ensures
        r % block_size as usize == 0,
        r == WINDOW_SIZE - WINDOW_SIZE % block_size as u64,
        r > 0,
{
    let bs = block_size as u64;
    let blocks = WINDOW_SIZE / bs;
    proof {
        vstd::arithmetic::div_mod::lemma_fundamental_div_mod(WINDOW_SIZE as int, bs as int);
        vstd::arithmetic::mul::lemma_mul_is_commutative(bs as int, blocks as int);
        vstd::arithmetic::div_mod::lemma_mod_multiples_basic(blocks as int, bs as int);
    }
    (blocks * bs) as usize
}

/// A leading run is the front of the image, in whole blocks.
proof fn lemma_lead(raw: Seq<u8>, bs: nat, zero: bool, got: int)
    requires
        bs > 0,
    ensures
        ({
            let run = lead(raw, bs, zero, got);
            &&& run.len() <= raw.len()
            &&& run == raw.take(run.len() as int)
            &&& run.len() % bs == 0
            &&& zero ==> all_zero(run)
            &&& !zero && run.len() > 0 ==> !all_zero(run)
            &&& !zero ==> run.len() == 0 || got + run.len() < MAX_RAW_RUN + bs
            &&& raw.len() >= bs && all_zero(raw.take(bs as int)) == zero && got < MAX_RAW_RUN
                ==> run.len() > 0
        }),
    decreases raw.len(),
{
    let run = lead(raw, bs, zero, got);
    let n = bs as int;
    if bs == 0 || raw.len() < bs || all_zero(raw.take(n)) != zero || (!zero && got >= MAX_RAW_RUN) {
        assert(raw.take(0) =~= Seq::<u8>::empty());
        assert(0nat % bs == 0) by (nonlinear_arith)
            requires
                bs > 0,
        ;
    } else {
        let rest = lead(raw.skip(n), bs, zero, got + bs);
        lemma_lead(raw.skip(n), bs, zero, got + bs);
        assert(run =~= raw.take(run.len() as int));
        vstd::arithmetic::div_mod::lemma_mod_add_multiples_vanish(rest.len() as int, n);
        if zero {
            assert forall|i: int| 0 <= i < run.len() implies run[i] == 0 by {
                if i >= n {
                    assert(run[i] == rest[i - n]);
                } else {
                    assert(run[i] == raw.take(n)[i]);
                }
            }
        } else {
            let i = choose|i: int| 0 <= i < n && raw.take(n)[i] != 0;
            assert(run[i] == raw.take(n)[i]);
        }
    }
}

/// The chunks of an image hold at most the image and their headers.
proof fn lemma_body_len(raw: Seq<u8>, bs: nat)
    requires
        bs > 0,
    ensures
        chunks_bytes(runs(raw, bs), bs).len() <= 12 * runs(raw, bs).len() + raw.len(),
    decreases raw.len(),
{
    let run = first_run(raw, bs);
    if !(raw.len() == 0 || run.len() == 0 || run.len() > raw.len()) {
        let rest = raw.skip(run.len() as int);
        lemma_body_len(rest, bs);
        lemma_widths();
        let list = runs(raw, bs);
        assert(list.skip(1) =~= runs(rest, bs));
        assert(list[0] == run);
    }
}

/// Whether some chunk holds the image byte at `i`.
spec fn covered(cs: Seq<SparseChunk>, i: int) -> bool {
    exists|k: int| 0 <= k < cs.len() && #[trigger] cs[k].covers(i)
}

/// Reading the chunks of what is left of an image gives that part of the image.
proof fn lemma_decode_from(
    f: Seq<u8>,
    h: SparseHeader,
    raw: Seq<u8>,
    index: int,
    pos: int,
    start: int,
)
    requires
        MIN_SPARSE_BLOCK <= h.block_size <= MAX_SPARSE_BLOCK,
        h.chunk_header_size == 12,
        0 <= start <= raw.len() == h.image_size(),
        raw.len() <= u64::MAX,
        (raw.len() - start) % h.block_size as int == 0,
        0 <= index,
        index + runs(raw.skip(start), h.block_size as nat).len() == h.total_chunks,
        0 <= pos <= f.len() <= u64::MAX,
        f.skip(pos) == chunks_bytes(
            runs(raw.skip(start), h.block_size as nat),
            h.block_size as nat,
        ),
    ensures
        match chunks_from(f, h, index, pos, start) {
            Ok(cs) => {
                &&& forall|k: int, i: int|
                    0 <= k < cs.len() && #[trigger] cs[k].covers(i) ==> start <= i < raw.len()
                        && cs[k].byte(f, i) == raw[i]
                &&& forall|i: int| start <= i < raw.len() ==> #[trigger] covered(cs, i)
                &&& forall|k: int| 0 <= k < cs.len() ==> (#[trigger] cs[k]).stored_in(f)
            },
            Err(_) => false,
        },
    decreases raw.len() - start,
{
    let bs = h.block_size as nat;
    let left = raw.skip(start);
    let list = runs(left, bs);
    if start == raw.len() {
    } else {
        let zero = all_zero(left.take(bs as int));
        let run = first_run(left, bs);
        if left.len() < bs {
            vstd::arithmetic::div_mod::lemma_small_mod(left.len(), bs);
            assert(false);
        }
        lemma_lead(left, bs, zero, 0);
        lemma_widths();
        let n = run.len() as int;
        let rest = left.skip(n);
        assert(list[0] == run);
        assert(list.skip(1) =~= runs(rest, bs));
        let body = chunk_bytes(run, bs);
        let tail = chunks_bytes(runs(rest, bs), bs);
        assert(f.skip(pos) == body + tail);
        vstd::arithmetic::div_mod::lemma_fundamental_div_mod(n, bs as int);
        vstd::arithmetic::mul::lemma_mul_is_commutative(bs as int, n / bs as int);
        let blocks = n / bs as int;
        assert(blocks <= h.total_blocks) by (nonlinear_arith)
            requires
                blocks * bs <= h.total_blocks * bs,
                bs > 0,
        ;
        assert(0 <= blocks) by (nonlinear_arith)
            requires
                blocks * bs >= 0,
                bs > 0,
        ;
        // The fields of the chunk header.
        let kind = if zero {
            CHUNK_DONT_CARE
        } else {
            CHUNK_RAW
        };
        let total = if zero {
            CHUNK_HEADER_SIZE
        } else {
            (CHUNK_HEADER_SIZE + n) as u32
        };
        assert(body.take(12) =~= chunk_header(kind, blocks as u32, total));
        let front = f.subrange(pos, pos + 12);
        assert(f.skip(pos).len() == body.len() + tail.len());
        assert(front =~= f.skip(pos).take(12));
        assert(front =~= body.take(12));
        assert(f.subrange(pos, pos + 2) =~= front.subrange(0, 2));
        assert(front.subrange(0, 2) =~= spec_u16_to_le_bytes(kind));
        lemma_u16_stored(f, pos, kind);
        assert(f.subrange(pos + 4, pos + 8) =~= front.subrange(4, 8));
        assert(front.subrange(4, 8) =~= spec_u32_to_le_bytes(blocks as u32));
        lemma_u32_stored(f, pos + 4, blocks as u32);
        assert(f.subrange(pos + 8, pos + 12) =~= front.subrange(8, 12));
        assert(front.subrange(8, 12) =~= spec_u32_to_le_bytes(total));
        lemma_u32_stored(f, pos + 8, total);
        let next = pos + body.len();
        let c = SparseChunk {
            kind,
            logical_start: start as u64,
            logical_len: n as u64,
            file_offset: (pos + 12) as u64,
            fill_value: 0,
        };
        assert(chunk_at(f, h, index as u32, pos, start) == Ok::<(SparseChunk, int), Error>(
            (c, next),
        ));
        // What follows.
        assert(raw.skip(start + n) =~= rest);
        assert(f.skip(next) =~= f.skip(pos).skip(body.len() as int));
        assert(f.skip(next) =~= tail);
        vstd::arithmetic::div_mod::lemma_mod_sub_multiples_vanish(raw.len() - start, bs as int);
        assert((raw.len() - start - n) % bs as int == 0) by {
            vstd::arithmetic::div_mod::lemma_sub_mod_noop(
                raw.len() - start,
                n,
                bs as int,
            );
            vstd::arithmetic::div_mod::lemma_small_mod(0, bs);
        }
        lemma_decode_from(f, h, raw, index + 1, next, start + n);
        let more = chunks_from(f, h, index + 1, next, start + n)->Ok_0;
        let cs = seq![c] + more;
        assert(chunks_from(f, h, index, pos, start) == Ok::<Seq<SparseChunk>, Error>(cs));
        assert forall|k: int, i: int| 0 <= k < cs.len() && #[trigger] cs[k].covers(i) implies start
            <= i < raw.len() && cs[k].byte(f, i) == raw[i] by {
            if k == 0 {
                assert(run[i - start] == left[i - start]);
                if zero {
                    assert(run[i - start] == 0);
                } else {
                    assert(f[pos + 12 + (i - start)] == f.skip(pos)[12 + (i - start)]);
                }
            } else {
                assert(cs[k] == more[k - 1]);
                assert(more[k - 1].covers(i));
            }
        }
        assert forall|i: int| start <= i < raw.len() implies #[trigger] covered(cs, i) by {
            if i < start + n {
                assert(cs[0].covers(i));
            } else {
                assert(covered(more, i));
                let k = choose|k: int| 0 <= k < more.len() && #[trigger] more[k].covers(i);
                assert(cs[k + 1] == more[k]);
                assert(cs[k + 1].covers(i));
            }
        }
        assert forall|k: int| 0 <= k < cs.len() implies (#[trigger] cs[k]).stored_in(f) by {
            if k > 0 {
                assert(cs[k] == more[k - 1]);
            }
        }
    }
}

/// Reading back the sparse container of a raw image gives that image, and no
/// read of it fails for want of data. The reader takes a limited number of
/// chunks; an image of more runs than that is left out.
pub proof fn law_sparse_round_trip(raw: Seq<u8>, block_size: u32)
    requires
        MIN_SPARSE_BLOCK <= block_size <= MAX_SPARSE_BLOCK,
        raw.len() % block_size as nat == 0,
        raw.len() / block_size as nat <= u32::MAX,
        runs(raw, block_size as nat).len() <= MAX_CHUNKS,
    ensures
        is_sparse(encoded(raw, block_size)),
        decoded(encoded(raw, block_size)) == Ok::<Seq<u8>, Error>(raw),
        complete(encoded(raw, block_size)),
{
    let bs = block_size as nat;
    let list = runs(raw, bs);
    let total_blocks = (raw.len() / bs) as u32;
    let f = encoded(raw, block_size);
    let head = header_bytes(block_size, total_blocks, list.len() as u32);
    lemma_widths();
    assert(f.subrange(0, 4) =~= spec_u32_to_le_bytes(SPARSE_MAGIC));
    lemma_u32_stored(f, 0, SPARSE_MAGIC);
    assert(f.subrange(4, 6) =~= spec_u16_to_le_bytes(1));
    lemma_u16_stored(f, 4, 1);
    assert(f.subrange(8, 10) =~= spec_u16_to_le_bytes(28));
    lemma_u16_stored(f, 8, 28);
    assert(f.subrange(10, 12) =~= spec_u16_to_le_bytes(12));
    lemma_u16_stored(f, 10, 12);
    assert(f.subrange(12, 16) =~= spec_u32_to_le_bytes(block_size));
    lemma_u32_stored(f, 12, block_size);
    assert(f.subrange(16, 20) =~= spec_u32_to_le_bytes(total_blocks));
    lemma_u32_stored(f, 16, total_blocks);
    assert(f.subrange(20, 24) =~= spec_u32_to_le_bytes(list.len() as u32));
    lemma_u32_stored(f, 20, list.len() as u32);
    let h = SparseHeader {
        file_header_size: 28,
        chunk_header_size: 12,
        block_size,
        total_blocks,
        total_chunks: list.len() as u32,
    };
    assert(sparse_header(f) == Ok::<SparseHeader, Error>(h));
    vstd::arithmetic::div_mod::lemma_fundamental_div_mod(raw.len() as int, bs as int);
    vstd::arithmetic::mul::lemma_mul_is_commutative(bs as int, total_blocks as int);
    assert(total_blocks * bs <= 0xffff_ffff * 0x10_0000) by (nonlinear_arith)
        requires
            total_blocks <= 0xffff_ffff,
            bs <= 0x10_0000,
    ;
    lemma_body_len(raw, bs);
    assert(raw.skip(0) =~= raw);
    assert(f.skip(28) =~= chunks_bytes(list, bs));
    lemma_decode_from(f, h, raw, 0, 28, 0);
    let cs = chunks_from(f, h, 0, 28, 0)->Ok_0;
    assert(chunk_content(f, cs, raw.len() as int) =~= raw) by {
        assert forall|i: int| 0 <= i < raw.len() implies chunk_byte(f, cs, i) == raw[i] by {
            assert(covered(cs, i));
        }
    }
}

/// Writing the number of chunks into a header that was written before it was
/// known gives the header with that number.
pub proof fn law_header_patched(block_size: u32, total_blocks: u32, total_chunks: u32)
    ensures
        overwritten(
            header_bytes(block_size, total_blocks, 0),
            TOTAL_CHUNKS_OFFSET as int,
            spec_u32_to_le_bytes(total_chunks),
        ) == header_bytes(block_size, total_blocks, total_chunks),
{
    lemma_widths();
    assert(overwritten(
        header_bytes(block_size, total_blocks, 0),
        TOTAL_CHUNKS_OFFSET as int,
        spec_u32_to_le_bytes(total_chunks),
    ) =~= header_bytes(block_size, total_blocks, total_chunks));
}

/// The bytes of the blocks of an image that are not all zero.
pub open spec fn stored_bytes(raw: Seq<u8>, bs: nat) -> int
    decreases raw.len(),
{
    if bs == 0 || raw.len() < bs {
        0
    } else {
        stored_bytes(raw.skip(bs as int), bs) + if all_zero(raw.take(bs as int)) {
            0
        } else {
            bs as int
        }
    }
}

proof fn lemma_lead_stored(raw: Seq<u8>, bs: nat, zero: bool, got: int)
    requires
        bs > 0,
    ensures
        ({
            let run = lead(raw, bs, zero, got);
            &&& run.len() <= raw.len()
            &&& stored_bytes(raw, bs) == stored_bytes(raw.skip(run.len() as int), bs) + if zero {
                0
            } else {
                run.len() as int
            }
        }),
    decreases raw.len(),
{
    let run = lead(raw, bs, zero, got);
    if run.len() == 0 {
        assert(raw.skip(0) =~= raw);
    } else {
        let n = bs as int;
        let rest = raw.skip(n);
        lemma_lead_stored(rest, bs, zero, got + bs);
        let more = lead(rest, bs, zero, got + bs);
        assert(run.len() == n + more.len());
        assert(rest.skip(more.len() as int) =~= raw.skip(run.len() as int));
    }
}

proof fn lemma_chunks_stored(raw: Seq<u8>, bs: nat)
    requires
        bs > 0,
        raw.len() % bs == 0,
    ensures
        chunks_bytes(runs(raw, bs), bs).len() == 12 * runs(raw, bs).len() + stored_bytes(raw, bs),
    decreases raw.len(),
{
    let run = first_run(raw, bs);
    let zero = all_zero(raw.take(bs as int));
    if raw.len() > 0 {
        if raw.len() < bs {
            vstd::arithmetic::div_mod::lemma_small_mod(raw.len(), bs);
        }
        lemma_lead(raw, bs, zero, 0);
        lemma_lead_stored(raw, bs, zero, 0);
        lemma_widths();
        let n = run.len() as int;
        let rest = raw.skip(n);
        vstd::arithmetic::div_mod::lemma_sub_mod_noop(raw.len() as int, n, bs as int);
        vstd::arithmetic::div_mod::lemma_small_mod(0, bs);
        lemma_chunks_stored(rest, bs);
        let list = runs(raw, bs);
        assert(list.skip(1) =~= runs(rest, bs));
        assert(list[0] == run);
        assert(zero == all_zero(run));
    }
}

/// A sparse container holds, besides its headers, the blocks that are not all zero and
/// nothing else.
pub proof fn law_zero_blocks_left_out(raw: Seq<u8>, block_size: u32)
    requires
        block_size > 0,
        raw.len() % block_size as nat == 0,
    ensures
        encoded(raw, block_size).len() == 28 + 12 * runs(raw, block_size as nat).len()
            + stored_bytes(raw, block_size as nat),
{
    lemma_widths();
    lemma_chunks_stored(raw, block_size as nat);
}

} // verus!
