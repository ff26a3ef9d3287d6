//! Image containers: flat raw files and Android Sparse files, both read as
//! one logical byte string.

use crate::encoding::{copy_range, lemma_piece, push_zeros, read_u16, read_u32, u16_at, u32_at};
use crate::error::{Error, Fault};
use vstd::bytes::*;
use vstd::prelude::*;

verus! {

pub const SPARSE_MAGIC: u32 = 0xed26_ff3a;

pub const CHUNK_RAW: u16 = 0xcac1;

pub const CHUNK_FILL: u16 = 0xcac2;

pub const CHUNK_DONT_CARE: u16 = 0xcac3;

pub const CHUNK_CRC32: u16 = 0xcac4;

/// Largest number of chunks in a sparse file.
pub const MAX_CHUNKS: u32 = 1_000_000;

/// Largest chunk header.
pub const MAX_CHUNK_HEADER: u64 = 1024;

/// Bounds of the block size of a sparse file.
pub const MIN_SPARSE_BLOCK: u32 = 512;

pub const MAX_SPARSE_BLOCK: u32 = 1_048_576;

/// A fixed-size byte string that is read piece by piece.
pub trait BlockSource: Sized {
    /// What the source holds.
    spec fn bytes(&self) -> Seq<u8>;

    /// Whether every read inside the source succeeds.
    spec fn reliable(&self) -> bool;

    /// Whether a read of `len` bytes at `offset`, inside the source, succeeds.
    spec fn sure_at(&self, offset: int, len: int) -> bool;

    /// The container format.
    spec fn format(&self) -> Seq<char>;

    fn total_size(&self) -> (n: u64)
        ensures
            n == self.bytes().len(),
    ;

    fn format_name(&self) -> (name: &'static str)
        ensures
            name@ == self.format(),
    ;

    /// Reads `len` bytes at `offset`.
    fn read_at(&self, offset: u64, len: usize) -> (r: Result<Vec<u8>, Error>)
        ensures
            match r {
                Ok(data) => {
                    &&& offset + len <= self.bytes().len()
                    &&& data@ == self.bytes().subrange(offset as int, offset + len)
                },
                Err(e) => if offset + len > self.bytes().len() {
                    e == Error::Invalid(Fault::ReadRange)
                } else {
                    e == Error::Io && !self.reliable() && !self.sure_at(offset as int, len as int)
                },
            },
    ;
}

/// Whether every read that ends at `n` or before succeeds.
pub open spec fn sure_below<S: BlockSource>(s: &S, n: int) -> bool {
    forall|offset: int, len: int|
        0 <= offset && 0 <= len && offset + len <= n ==> #[trigger] s.sure_at(offset, len)
}

/// A byte string held in memory.
pub struct MemorySource {
    pub data: Vec<u8>,
}

impl BlockSource for MemorySource {
    open spec fn bytes(&self) -> Seq<u8> {
        self.data@
    }

    open spec fn reliable(&self) -> bool {
        true
    }

    open spec fn sure_at(&self, offset: int, len: int) -> bool {
        true
    }

    open spec fn format(&self) -> Seq<char> {
        "raw"@
    }

    fn total_size(&self) -> (n: u64) {
        self.data.len() as u64
    }

    fn format_name(&self) -> (name: &'static str) {
        "raw"
    }

    fn read_at(&self, offset: u64, len: usize) -> (r: Result<Vec<u8>, Error>) {
        let size = self.data.len();
        if offset > size as u64 || len > size - offset as usize {
            return Err(Error::Invalid(Fault::ReadRange));
        }
        let from = offset as usize;
        Ok(copy_range(&self.data, from, from + len))
    }
}

/// Whether a function that reads at an offset answers out of these bytes, if it
/// answers at all.
pub open spec fn answers<R: Fn(u64, usize) -> Option<Vec<u8>>>(read: R, c: Seq<u8>) -> bool {
    &&& forall|offset: u64, len: usize|
        offset + len <= c.len() ==> #[trigger] read.requires((offset, len))
    &&& forall|offset: u64, len: usize, r: Option<Vec<u8>>|
        offset + len <= c.len() && #[trigger] read.ensures((offset, len), r) ==> (r matches Some(
            data,
        ) ==> data@ == c.subrange(offset as int, offset + len))
}

/// Whether such a function always answers inside a source of this size.
pub open spec fn always_answers<R: Fn(u64, usize) -> Option<Vec<u8>>>(read: R, size: u64) -> bool {
    forall|offset: u64, len: usize, r: Option<Vec<u8>>|
        offset + len <= size && #[trigger] read.ensures((offset, len), r) ==> r is Some
}

/// The byte string of this size that such a function answers out of.
pub open spec fn held<R: Fn(u64, usize) -> Option<Vec<u8>>>(size: u64, read: R) -> Seq<u8> {
    choose|c: Seq<u8>| c.len() == size && #[trigger] answers(read, c)
}

/// A byte string behind a function that reads at an offset, such as an open file.
pub struct PositionedSource<R: Fn(u64, usize) -> Option<Vec<u8>>> {
    size: u64,
    read: R,
}

impl<R: Fn(u64, usize) -> Option<Vec<u8>>> PositionedSource<R> {
    /// The function that reads.
    pub closed spec fn reader(&self) -> R {
        self.read
    }

    /// What the function reads from.
    pub closed spec fn content(&self) -> Seq<u8> {
        held(self.size, self.read)
    }

    #[verifier::type_invariant]
    closed spec fn inv(&self) -> bool {
        self.content().len() == self.size && answers(self.read, self.content())
    }

    /// A source of `size` bytes; `read` has to answer out of one byte string of
    /// that size.
    pub fn new(size: u64, read: R) -> (r: PositionedSource<R>)
        requires
            exists|c: Seq<u8>| c.len() == size && #[trigger] answers(read, c),
        ensures
            r.reader() == read,
            r.content().len() == size,
            answers(read, r.content()),
    {
        proof {
            let c = held(size, read);
            assert(c.len() == size && answers(read, c));
        }
        PositionedSource { size, read }
    }
}

impl<R: Fn(u64, usize) -> Option<Vec<u8>>> BlockSource for PositionedSource<R> {
    open spec fn bytes(&self) -> Seq<u8> {
        self.content()
    }

    open spec fn reliable(&self) -> bool {
        always_answers(self.reader(), self.content().len() as u64)
    }

    open spec fn sure_at(&self, offset: int, len: int) -> bool {
        forall|r: Option<Vec<u8>>| #[trigger]
            self.reader().ensures((offset as u64, len as usize), r) ==> r is Some
    }

    open spec fn format(&self) -> Seq<char> {
        "raw"@
    }

    fn total_size(&self) -> (n: u64) {
        proof {
            use_type_invariant(self);
        }
        self.size
    }

    fn format_name(&self) -> (name: &'static str) {
        "raw"
    }

    fn read_at(&self, offset: u64, len: usize) -> (r: Result<Vec<u8>, Error>) {
        proof {
            use_type_invariant(self);
        }
        if offset > self.size || len as u64 > self.size - offset {
            return Err(Error::Invalid(Fault::ReadRange));
        }
        let answer = (self.read)(offset, len);
        proof {
            let args = ((offset as int) as u64, (len as int) as usize);
            assert(args == (offset, len));
            assert(self.reader().ensures(args, answer));
        }
        match answer {
            Some(data) => Ok(data),
            None => Err(Error::Io),
        }
    }
}

/// Reads a piece of a file that must be there in full.
fn read_piece<F: BlockSource>(file: &F, offset: u64, len: usize) -> (r: Result<Vec<u8>, Error>)
    ensures
        match r {
            Ok(data) => {
                &&& offset + len <= file.bytes().len()
                &&& data@ == file.bytes().subrange(offset as int, offset + len)
            },
            Err(e) => e == Error::Io && (file.reliable() || file.sure_at(
                offset as int,
                len as int,
            ) ==> offset + len > file.bytes().len()),
        },
{
    match file.read_at(offset, len) {
        Ok(data) => Ok(data),
        Err(_) => Err(Error::Io),
    }
}

/// One chunk of a sparse file: where it lies in the image and in the file.
#[derive(Debug, Clone, Copy, PartialEq, Eq, Structural)]
pub struct SparseChunk {
    pub kind: u16,
    pub logical_start: u64,
    pub logical_len: u64,
    pub file_offset: u64,
    pub fill_value: u32,
}

impl SparseChunk {
    /// Where the chunk ends in the image.
    pub open spec fn end(self) -> int {
        self.logical_start + self.logical_len
    }

    /// Whether the chunk holds the image byte at `i`.
    pub open spec fn covers(self, i: int) -> bool {
        self.logical_start <= i < self.end()
    }

    /// The image byte at `i`, which the chunk holds, in the file `f`.
    pub open spec fn byte(self, f: Seq<u8>, i: int) -> u8 {
        if self.kind == CHUNK_RAW {
            f[self.file_offset + (i - self.logical_start)]
        } else if self.kind == CHUNK_FILL {
            spec_u32_to_le_bytes(self.fill_value)[i % 4]
        } else {
            0
        }
    }

    /// Whether the file `f` holds the data of the chunk up to `to`, if the chunk
    /// has any between `from` and `to`.
    pub open spec fn held_in(self, f: Seq<u8>, from: int, to: int) -> bool {
        let last = if to < self.end() {
            to
        } else {
            self.end()
        };
        self.kind == CHUNK_RAW && self.logical_start < to && from < self.end() ==> self.file_offset
            + (last - self.logical_start) <= f.len()
    }

    /// Whether the file `f` holds all the data of the chunk.
    pub open spec fn stored_in(self, f: Seq<u8>) -> bool {
        self.kind == CHUNK_RAW ==> self.file_offset + self.logical_len <= f.len()
    }
}

/// The chunks follow one another without gaps from 0 to `size`.
pub open spec fn contiguous(chunks: Seq<SparseChunk>, size: int) -> bool {
    &&& chunks.len() == 0 ==> size == 0
    &&& chunks.len() > 0 ==> chunks[0].logical_start == 0 && chunks.last().end() == size
    &&& forall|i: int|
        #![trigger chunks[i]]
        0 <= i < chunks.len() - 1 ==> chunks[i].end() == chunks[i + 1].logical_start
    &&& forall|i: int, j: int|
        #![trigger chunks[i], chunks[j]]
        0 <= i < j < chunks.len() ==> chunks[i].end() <= chunks[j].logical_start
}

/// The image byte at `i` of a sparse file `f` with these chunks.
pub open spec fn chunk_byte(f: Seq<u8>, chunks: Seq<SparseChunk>, i: int) -> u8 {
    let k = choose|k: int| 0 <= k < chunks.len() && #[trigger] chunks[k].covers(i);
    chunks[k].byte(f, i)
}

/// The image of `size` bytes that these chunks of a sparse file `f` describe.
pub open spec fn chunk_content(f: Seq<u8>, chunks: Seq<SparseChunk>, size: int) -> Seq<u8> {
    Seq::new(size as nat, |i: int| chunk_byte(f, chunks, i))
}

/// The fields of a sparse file header.
#[derive(Debug, Clone, Copy, PartialEq, Eq, Structural)]
pub struct SparseHeader {
    pub file_header_size: u16,
    pub chunk_header_size: u16,
    pub block_size: u32,
    pub total_blocks: u32,
    pub total_chunks: u32,
}

impl SparseHeader {
    /// The size of the image.
    pub open spec fn image_size(self) -> int {
        self.total_blocks * self.block_size
    }
}

/// The header of a sparse file.
pub open spec fn sparse_header(f: Seq<u8>) -> Result<SparseHeader, Error> {
    let h = SparseHeader {
        file_header_size: u16_at(f, 8),
        chunk_header_size: u16_at(f, 10),
        block_size: u32_at(f, 12),
        total_blocks: u32_at(f, 16),
        total_chunks: u32_at(f, 20),
    };
    if f.len() < 28 {
        Err(Error::Io)
    } else if u16_at(f, 4) != 1 || h.file_header_size < 28 || h.chunk_header_size < 12
        || h.block_size == 0 {
        Err(Error::Invalid(Fault::SparseHeader))
    } else if !(MIN_SPARSE_BLOCK <= h.block_size <= MAX_SPARSE_BLOCK) {
        Err(Error::Invalid(Fault::SparseBlockSize))
    } else if h.total_chunks > MAX_CHUNKS {
        Err(Error::Invalid(Fault::ChunkCount))
    } else {
        Ok(h)
    }
}

/// The chunk whose header stands at `pos`, and where the next header stands.
pub open spec fn chunk_at(f: Seq<u8>, h: SparseHeader, index: u32, pos: int, start: int) -> Result<
    (SparseChunk, int),
    Error,
> {
    let kind = u16_at(f, pos);
    let logical_len = u32_at(f, pos + 4) * h.block_size;
    let data_size = u32_at(f, pos + 8) - h.chunk_header_size;
    let data = pos + h.chunk_header_size;
    if h.chunk_header_size > MAX_CHUNK_HEADER {
        Err(Error::Invalid(Fault::ChunkHeaderLarge { index }))
    } else if data > f.len() {
        Err(Error::Io)
    } else if data_size < 0 {
        Err(Error::Invalid(Fault::ChunkSize { index }))
    } else if kind == CHUNK_FILL && data_size != 4 {
        Err(Error::Invalid(Fault::ChunkFillSize { index }))
    } else if kind == CHUNK_FILL && data + 4 > f.len() {
        Err(Error::Io)
    } else if kind == CHUNK_RAW && data_size != logical_len {
        Err(Error::Invalid(Fault::ChunkRawSize { index }))
    } else if kind == CHUNK_DONT_CARE && data_size != 0 {
        Err(Error::Invalid(Fault::ChunkDontCareSize { index }))
    } else if kind == CHUNK_CRC32 && data_size != 0 && data_size != 4 {
        Err(Error::Invalid(Fault::ChunkCrcSize { index }))
    } else if kind != CHUNK_RAW && kind != CHUNK_FILL && kind != CHUNK_DONT_CARE && kind
        != CHUNK_CRC32 {
        Err(Error::Invalid(Fault::ChunkType { index, kind }))
    } else {
        Ok(
            (
                SparseChunk {
                    kind,
                    logical_start: start as u64,
                    logical_len: logical_len as u64,
                    file_offset: data as u64,
                    fill_value: if kind == CHUNK_FILL {
                        u32_at(f, data)
                    } else {
                        0
                    },
                },
                data + data_size,
            ),
        )
    }
}

/// What came before `rest`, followed by it.
pub open spec fn after<T>(done: Seq<T>, rest: Result<Seq<T>, Error>) -> Result<Seq<T>, Error> {
    match rest {
        Ok(s) => Ok(done + s),
        Err(e) => Err(e),
    }
}

/// The chunks from the `index`-th on, whose header stands at `pos` and whose
/// data starts at `start` of the image.
pub open spec fn chunks_from(
    f: Seq<u8>,
    h: SparseHeader,
    index: int,
    pos: int,
    start: int,
) -> Result<Seq<SparseChunk>, Error>
    decreases h.total_chunks - index,
{
    if index < 0 || index >= h.total_chunks {
        if start == h.image_size() {
            Ok(Seq::empty())
        } else {
            Err(Error::Invalid(Fault::SparseTotal))
        }
    } else {
        match chunk_at(f, h, index as u32, pos, start) {
            Err(e) => Err(e),
            Ok((c, next)) => if start + c.logical_len > u64::MAX {
                Err(Error::Invalid(Fault::SparseOverflow))
            } else {
                after(seq![c], chunks_from(f, h, index + 1, next, start + c.logical_len))
            },
        }
    }
}

/// The chunks of a sparse file.
pub open spec fn sparse_chunks(f: Seq<u8>) -> Result<Seq<SparseChunk>, Error> {
    match sparse_header(f) {
        Err(e) => Err(e),
        Ok(h) => chunks_from(f, h, 0, h.file_header_size as int, 0),
    }
}

/// Whether a file is an Android Sparse container.
pub open spec fn is_sparse(f: Seq<u8>) -> bool {
    u32_at(f, 0) == SPARSE_MAGIC
}

/// The image in a file: what a sparse container describes, or the file itself.
pub open spec fn decoded(f: Seq<u8>) -> Result<Seq<u8>, Error> {
    if f.len() < 4 {
        Err(Error::Io)
    } else if !is_sparse(f) {
        Ok(f)
    } else {
        match sparse_chunks(f) {
            Err(e) => Err(e),
            Ok(chunks) => Ok(chunk_content(f, chunks, sparse_header(f)->Ok_0.image_size())),
        }
    }
}

/// Whether the file holds the data of every chunk that it announces.
pub open spec fn complete(f: Seq<u8>) -> bool {
    is_sparse(f) ==> match sparse_chunks(f) {
        Ok(chunks) => forall|k: int|
            0 <= k < chunks.len() ==> (#[trigger] chunks[k]).stored_in(f),
        Err(_) => false,
    }
}

/// Whether a file holds the data of these chunks between `from` and `to` of the
/// image.
pub open spec fn chunks_held(f: Seq<u8>, chunks: Seq<SparseChunk>, from: int, to: int) -> bool {
    forall|k: int| 0 <= k < chunks.len() ==> (#[trigger] chunks[k]).held_in(f, from, to)
}

/// Whether a file holds the data of the image in it between `from` and `to`.
pub open spec fn stored_at(f: Seq<u8>, from: int, to: int) -> bool {
    is_sparse(f) ==> (sparse_chunks(f) matches Ok(chunks) && chunks_held(f, chunks, from, to))
}

/// A complete file holds the data of every part of the image in it.
pub proof fn law_complete_stored(f: Seq<u8>, from: int, to: int)
    requires
        complete(f),
    ensures
        stored_at(f, from, to),
{
    if is_sparse(f) {
        let chunks = sparse_chunks(f)->Ok_0;
        assert forall|k: int| 0 <= k < chunks.len() implies (#[trigger] chunks[k]).held_in(
            f,
            from,
            to,
        ) by {
            assert(chunks[k].stored_in(f));
        }
    }
}

/// An open image: a raw file, or a sparse container with the index of its chunks.
pub struct Image<F: BlockSource> {
    file: F,
    sparse: bool,
    size: u64,
    chunks: Vec<SparseChunk>,
}

impl<F: BlockSource> Image<F> {
    #[verifier::type_invariant]
    spec fn inv(self) -> bool {
        if self.sparse {
            &&& contiguous(self.chunks@, self.size as int)
            &&& forall|k: int|
                0 <= k < self.chunks@.len() && self.chunks@[k].kind == CHUNK_RAW ==> (
                #[trigger] self.chunks@[k]).file_offset + self.chunks@[k].logical_len <= u64::MAX
        } else {
            self.size == self.file.bytes().len()
        }
    }

    /// The logical size of the image.
    pub fn size(&self) -> (n: u64)
        ensures
            n == self.bytes().len(),
    {
        proof {
            use_type_invariant(self);
        }
        self.size
    }
}

/// The index of the chunk that holds the image byte at `position`, by binary
/// search.
fn find_chunk(chunks: &Vec<SparseChunk>, position: u64, size: u64) -> (r: usize)
    requires
        contiguous(chunks@, size as int),
        position < size,
    ensures
        r < chunks.len(),
        chunks@[r as int].covers(position as int),
{
    let mut lo: usize = 0;
    let mut hi: usize = chunks.len();
    while lo < hi
        invariant
            lo <= hi <= chunks.len(),
            contiguous(chunks@, size as int),
            position < size,
            forall|k: int| 0 <= k < lo ==> (#[trigger] chunks@[k]).end() <= position,
            forall|k: int|
                hi <= k < chunks.len() ==> (#[trigger] chunks@[k]).logical_start > position,
        decreases hi - lo,
    {
        let mid = lo + (hi - lo) / 2;
        let c = chunks[mid];
        if position < c.logical_start {
            hi = mid;
        } else if position - c.logical_start >= c.logical_len {
            lo = mid + 1;
        } else {
            return mid;
        }
    }
    proof {
        let n = chunks@.len() as int;
        if lo == 0 {
            assert(n > 0);
            assert(chunks@[0].logical_start > position);
        } else {
            assert(chunks@[lo - 1].end() <= position);
            if lo < n {
                assert(chunks@[lo as int].logical_start > position);
            }
        }
        assert(false);
    }
    0
}

/// Where chunks are contiguous, the byte at `i` is that of the chunk that holds it.
proof fn lemma_chunk_byte(f: Seq<u8>, chunks: Seq<SparseChunk>, size: int, k: int, i: int)
    requires
        contiguous(chunks, size),
        0 <= k < chunks.len(),
        chunks[k].covers(i),
    ensures
        chunk_byte(f, chunks, i) == chunks[k].byte(f, i),
{
    let m = choose|m: int| 0 <= m < chunks.len() && #[trigger] chunks[m].covers(i);
    assert(chunks[m].covers(i));
    if m < k {
        assert(chunks[m].end() <= chunks[k].logical_start);
    } else if k < m {
        assert(chunks[k].end() <= chunks[m].logical_start);
    }
}

/// The `count` image bytes from `position` on, all of them in one chunk.
spec fn chunk_part(f: Seq<u8>, chunk: SparseChunk, position: int, count: int) -> Seq<u8> {
    Seq::new(count as nat, |i: int| chunk.byte(f, position + i))
}

proof fn lemma_chunk_part(
    f: Seq<u8>,
    chunks: Seq<SparseChunk>,
    size: int,
    k: int,
    offset: int,
    position: int,
    count: int,
)
    requires
        contiguous(chunks, size),
        0 <= k < chunks.len(),
        0 <= offset <= position,
        0 <= count,
        chunks[k].logical_start <= position,
        position + count <= chunks[k].end(),
        position + count <= size,
    ensures
        ({
            let c = chunk_content(f, chunks, size);
            c.subrange(offset, position) + chunk_part(f, chunks[k], position, count) == c.subrange(
                offset,
                position + count,
            )
        }),
{
    let c = chunk_content(f, chunks, size);
    let part = chunk_part(f, chunks[k], position, count);
    assert forall|i: int| 0 <= i < count implies c[position + i] == #[trigger] part[i] by {
        lemma_chunk_byte(f, chunks, size, k, position + i);
    }
    assert(c.subrange(offset, position) + part =~= c.subrange(offset, position + count));
}

/// Reads `count` image bytes from `position` on out of one chunk.
fn read_part<F: BlockSource>(file: &F, chunk: &SparseChunk, position: u64, count: usize) -> (r:
    Result<Vec<u8>, Error>)
    requires
        chunk.logical_start <= position,
        position + count <= chunk.end(),
        position + count <= u64::MAX,
        chunk.kind == CHUNK_RAW ==> chunk.file_offset + chunk.logical_len <= u64::MAX,
    ensures
        match r {
            Ok(data) => data@ == chunk_part(file.bytes(), *chunk, position as int, count as int),
            Err(e) => e == Error::Io && !(file.reliable() && (chunk.kind == CHUNK_RAW
                ==> chunk.file_offset + (position + count - chunk.logical_start)
                <= file.bytes().len())),
        },
{
    let ghost f = file.bytes();
    let ghost part = chunk_part(f, *chunk, position as int, count as int);
    if chunk.kind == CHUNK_RAW {
        let data = read_piece(file, chunk.file_offset + (position - chunk.logical_start), count)?;
        assert(data@ =~= part);
        return Ok(data);
    }
    let mut out: Vec<u8> = Vec::new();
    if chunk.kind == CHUNK_FILL {
        let pattern = u32_to_le_bytes(chunk.fill_value);
        let mut i: usize = 0;
        proof {
            lemma_auto_spec_u32_to_from_le_bytes();
        }
        while i < count
            invariant
                i <= count,
                position + count <= u64::MAX,
                pattern@ == spec_u32_to_le_bytes(chunk.fill_value),
                pattern.len() == 4,
                chunk.kind == CHUNK_FILL,
                part == chunk_part(f, *chunk, position as int, count as int),
                out@ == part.take(i as int),
            decreases count - i,
        {
            let at = ((position + i as u64) % 4) as usize;
            out.push(pattern[at]);
            assert(part.take(i + 1) =~= part.take(i as int).push(part[i as int]));
            i += 1;
        }
        assert(part.take(count as int) =~= part);
    } else {
        push_zeros(&mut out, count);
        assert(out@ =~= part);
    }
    Ok(out)
}

impl<F: BlockSource> Image<F> {
    /// Reads from the chunks of a sparse container.
    fn read_chunks(&self, offset: u64, len: usize) -> (r: Result<Vec<u8>, Error>)
        requires
            self.sparse,
            offset + len <= self.size,
        ensures
            match r {
                Ok(data) => data@ == self.bytes().subrange(offset as int, offset + len),
                Err(e) => e == Error::Io && !self.reliable() && !self.sure_at(
                    offset as int,
                    len as int,
                ),
            },
    {
        proof {
            use_type_invariant(self);
        }
        let ghost f = self.file.bytes();
        let ghost c = self.bytes();
        let mut out: Vec<u8> = Vec::new();
        while out.len() < len
            invariant
                self.sparse,
                contiguous(self.chunks@, self.size as int),
                forall|k: int|
                    0 <= k < self.chunks@.len() && self.chunks@[k].kind == CHUNK_RAW ==> (
                    #[trigger] self.chunks@[k]).file_offset + self.chunks@[k].logical_len
                        <= u64::MAX,
                offset + len <= self.size,
                out.len() <= len,
                f == self.file.bytes(),
                c == self.bytes(),
                c == chunk_content(f, self.chunks@, self.size as int),
                out@ == c.subrange(offset as int, offset + out.len()),
            decreases len - out.len(),
        {
            let position = offset + out.len() as u64;
            let idx = find_chunk(&self.chunks, position, self.size);
            let chunk = self.chunks[idx];
            let inner = position - chunk.logical_start;
            let available = chunk.logical_len - inner;
            let want = len - out.len();
            let count = if available < want as u64 {
                available as usize
            } else {
                want
            };
            proof {
                lemma_chunk_part(
                    f,
                    self.chunks@,
                    self.size as int,
                    idx as int,
                    offset as int,
                    position as int,
                    count as int,
                );
            }
            match read_part(&self.file, &chunk, position, count) {
                Err(e) => {
                    assert(self.reliable() ==> chunk.stored_in(f));
                    assert(self.sure_at(offset as int, len as int) ==> chunk.held_in(
                        f,
                        offset as int,
                        offset + len,
                    ));
                    return Err(e);
                },
                Ok(mut data) => {
                    out.append(&mut data);
                },
            }
        }
        Ok(out)
    }
}

impl<F: BlockSource> Image<F> {
    /// Opens an image: a file that starts with the sparse magic is indexed as
    /// a sparse container, any other file is a raw image.
    pub fn open(file: F) -> (r: Result<Image<F>, Error>)
        ensures
            match r {
                Ok(image) => {
                    &&& decoded(file.bytes()) == Ok::<Seq<u8>, Error>(image.bytes())
                    &&& image.reliable() == (file.reliable() && complete(file.bytes()))
                    &&& forall|offset: int, len: int|
                        #[trigger] image.sure_at(offset, len) == sure_in(&file, offset, len)
                    &&& image.format() == (if is_sparse(file.bytes()) {
                        "android-sparse"@
                    } else {
                        "raw"@
                    })
                },
                Err(e) => decoded(file.bytes()) == Err::<Seq<u8>, Error>(e) || (e == Error::Io
                    && !file.reliable()),
            },
    {
        let magic = read_piece(&file, 0, 4)?;
        proof {
            lemma_piece(file.bytes(), 0, 4, 0);
        }
        if read_u32(&magic, 0)? == SPARSE_MAGIC {
            Self::parse_sparse(file)
        } else {
            let size = file.total_size();
            Ok(Image { file, sparse: false, size, chunks: Vec::new() })
        }
    }

    fn parse_sparse(file: F) -> (r: Result<Image<F>, Error>)
        requires
            is_sparse(file.bytes()),
            file.bytes().len() >= 4,
        ensures
            match r {
                Ok(image) => {
                    &&& decoded(file.bytes()) == Ok::<Seq<u8>, Error>(image.bytes())
                    &&& image.reliable() == (file.reliable() && complete(file.bytes()))
                    &&& forall|offset: int, len: int|
                        #[trigger] image.sure_at(offset, len) == sure_in(&file, offset, len)
                    &&& image.format() == "android-sparse"@
                },
                Err(e) => decoded(file.bytes()) == Err::<Seq<u8>, Error>(e) || (e == Error::Io
                    && !file.reliable()),
            },
    {
        let h = read_sparse_header(&file)?;
        let (chunks, size) = read_chunk_table(&file, &h)?;
        Ok(Image { file, sparse: true, size, chunks })
    }
}

/// Whether a read of the image in a file succeeds: the file has to answer, and
/// has to hold the data of the chunks that the read meets.
pub open spec fn sure_in<F: BlockSource>(file: &F, offset: int, len: int) -> bool {
    if is_sparse(file.bytes()) {
        file.reliable() && stored_at(file.bytes(), offset, offset + len)
    } else {
        file.reliable() || file.sure_at(offset, len)
    }
}

/// Reads the header of a sparse file.
fn read_sparse_header<F: BlockSource>(file: &F) -> (r: Result<SparseHeader, Error>)
    ensures
        match r {
            Ok(h) => sparse_header(file.bytes()) == Ok::<SparseHeader, Error>(h),
            Err(e) => sparse_header(file.bytes()) == Err::<SparseHeader, Error>(e) || (e
                == Error::Io && !file.reliable()),
        },
{
    let header = read_piece(file, 0, 28)?;
    proof {
        let f = file.bytes();
        lemma_piece(f, 0, 28, 4);
        lemma_piece(f, 0, 28, 8);
        lemma_piece(f, 0, 28, 10);
        lemma_piece(f, 0, 28, 12);
        lemma_piece(f, 0, 28, 16);
        lemma_piece(f, 0, 28, 20);
    }
    let major = read_u16(&header, 4)?;
    let h = SparseHeader {
        file_header_size: read_u16(&header, 8)?,
        chunk_header_size: read_u16(&header, 10)?,
        block_size: read_u32(&header, 12)?,
        total_blocks: read_u32(&header, 16)?,
        total_chunks: read_u32(&header, 20)?,
    };
    if major != 1 || h.file_header_size < 28 || h.chunk_header_size < 12 || h.block_size == 0 {
        return Err(Error::Invalid(Fault::SparseHeader));
    }
    if h.block_size < MIN_SPARSE_BLOCK || h.block_size > MAX_SPARSE_BLOCK {
        return Err(Error::Invalid(Fault::SparseBlockSize));
    }
    if h.total_chunks > MAX_CHUNKS {
        return Err(Error::Invalid(Fault::ChunkCount));
    }
    Ok(h)
}

/// Reads the chunk whose header stands at `pos`, and tells where the next
/// header stands.
fn read_chunk<F: BlockSource>(
    file: &F,
    h: &SparseHeader,
    index: u32,
    pos: u64,
    start: u64,
) -> (r: Result<(SparseChunk, u64), Error>)
    requires
        h.chunk_header_size >= 12,
        pos <= u64::MAX - 0x2_0000_0000,
    ensures
        match r {
            Ok((c, next)) => {
                &&& chunk_at(file.bytes(), *h, index, pos as int, start as int) == Ok::<
                    (SparseChunk, int),
                    Error,
                >((c, next as int))
                &&& c.logical_start == start
                &&& c.kind == CHUNK_RAW ==> c.file_offset + c.logical_len == next
                &&& pos <= c.file_offset <= next <= pos + 0x1_0001_0000
            },
            Err(e) => chunk_at(file.bytes(), *h, index, pos as int, start as int) == Err::<
                (SparseChunk, int),
                Error,
            >(e) || (e == Error::Io && !file.reliable()),
        },
{
    if h.chunk_header_size as u64 > MAX_CHUNK_HEADER {
        return Err(Error::Invalid(Fault::ChunkHeaderLarge { index }));
    }
    let header_len = h.chunk_header_size as usize;
    let header = read_piece(file, pos, header_len)?;
    proof {
        let f = file.bytes();
        lemma_piece(f, pos as int, pos + header_len, 0);
        lemma_piece(f, pos as int, pos + header_len, 4);
        lemma_piece(f, pos as int, pos + header_len, 8);
    }
    let kind = read_u16(&header, 0)?;
    let blocks = read_u32(&header, 4)? as u64;
    let total = read_u32(&header, 8)? as u64;
    let block_size = h.block_size as u64;
    proof {
        assert(blocks * block_size <= 0xffff_ffff * 0xffff_ffff) by (nonlinear_arith)
            requires
                0 <= blocks <= 0xffff_ffff,
                0 <= block_size <= 0xffff_ffff,
        ;
    }
    let logical_len = blocks * block_size;
    if total < header_len as u64 {
        return Err(Error::Invalid(Fault::ChunkSize { index }));
    }
    let data_size = total - header_len as u64;
    let file_offset = pos + header_len as u64;
    let mut fill_value: u32 = 0;
    if kind == CHUNK_FILL {
        if data_size != 4 {
            return Err(Error::Invalid(Fault::ChunkFillSize { index }));
        }
        let pattern = read_piece(file, file_offset, 4)?;
        proof {
            lemma_piece(file.bytes(), file_offset as int, file_offset + 4, 0);
        }
        fill_value = read_u32(&pattern, 0)?;
    } else if kind == CHUNK_RAW {
        if data_size != logical_len {
            return Err(Error::Invalid(Fault::ChunkRawSize { index }));
        }
    } else if kind == CHUNK_DONT_CARE {
        if data_size != 0 {
            return Err(Error::Invalid(Fault::ChunkDontCareSize { index }));
        }
    } else if kind == CHUNK_CRC32 {
        if data_size != 0 && data_size != 4 {
            return Err(Error::Invalid(Fault::ChunkCrcSize { index }));
        }
    } else {
        return Err(Error::Invalid(Fault::ChunkType { index, kind }));
    }
    let chunk = SparseChunk { kind, logical_start: start, logical_len, file_offset, fill_value };
    Ok((chunk, file_offset + data_size))
}

/// Reads all chunk headers of a sparse file, and tells the image size.
fn read_chunk_table<F: BlockSource>(file: &F, h: &SparseHeader) -> (r: Result<
    (Vec<SparseChunk>, u64),
    Error,
>)
    requires
        sparse_header(file.bytes()) == Ok::<SparseHeader, Error>(*h),
    ensures
        match r {
            Ok((chunks, size)) => {
                &&& sparse_chunks(file.bytes()) == Ok::<Seq<SparseChunk>, Error>(chunks@)
                &&& contiguous(chunks@, size as int)
                &&& size == h.image_size()
                &&& forall|k: int|
                    0 <= k < chunks@.len() && chunks@[k].kind == CHUNK_RAW ==> (
                    #[trigger] chunks@[k]).file_offset + chunks@[k].logical_len <= u64::MAX
            },
            Err(e) => sparse_chunks(file.bytes()) == Err::<Seq<SparseChunk>, Error>(e) || (e
                == Error::Io && !file.reliable()),
        },
{
    let ghost f = file.bytes();
    let mut chunks: Vec<SparseChunk> = Vec::new();
    let mut pos: u64 = h.file_header_size as u64;
    let mut start: u64 = 0;
    let mut index: u32 = 0;
    proof {
        let rest = chunks_from(f, *h, 0, pos as int, 0);
        if rest is Ok {
            assert(chunks@ + rest->Ok_0 =~= rest->Ok_0);
        }
    }
    while index < h.total_chunks
        invariant
            f == file.bytes(),
            sparse_header(f) == Ok::<SparseHeader, Error>(*h),
            h.total_chunks <= MAX_CHUNKS,
            index <= h.total_chunks,
            index == chunks.len(),
            pos <= 0x1_0000 + index * 0x1_0001_0000,
            sparse_chunks(f) == after(
                chunks@,
                chunks_from(f, *h, index as int, pos as int, start as int),
            ),
            contiguous(chunks@, start as int),
            forall|k: int|
                0 <= k < chunks@.len() && chunks@[k].kind == CHUNK_RAW ==> (
                #[trigger] chunks@[k]).file_offset + chunks@[k].logical_len <= u64::MAX,
        decreases h.total_chunks - index,
    {
        let (chunk, next) = read_chunk(file, h, index, pos, start)?;
        if start > u64::MAX - chunk.logical_len {
            return Err(Error::Invalid(Fault::SparseOverflow));
        }
        let ghost before = chunks@;
        chunks.push(chunk);
        proof {
            let rest = chunks_from(f, *h, index + 1, next as int, start + chunk.logical_len);
            if rest is Ok {
                assert(before + (seq![chunk] + rest->Ok_0) =~= chunks@ + rest->Ok_0);
            }
        }
        start = start + chunk.logical_len;
        pos = next;
        index += 1;
    }
    let blocks = h.total_blocks as u64;
    let block_size = h.block_size as u64;
    proof {
        assert(blocks * block_size <= 0xffff_ffff * 0xffff_ffff) by (nonlinear_arith)
            requires
                0 <= blocks <= 0xffff_ffff,
                0 <= block_size <= 0xffff_ffff,
        ;
        assert(chunks@ + Seq::<SparseChunk>::empty() =~= chunks@);
    }
    if start != blocks * block_size {
        return Err(Error::Invalid(Fault::SparseTotal));
    }
    Ok((chunks, start))
}

impl<F: BlockSource> BlockSource for Image<F> {
    closed spec fn bytes(&self) -> Seq<u8> {
        if self.sparse {
            chunk_content(self.file.bytes(), self.chunks@, self.size as int)
        } else {
            self.file.bytes()
        }
    }

    closed spec fn reliable(&self) -> bool {
        self.file.reliable() && (self.sparse ==> forall|k: int|
            0 <= k < self.chunks@.len() ==> (#[trigger] self.chunks@[k]).stored_in(
                self.file.bytes(),
            ))
    }

    closed spec fn sure_at(&self, offset: int, len: int) -> bool {
        if self.sparse {
            self.file.reliable() && chunks_held(
                self.file.bytes(),
                self.chunks@,
                offset,
                offset + len,
            )
        } else {
            self.file.reliable() || self.file.sure_at(offset, len)
        }
    }

    closed spec fn format(&self) -> Seq<char> {
        if self.sparse {
            "android-sparse"@
        } else {
            "raw"@
        }
    }

    fn total_size(&self) -> (n: u64) {
        self.size()
    }

    fn format_name(&self) -> (name: &'static str) {
        if self.sparse {
            "android-sparse"
        } else {
            "raw"
        }
    }

    fn read_at(&self, offset: u64, len: usize) -> (r: Result<Vec<u8>, Error>) {
        proof {
            use_type_invariant(self);
        }
        if len as u64 > self.size || offset > self.size - len as u64 {
            return Err(Error::Invalid(Fault::ReadRange));
        }
        if self.sparse {
            self.read_chunks(offset, len)
        } else {
            read_piece(&self.file, offset, len)
        }
    }
}

} // verus!
