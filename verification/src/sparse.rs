//! Sparse, retry-driven reading for environments without blocking I/O: a
//! reader over a chunk cache that reports the first missing range instead of
//! blocking.
//!
//! Protocol: run any decoder operation; if it fails and
//! [`MissingRange::take`] yields a range, fetch those bytes (over-fetching
//! is fine), [`ChunkCache::insert`] them, and retry the operation. Each
//! round trip makes strict progress, so the loop terminates.

use crate::error::{Error, Fault, IoError, Result};
use vstd::prelude::*;
use vstd::slice::slice_subrange;

verus! {

/// Fetched bytes and the file offset of the first of them.
struct Chunk {
    start: u64,
    bytes: Vec<u8>,
}

/// A chunk as a mathematical value.
#[verifier::ext_equal]
pub struct ChunkModel {
    pub start: int,
    pub bytes: Seq<u8>,
}

impl ChunkModel {
    pub open spec fn end(self) -> int {
        self.start + self.bytes.len()
    }
}

/// Chunk store keyed by absolute byte offset, in ascending order of it.
pub struct ChunkCache {
    chunks: Vec<Chunk>,
}

impl View for ChunkCache {
    type V = Seq<ChunkModel>;

    closed spec fn view(&self) -> Seq<ChunkModel> {
        Seq::new(
            self.chunks@.len(),
            |i: int|
                ChunkModel {
                    start: self.chunks@[i].start as int,
                    bytes: self.chunks@[i].bytes@,
                },
        )
    }
}

/// Chunks in strictly ascending order of their offset, none of them empty.
pub open spec fn chunks_wf(s: Seq<ChunkModel>) -> bool {
    &&& forall|i: int, j: int| 0 <= i < j < s.len() ==> (#[trigger] s[i]).start < (#[trigger] s[j]).start
    &&& forall|i: int|
        0 <= i < s.len() ==> 0 <= (#[trigger] s[i]).start && s[i].bytes.len() > 0 && s[i].end()
            <= u64::MAX
}

/// How many chunks start at `p` or before.
pub open spec fn rank(s: Seq<ChunkModel>, p: int) -> int
    decreases s.len(),
{
    if s.len() == 0 {
        0
    } else if s.last().start <= p {
        s.len() as int
    } else {
        rank(s.drop_last(), p)
    }
}

/// Some chunk holds the byte at file position `p`.
pub open spec fn held(s: Seq<ChunkModel>, p: int) -> bool {
    exists|i: int| 0 <= i < s.len() && (#[trigger] s[i]).start <= p < s[i].end()
}

/// The last chunk that holds the byte at `p`; a negative number if none does.
pub open spec fn holder(s: Seq<ChunkModel>, p: int) -> int
    decreases s.len(),
{
    if s.len() == 0 {
        -1
    } else if s.last().start <= p < s.last().end() {
        s.len() - 1
    } else {
        holder(s.drop_last(), p)
    }
}

/// The bytes that the cache gives for file position `p`, at most `want` of
/// them: those of the last chunk that holds `p`. There are none only where no
/// chunk does.
pub open spec fn piece(s: Seq<ChunkModel>, p: int, want: int) -> Option<Seq<u8>> {
    let i = holder(s, p);
    if i >= 0 {
        let chunk = s[i];
        let stop = if p + want <= chunk.end() {
            p + want
        } else {
            chunk.end()
        };
        Some(chunk.bytes.subrange(p - chunk.start, stop - chunk.start))
    } else {
        None
    }
}

/// The `len` bytes at `offset` are fully contained in a chunk.
pub open spec fn contained(s: Seq<ChunkModel>, offset: int, len: int) -> bool {
    exists|i: int|
        0 <= i < s.len() && (#[trigger] s[i]).start <= offset && offset + len <= s[i].end()
}

/// The cache after bytes were put in at `offset`. Nothing changes where there
/// are no bytes, or where a chunk contains them already; a chunk that starts
/// at `offset` and is shorter gives way.
pub open spec fn chunks_insert(s: Seq<ChunkModel>, offset: int, bytes: Seq<u8>) -> Seq<ChunkModel> {
    let k = rank(s, offset);
    let new = ChunkModel { start: offset, bytes };
    if bytes.len() == 0 || contained(s, offset, bytes.len() as int) {
        s
    } else if k > 0 && s[k - 1].start == offset {
        s.update(k - 1, new)
    } else {
        s.insert(k, new)
    }
}

/// Sum of the chunk sizes.
pub open spec fn chunks_total(s: Seq<ChunkModel>) -> nat
    decreases s.len(),
{
    if s.len() == 0 {
        0
    } else {
        chunks_total(s.drop_last()) + s.last().bytes.len()
    }
}

/// The chunks up to the rank start at `p` or before, the others after `p`.
pub proof fn lemma_rank(s: Seq<ChunkModel>, p: int)
    requires
        chunks_wf(s),
    ensures
        0 <= rank(s, p) <= s.len(),
        forall|i: int| 0 <= i < rank(s, p) ==> (#[trigger] s[i]).start <= p,
        forall|i: int| rank(s, p) <= i < s.len() ==> (#[trigger] s[i]).start > p,
    decreases s.len(),
{
    if s.len() > 0 && s.last().start > p {
        let t = s.drop_last();
        assert(forall|i: int| 0 <= i < t.len() ==> t[i] == s[i]);
        lemma_rank(t, p);
    }
}

/// What the last chunk that holds a position is.
pub proof fn lemma_holder(s: Seq<ChunkModel>, p: int)
    ensures
        holder(s, p) < s.len(),
        holder(s, p) >= 0 <==> held(s, p),
        holder(s, p) >= 0 ==> s[holder(s, p)].start <= p < s[holder(s, p)].end(),
        forall|i: int|
            0 <= i < s.len() && holder(s, p) < i ==> !((#[trigger] s[i]).start <= p < s[i].end()),
    decreases s.len(),
{
    if s.len() > 0 {
        let t = s.drop_last();
        assert(forall|i: int| 0 <= i < t.len() ==> t[i] == s[i]);
        lemma_holder(t, p);
        if held(t, p) {
            let i = choose|i: int| 0 <= i < t.len() && (#[trigger] t[i]).start <= p < t[i].end();
            assert(s[i].start <= p < s[i].end());
        }
    }
}

/// The last chunk that holds a position is the only one like it.
proof fn lemma_holder_is(s: Seq<ChunkModel>, p: int, k: int)
    requires
        0 <= k < s.len(),
        s[k].start <= p < s[k].end(),
        forall|i: int| k < i < s.len() ==> !((#[trigger] s[i]).start <= p < s[i].end()),
    ensures
        holder(s, p) == k,
{
    lemma_holder(s, p);
}

/// The rank is the only number with that property.
proof fn lemma_rank_is(s: Seq<ChunkModel>, p: int, k: int)
    requires
        chunks_wf(s),
        0 <= k <= s.len(),
        k > 0 ==> s[k - 1].start <= p,
        k < s.len() ==> s[k].start > p,
    ensures
        rank(s, p) == k,
{
    lemma_rank(s, p);
    let r = rank(s, p);
    if r < k {
        assert(s[r].start <= s[k - 1].start);
    }
    if r > k {
        assert(s[k].start <= p);
    }
}

impl ChunkCache {
    pub open spec fn wf(self) -> bool {
        chunks_wf(self@)
    }

    pub fn new() -> (c: ChunkCache)
        ensures
            c.wf(),
            c@ == Seq::<ChunkModel>::empty(),
    {
        let c: ChunkCache = ChunkCache { chunks: Vec::new() };
        assert(c@ =~= Seq::<ChunkModel>::empty());
        c
    }

    /// How many chunks start at `p` or before.
    fn locate(&self, p: u64) -> (k: usize)
        requires
            self.wf(),
        ensures
            k == rank(self@, p as int),
            k <= self.chunks@.len(),
    {
        let mut lo: usize = 0;
        let mut hi: usize = self.chunks.len();
        while lo < hi
            invariant
                self.wf(),
                lo <= hi <= self.chunks@.len(),
                forall|i: int| 0 <= i < lo ==> (#[trigger] self@[i]).start <= p,
                forall|i: int| hi <= i < self@.len() ==> (#[trigger] self@[i]).start > p,
            decreases hi - lo,
        {
            let mid: usize = lo + (hi - lo) / 2;
            assert(self@[mid as int].start == self.chunks@[mid as int].start);
            if self.chunks[mid].start <= p {
                lo = mid + 1;
            } else {
                hi = mid;
            }
        }
        proof {
            lemma_rank_is(self@, p as int, lo as int);
        }
        lo
    }

    /// Whether `len` bytes at `offset` are fully contained in one of the first
    /// `k` chunks.
    fn contains(&self, k: usize, offset: u64, len: u64) -> (r: bool)
        requires
            self.wf(),
            k == rank(self@, offset as int),
            k <= self.chunks@.len(),
            offset + len <= u64::MAX,
        ensures
            r == contained(self@, offset as int, len as int),
    {
        proof {
            lemma_rank(self@, offset as int);
        }
        let mut i: usize = k;
        while i > 0
            invariant
                self.wf(),
                i <= k <= self.chunks@.len(),
                offset + len <= u64::MAX,
                forall|j: int| k <= j < self@.len() ==> (#[trigger] self@[j]).start > offset,
                forall|j: int|
                    i <= j < k ==> !((#[trigger] self@[j]).start <= offset && offset + len
                        <= self@[j].end()),
            decreases i,
        {
            i = i - 1;
            let chunk: &Chunk = &self.chunks[i];
            assert(self@[i as int].start == chunk.start && self@[i as int].bytes == chunk.bytes@);
            if chunk.start <= offset && offset + len <= chunk.start + chunk.bytes.len() as u64 {
                return true;
            }
        }
        false
    }

    /// Insert fetched bytes at `offset`. Overlaps are fine; a chunk that
    /// is fully contained in an existing one is dropped.
    pub fn insert(&mut self, offset: u64, bytes: Vec<u8>)
        requires
            old(self).wf(),
            offset + bytes@.len() <= u64::MAX,
        ensures
            final(self).wf(),
            final(self)@ == chunks_insert(old(self)@, offset as int, bytes@),
    {
        if bytes.len() == 0 {
            return ;
        }
        let k: usize = self.locate(offset);
        let ghost before = self@;
        let ghost new = ChunkModel { start: offset as int, bytes: bytes@ };
        proof {
            lemma_rank(self@, offset as int);
        }
        if self.contains(k, offset, bytes.len() as u64) {
            return ;
        }
        if k > 0 {
            let start: u64 = self.chunks[k - 1].start;
            assert(self@[k - 1].start == start);
            if start == offset {
                self.chunks[k - 1] = Chunk { start: offset, bytes };
                assert(self@ =~= before.update(k - 1, new));
                return ;
            }
        }
        self.chunks.insert(k, Chunk { start: offset, bytes });
        assert(self@ =~= before.insert(k as int, new));
    }

    /// Total cached bytes (diagnostics).
    pub fn cached_bytes(&self) -> (n: u64)
        requires
            chunks_total(self@) <= u64::MAX,
        ensures
            n == chunks_total(self@),
    {
        let mut n: u64 = 0;
        let count: usize = self.chunks.len();
        let mut i: usize = 0;
        assert(self@.take(0) =~= Seq::<ChunkModel>::empty());
        while i < count
            invariant
                i <= count,
                count == self@.len(),
                count == self.chunks@.len(),
                chunks_total(self@) <= u64::MAX,
                n == chunks_total(self@.take(i as int)),
            decreases count - i,
        {
            proof {
                let now = self@.take(i + 1);
                assert(now.drop_last() =~= self@.take(i as int));
                assert(now.last() == self@[i as int]);
                lemma_total_mono(self@, i + 1);
            }
            n = n + self.chunks[i].bytes.len() as u64;
            i = i + 1;
        }
        assert(self@.take(count as int) =~= self@);
        n
    }

    /// Bytes at `pos`, at most `want` of them; `None` when `pos` is not
    /// cached. May give fewer bytes than requested (chunk boundary).
    fn read_at(&self, pos: u64, want: usize) -> (r: Option<&[u8]>)
        requires
            self.wf(),
        ensures
            r is None <==> !held(self@, pos as int),
            match r {
                Some(b) => piece(self@, pos as int, want as int) == Some(b@),
                None => piece(self@, pos as int, want as int) is None,
            },
    {
        let k: usize = self.locate(pos);
        proof {
            lemma_rank(self@, pos as int);
            lemma_holder(self@, pos as int);
        }
        let mut i: usize = k;
        while i > 0
            invariant
                self.wf(),
                i <= k <= self.chunks@.len(),
                forall|j: int|
                    i <= j < self@.len() ==> !((#[trigger] self@[j]).start <= pos
                        < self@[j].end()),
                forall|j: int| 0 <= j < k ==> (#[trigger] self@[j]).start <= pos,
            decreases i,
        {
            i = i - 1;
            let chunk: &Chunk = &self.chunks[i];
            assert(self@[i as int].start == chunk.start && self@[i as int].bytes == chunk.bytes@);
            if pos - chunk.start < chunk.bytes.len() as u64 {
                proof {
                    lemma_holder_is(self@, pos as int, i as int);
                }
                let off: usize = (pos - chunk.start) as usize;
                let left: usize = chunk.bytes.len() - off;
                let n: usize = if want < left {
                    want
                } else {
                    left
                };
                return Some(slice_subrange(chunk.bytes.as_slice(), off, off + n));
            }
        }
        None
    }
}

proof fn lemma_total_mono(s: Seq<ChunkModel>, k: int)
    requires
        0 <= k <= s.len(),
    ensures
        chunks_total(s.take(k)) <= chunks_total(s),
    decreases s.len(),
{
    if k < s.len() {
        assert(s.drop_last().take(k) =~= s.take(k));
        lemma_total_mono(s.drop_last(), k);
    } else {
        assert(s.take(k) =~= s);
    }
}

/// The first missing `(offset, len)` recorded by a failed read.
pub struct MissingRange {
    range: Option<(u64, u64)>,
}

impl View for MissingRange {
    type V = Option<(u64, u64)>;

    closed spec fn view(&self) -> Option<(u64, u64)> {
        self.range
    }
}

impl MissingRange {
    pub fn new() -> (m: MissingRange)
        ensures
            m@ is None,
    {
        MissingRange { range: None }
    }

    /// Consume the recorded range.
    pub fn take(&mut self) -> (r: Option<(u64, u64)>)
        ensures
            r == old(self)@,
            final(self)@ is None,
    {
        let r: Option<(u64, u64)> = self.range;
        self.range = None;
        r
    }

    /// Non-consuming view of the recorded range.
    pub fn peek(&self) -> (r: Option<(u64, u64)>)
        ensures
            r == self@,
    {
        self.range
    }

    pub fn set(&mut self, offset: u64, len: u64)
        ensures
            final(self)@ == Some((offset, len)),
    {
        self.range = Some((offset, len));
    }
}

/// Where to seek to.
#[derive(Debug, Clone, Copy, PartialEq, Eq, Structural)]
pub enum SeekFrom {
    /// From the start of the file.
    Start(u64),
    /// From its end.
    End(i64),
    /// From the current position.
    Current(i64),
}

/// A 64-bit pattern read as a signed number.
pub open spec fn as_signed(n: int) -> int {
    if n < 0x8000_0000_0000_0000 {
        n
    } else {
        n - 0x1_0000_0000_0000_0000
    }
}

/// The position that a seek asks for.
pub open spec fn seek_target(pos: int, len: int, to: SeekFrom) -> int {
    match to {
        SeekFrom::Start(o) => as_signed(o as int),
        SeekFrom::End(d) => as_signed(len) + d,
        SeekFrom::Current(d) => as_signed(pos) + d,
    }
}

pub(crate) fn signed(n: u64) -> (r: i64)
    ensures
        r == as_signed(n as int),
{
    if n < 0x8000_0000_0000_0000 {
        n as i64
    } else {
        -((u64::MAX - n) as i64) - 1
    }
}

/// A reader over a [`ChunkCache`] of a file with `len` bytes; reads outside
/// the cache record the missing range and fail with [`IoError::WouldBlock`].
pub struct SparseReader {
    pub cache: ChunkCache,
    pub missing: MissingRange,
    pub len: u64,
    pub pos: u64,
}

/// What a reader reads from: the chunks and the length of the file.
#[verifier::ext_equal]
pub struct SparseModel {
    pub chunks: Seq<ChunkModel>,
    pub len: int,
}

impl View for SparseReader {
    type V = SparseModel;

    open spec fn view(&self) -> SparseModel {
        SparseModel { chunks: self.cache@, len: self.len as int }
    }
}

/// The outcome of reading a run of bytes to its end.
pub enum Fetched {
    /// All bytes were there.
    Done(Seq<u8>),
    /// The read came to a position that is not cached.
    Missing { at: int, want: int },
    /// The read came to the end of the file.
    PastEnd { at: int },
}

/// Reading `n` bytes at `p`, piece after piece.
pub open spec fn fetch(m: SparseModel, p: int, n: int) -> Fetched
    decreases n,
{
    let want = if n <= m.len - p {
        n
    } else {
        m.len - p
    };
    if n <= 0 {
        Fetched::Done(Seq::empty())
    } else if want <= 0 {
        Fetched::PastEnd { at: p }
    } else {
        match piece(m.chunks, p, want) {
            None => Fetched::Missing { at: p, want },
            // a piece is never empty and never longer than asked for
            Some(b) => if 0 < b.len() <= n {
                match fetch(m, p + b.len(), n - b.len()) {
                    Fetched::Done(rest) => Fetched::Done(b + rest),
                    other => other,
                }
            } else {
                Fetched::Done(b)
            },
        }
    }
}

/// Seeking to `offset` and reading `n` bytes there.
pub open spec fn range_of(m: SparseModel, offset: int, n: int) -> core::result::Result<
    Seq<u8>,
    Fault,
> {
    if as_signed(offset) < 0 {
        Err(Fault::Io(IoError::InvalidSeek))
    } else {
        match fetch(m, offset, n) {
            Fetched::Done(b) => Ok(b),
            Fetched::Missing { .. } => Err(Fault::Io(IoError::WouldBlock)),
            Fetched::PastEnd { .. } => Err(Fault::Io(IoError::UnexpectedEof)),
        }
    }
}

/// The range that is recorded as missing after a read of `n` bytes at
/// `offset`, when `before` was recorded.
pub open spec fn missing_after(
    m: SparseModel,
    offset: int,
    n: int,
    before: Option<(u64, u64)>,
) -> Option<(u64, u64)> {
    if as_signed(offset) < 0 {
        before
    } else {
        match fetch(m, offset, n) {
            Fetched::Missing { at, want } => Some((at as u64, want as u64)),
            _ => before,
        }
    }
}

/// The position after a read of `n` bytes at `offset` that began at `before`:
/// behind the bytes, or where the read came to a stop.
pub open spec fn position_after(m: SparseModel, offset: int, n: int, before: int) -> int {
    if as_signed(offset) < 0 {
        before
    } else {
        match fetch(m, offset, n) {
            Fetched::Done(_) => offset + n,
            Fetched::Missing { at, .. } => at,
            Fetched::PastEnd { at } => at,
        }
    }
}

impl SparseReader {
    pub open spec fn wf(self) -> bool {
        self.cache.wf()
    }

    /// The current position.
    pub open spec fn at(self) -> int {
        self.pos as int
    }

    pub fn new(cache: ChunkCache, missing: MissingRange, len: u64) -> (r: SparseReader)
        requires
            cache.wf(),
        ensures
            r.wf(),
            r@ == (SparseModel { chunks: cache@, len: len as int }),
            r.missing@ == missing@,
            r.at() == 0,
    {
        SparseReader { cache, missing, len, pos: 0 }
    }

    /// The length of the file.
    pub fn file_len(&self) -> (n: u64)
        ensures
            n == self@.len,
    {
        self.len
    }

    /// Put fetched bytes into the cache.
    pub fn feed(&mut self, offset: u64, bytes: Vec<u8>)
        requires
            old(self).wf(),
            offset + bytes@.len() <= u64::MAX,
        ensures
            final(self).wf(),
            final(self)@.chunks == chunks_insert(old(self)@.chunks, offset as int, bytes@),
            final(self)@.len == old(self)@.len,
            final(self).missing@ == old(self).missing@,
            final(self).at() == old(self).at(),
    {
        self.cache.insert(offset, bytes);
    }

    /// Read some bytes at the current position, at most `buf_len`; none at
    /// the end of the file.
    pub fn read(&mut self, buf_len: usize) -> (r: Result<Vec<u8>>)
        requires
            old(self).wf(),
        ensures
            final(self).wf(),
            final(self)@ == old(self)@,
            ({
                let left = old(self)@.len - old(self).at();
                let want = if buf_len <= left {
                    buf_len as int
                } else {
                    left
                };
                match r {
                    Ok(b) => final(self).missing@ == old(self).missing@ && final(self).at()
                        == old(self).at() + b@.len() && if want <= 0 {
                        b@.len() == 0
                    } else {
                        piece(old(self)@.chunks, old(self).at(), want) == Some(b@)
                    },
                    Err(e) => e@ == Fault::Io(IoError::WouldBlock) && want > 0 && piece(
                        old(self)@.chunks,
                        old(self).at(),
                        want,
                    ) is None && final(self).missing@ == Some((old(self).at() as u64, want as u64))
                        && final(self).at() == old(self).at(),
                }
            }),
    {
        let remaining: u64 = self.len.saturating_sub(self.pos);
        let want: usize = if (buf_len as u64) < remaining {
            buf_len
        } else {
            remaining as usize
        };
        if want == 0 {
            return Ok(Vec::new());
        }
        match self.cache.read_at(self.pos, want) {
            Some(b) => {
                proof {
                    lemma_holder(self.cache@, self.pos as int);
                }
                let out: Vec<u8> = vstd::slice::slice_to_vec(b);
                self.pos = self.pos + out.len() as u64;
                Ok(out)
            },
            None => {
                self.missing.set(self.pos, want as u64);
                Err(Error::Io(IoError::WouldBlock))
            },
        }
    }

    pub fn seek(&mut self, to: SeekFrom) -> (r: Result<u64>)
        requires
            old(self).wf(),
            i64::MIN <= seek_target(old(self).at(), old(self)@.len, to) <= i64::MAX,
        ensures
            final(self).wf(),
            final(self)@ == old(self)@,
            final(self).missing@ == old(self).missing@,
            ({
                let target = seek_target(old(self).at(), old(self)@.len, to);
                match r {
                    Ok(p) => target >= 0 && p == target && final(self).at() == target,
                    Err(e) => target < 0 && e@ == Fault::Io(IoError::InvalidSeek) && final(self).at()
                        == old(self).at(),
                }
            }),
    {
        let new: i64 = match to {
            SeekFrom::Start(o) => signed(o),
            SeekFrom::Current(d) => signed(self.pos) + d,
            SeekFrom::End(d) => signed(self.len) + d,
        };
        if new < 0 {
            return Err(Error::Io(IoError::InvalidSeek));
        }
        self.pos = new as u64;
        Ok(self.pos)
    }

    /// Read `n` bytes at the current position, or fail.
    pub fn read_exact(&mut self, n: usize) -> (r: Result<Vec<u8>>)
        requires
            old(self).wf(),
        ensures
            final(self).wf(),
            final(self)@ == old(self)@,
            match (fetch(old(self)@, old(self).at(), n as int), r) {
                (Fetched::Done(b), Ok(out)) => out@ == b && out@.len() == n && final(self).missing@
                    == old(self).missing@ && final(self).at() == old(self).at() + n,
                (Fetched::Missing { at, want }, Err(e)) => e@ == Fault::Io(IoError::WouldBlock)
                    && 0 <= at <= u64::MAX && 0 < want <= u64::MAX && final(self).missing@ == Some(
                    (at as u64, want as u64),
                ) && final(self).at() == at,
                (Fetched::PastEnd { at }, Err(e)) => e@ == Fault::Io(IoError::UnexpectedEof)
                    && final(self).missing@ == old(self).missing@ && final(self).at() == at,
                _ => false,
            },
    {
        let mut out: Vec<u8> = Vec::new();
        let mut left: usize = n;
        let ghost m = self@;
        let ghost start = self.at();
        let ghost recorded = self.missing@;
        while left > 0
            invariant
                self.wf(),
                m == old(self)@,
                start == old(self).at(),
                recorded == old(self).missing@,
                self@ == m,
                self.missing@ == recorded,
                left <= n,
                out@.len() == n - left,
                self.at() == start + out@.len(),
                match fetch(m, start, n as int) {
                    Fetched::Done(b) => fetch(m, self.at(), left as int) matches Fetched::Done(rest)
                        && b == out@ + rest,
                    other => fetch(m, self.at(), left as int) == other,
                },
            decreases left,
        {
            proof {
                lemma_holder(m.chunks, self.at());
            }
            let piece_read: Result<Vec<u8>> = self.read(left);
            match piece_read {
                Err(e) => {
                    return Err(e);
                },
                Ok(mut b) => {
                    if b.len() == 0 {
                        return Err(Error::Io(IoError::UnexpectedEof));
                    }
                    let got: usize = b.len();
                    let ghost before = out@;
                    let ghost got_bytes = b@;
                    out.append(&mut b);
                    left = left - got;
                    proof {
                        if let Fetched::Done(rest) = fetch(m, self.at(), left as int) {
                            assert(before + (got_bytes + rest) =~= out@ + rest);
                        }
                    }
                },
            }
        }
        assert(out@ + Seq::<u8>::empty() =~= out@);
        Ok(out)
    }

    /// Read `n` bytes at `offset`, or fail.
    pub fn read_range(&mut self, offset: u64, n: usize) -> (r: Result<Vec<u8>>)
        requires
            old(self).wf(),
        ensures
            final(self).wf(),
            final(self)@ == old(self)@,
            final(self).missing@ == missing_after(
                old(self)@,
                offset as int,
                n as int,
                old(self).missing@,
            ),
            final(self).at() == position_after(
                old(self)@,
                offset as int,
                n as int,
                old(self).at(),
            ),
            match r {
                Ok(b) => range_of(old(self)@, offset as int, n as int) == core::result::Result::<
                    Seq<u8>,
                    Fault,
                >::Ok(b@) && b@.len() == n && (n > 0 ==> offset + n <= old(self)@.len),
                Err(e) => range_of(old(self)@, offset as int, n as int) == core::result::Result::<
                    Seq<u8>,
                    Fault,
                >::Err(e@),
            },
    {
        self.seek(SeekFrom::Start(offset))?;
        proof {
            if n > 0 && fetch(self@, offset as int, n as int) is Done {
                law_read_ends_at_the_gap(self@, offset as int, n as int);
            }
        }
        self.read_exact(n)
    }
}

/// What a caller does after it ran an operation.
#[derive(Debug, Clone, Copy, PartialEq, Eq, Structural)]
pub enum Step {
    /// The operation is finished.
    Finished,
    /// Fetch so many bytes at the offset, feed them and retry.
    Fetch { offset: u64, len: u64 },
    /// The operation failed for good.
    Failed,
}

/// What to do after an operation: a failure with a missing range on record
/// is a reason to fetch, any other one is final.
pub fn next_step(succeeded: bool, missing: Option<(u64, u64)>) -> (s: Step)
    ensures
        s == if succeeded {
            Step::Finished
        } else {
            match missing {
                Some((offset, len)) => Step::Fetch { offset, len },
                None => Step::Failed,
            }
        },
{
    if succeeded {
        return Step::Finished;
    }
    match missing {
        Some((offset, len)) => Step::Fetch { offset, len },
        None => Step::Failed,
    }
}

/// Feeding the cache never takes anything away: every position that is held
/// still is, and so is every position of the new bytes.
pub proof fn law_insert_keeps_held(s: Seq<ChunkModel>, offset: int, bytes: Seq<u8>, p: int)
    requires
        chunks_wf(s),
        0 <= offset,
        offset + bytes.len() <= u64::MAX,
    ensures
        chunks_wf(chunks_insert(s, offset, bytes)),
        held(chunks_insert(s, offset, bytes), p) <==> held(s, p) || offset <= p < offset
            + bytes.len(),
{
    let t = chunks_insert(s, offset, bytes);
    let k = rank(s, offset);
    let len = bytes.len() as int;
    lemma_rank(s, offset);
    lemma_insert_wf(s, offset, bytes);
    if t == s {
        if contained(s, offset, len) {
            let i = choose|i: int|
                0 <= i < s.len() && (#[trigger] s[i]).start <= offset && offset + len <= s[i].end();
            assert(offset <= p < offset + len ==> s[i].start <= p < s[i].end());
        }
    } else {
        let replaced = k > 0 && s[k - 1].start == offset;
        let place = if replaced {
            k - 1
        } else {
            k
        };
        assert(t[place] == ChunkModel { start: offset, bytes });
        if held(s, p) {
            let i = choose|i: int| 0 <= i < s.len() && (#[trigger] s[i]).start <= p < s[i].end();
            if replaced {
                if i == k - 1 {
                    assert(!(s[i].start <= offset && offset + len <= s[i].end()));
                }
                assert(t[i].start <= p < t[i].end());
            } else if i < k {
                assert(t[i] == s[i]);
            } else {
                assert(t[i + 1] == s[i]);
            }
        }
        if held(t, p) && !(offset <= p < offset + len) {
            let i = choose|i: int| 0 <= i < t.len() && (#[trigger] t[i]).start <= p < t[i].end();
            if replaced || i < k {
                assert(t[i] == s[i]);
            } else {
                assert(t[i] == s[i - 1]);
            }
        }
    }
}

proof fn lemma_insert_wf(s: Seq<ChunkModel>, offset: int, bytes: Seq<u8>)
    requires
        chunks_wf(s),
        0 <= offset,
        offset + bytes.len() <= u64::MAX,
    ensures
        chunks_wf(chunks_insert(s, offset, bytes)),
{
    lemma_rank(s, offset);
}

/// How a read ends: it is done exactly where the file reaches so far and every
/// position is held; it misses the first position that is not held; and it
/// comes to the end of the file where nothing before it is missing.
pub proof fn law_read_ends_at_the_gap(m: SparseModel, p: int, n: int)
    requires
        0 <= p,
    ensures
        match fetch(m, p, n) {
            Fetched::Done(b) => (n > 0 ==> b.len() == n && p + n <= m.len) && forall|x: int|
                p <= x < p + n ==> #[trigger] held(m.chunks, x),
            Fetched::Missing { at, want } => {
                &&& p <= at < p + n
                &&& at < m.len
                &&& want == if p + n <= m.len {
                    p + n - at
                } else {
                    m.len - at
                }
                &&& !held(m.chunks, at)
                &&& forall|x: int| p <= x < at ==> #[trigger] held(m.chunks, x)
            },
            Fetched::PastEnd { at } => {
                &&& m.len < p + n
                &&& p <= at
                &&& m.len <= at < p + n
                &&& forall|x: int| p <= x < at ==> #[trigger] held(m.chunks, x)
            },
        },
    decreases n,
{
    lemma_holder(m.chunks, p);
    let want = if n <= m.len - p {
        n
    } else {
        m.len - p
    };
    if n > 0 && want > 0 {
        if let Some(b) = piece(m.chunks, p, want) {
            law_read_ends_at_the_gap(m, p + b.len(), n - b.len());
            let i = holder(m.chunks, p);
            assert forall|x: int| p <= x < p + b.len() implies #[trigger] held(m.chunks, x) by {
                assert(m.chunks[i].start <= x < m.chunks[i].end());
            }
        }
    }
}

/// A read that was done stays done, whatever is fed.
pub proof fn law_feed_keeps_reads(m: SparseModel, p: int, n: int, offset: int, bytes: Seq<u8>)
    requires
        chunks_wf(m.chunks),
        0 <= p,
        0 <= offset,
        offset + bytes.len() <= u64::MAX,
        fetch(m, p, n) is Done,
    ensures
        fetch(
            SparseModel { chunks: chunks_insert(m.chunks, offset, bytes), len: m.len },
            p,
            n,
        ) is Done,
{
    let fed = SparseModel { chunks: chunks_insert(m.chunks, offset, bytes), len: m.len };
    law_read_ends_at_the_gap(m, p, n);
    law_read_ends_at_the_gap(fed, p, n);
    if let Fetched::Missing { at, .. } = fetch(fed, p, n) {
        law_insert_keeps_held(m.chunks, offset, bytes, at);
        assert(held(m.chunks, at));
    }
}

/// Each round trip makes strict progress: after a read failed at a missing
/// position and any bytes were fed that take in this position, however far
/// they reach before and behind it, the same read gets past them, if it fails
/// again. The first missing position lies inside the file, so the round trips
/// come to an end.
pub proof fn law_retry_makes_progress(
    m: SparseModel,
    p: int,
    n: int,
    offset: int,
    bytes: Seq<u8>,
)
    requires
        chunks_wf(m.chunks),
        0 <= p,
        fetch(m, p, n) is Missing,
        0 <= offset <= fetch(m, p, n)->Missing_at < offset + bytes.len(),
        offset + bytes.len() <= u64::MAX,
    ensures
        p <= fetch(m, p, n)->Missing_at < m.len,
        ({
            let fed = SparseModel { chunks: chunks_insert(m.chunks, offset, bytes), len: m.len };
            fetch(fed, p, n) matches Fetched::Missing { at: next, .. } ==> offset + bytes.len()
                <= next
        }),
{
    let at = fetch(m, p, n)->Missing_at;
    let fed = SparseModel { chunks: chunks_insert(m.chunks, offset, bytes), len: m.len };
    law_read_ends_at_the_gap(m, p, n);
    law_read_ends_at_the_gap(fed, p, n);
    if let Fetched::Missing { at: next, .. } = fetch(fed, p, n) {
        law_insert_keeps_held(m.chunks, offset, bytes, next);
        if next < at {
            assert(held(m.chunks, next));
        }
    }
}

/// Every chunk holds the bytes that the file has at its offset.
pub open spec fn agrees(s: Seq<ChunkModel>, file: Seq<u8>) -> bool {
    forall|i: int|
        0 <= i < s.len() ==> 0 <= (#[trigger] s[i]).start && s[i].end() <= file.len() && s[i].bytes
            == file.subrange(s[i].start, s[i].end())
}

/// Feeding bytes of the file keeps the cache in agreement with it.
pub proof fn law_feed_keeps_agreement(s: Seq<ChunkModel>, file: Seq<u8>, offset: int, len: int)
    requires
        chunks_wf(s),
        agrees(s, file),
        0 <= offset,
        0 <= len,
        offset + len <= file.len(),
        file.len() <= u64::MAX,
    ensures
        agrees(chunks_insert(s, offset, file.subrange(offset, offset + len)), file),
{
    lemma_rank(s, offset);
}

/// Over a cache in agreement with a file, every read that succeeds gives the
/// bytes of the file at that place.
pub proof fn law_reads_are_the_file(m: SparseModel, file: Seq<u8>, p: int, n: int)
    requires
        chunks_wf(m.chunks),
        agrees(m.chunks, file),
        m.len == file.len(),
        0 <= p,
        0 <= n,
        fetch(m, p, n) is Done,
    ensures
        n > 0 ==> p + n <= file.len(),
        fetch(m, p, n)->Done_0 == (if n > 0 {
            file.subrange(p, p + n)
        } else {
            Seq::empty()
        }),
    decreases n,
{
    if n > 0 {
        lemma_holder(m.chunks, p);
        let want = if n <= m.len - p {
            n
        } else {
            m.len - p
        };
        let b = piece(m.chunks, p, want)->0;
        assert(b =~= file.subrange(p, p + b.len()));
        law_reads_are_the_file(m, file, p + b.len(), n - b.len());
        if n - b.len() > 0 {
            assert(file.subrange(p, p + b.len()) + file.subrange(p + b.len(), p + n)
                =~= file.subrange(p, p + n));
        } else {
            assert(b + Seq::<u8>::empty() =~= b);
        }
    }
}

/// Feeding bytes of the file keeps every read that was done: it gives the same
/// bytes again.
pub proof fn law_feed_keeps_what_is_read(
    m: SparseModel,
    file: Seq<u8>,
    p: int,
    n: int,
    offset: int,
    len: int,
)
    requires
        chunks_wf(m.chunks),
        agrees(m.chunks, file),
        m.len == file.len(),
        file.len() <= u64::MAX,
        0 <= p,
        0 <= n,
        0 <= offset,
        0 <= len,
        offset + len <= file.len(),
        fetch(m, p, n) is Done,
    ensures
        fetch(
            SparseModel {
                chunks: chunks_insert(m.chunks, offset, file.subrange(offset, offset + len)),
                len: m.len,
            },
            p,
            n,
        ) == fetch(m, p, n),
{
    let bytes = file.subrange(offset, offset + len);
    let fed = SparseModel { chunks: chunks_insert(m.chunks, offset, bytes), len: m.len };
    law_feed_keeps_reads(m, p, n, offset, bytes);
    law_feed_keeps_agreement(m.chunks, file, offset, len);
    lemma_insert_wf(m.chunks, offset, bytes);
    law_reads_are_the_file(m, file, p, n);
    law_reads_are_the_file(fed, file, p, n);
}

/// A cache that holds the whole file in one chunk: nothing is ever missing.
pub open spec fn whole_file(file: Seq<u8>) -> SparseModel {
    SparseModel { chunks: seq![ChunkModel { start: 0, bytes: file }], len: file.len() as int }
}

/// With the whole file in the cache, every read inside it succeeds.
pub proof fn law_whole_file_reads(file: Seq<u8>, p: int, n: int)
    requires
        0 < file.len() <= u64::MAX,
        0 <= p,
        0 < n,
        p + n <= file.len(),
    ensures
        chunks_wf(whole_file(file).chunks),
        fetch(whole_file(file), p, n) == Fetched::Done(file.subrange(p, p + n)),
{
    let m = whole_file(file);
    lemma_holder_is(m.chunks, p, 0);
    let b = file.subrange(p, p + n);
    assert(piece(m.chunks, p, n) == Some(b));
    assert(fetch(m, p + n, 0) == Fetched::Done(Seq::empty()));
    assert(b + Seq::<u8>::empty() =~= b);
}

proof fn lemma_total_insert(s: Seq<ChunkModel>, k: int, c: ChunkModel)
    requires
        0 <= k <= s.len(),
    ensures
        chunks_total(s.insert(k, c)) == chunks_total(s) + c.bytes.len(),
    decreases s.len(),
{
    let after = s.insert(k, c);
    if k == s.len() {
        assert(after.drop_last() =~= s);
    } else {
        assert(after.drop_last() =~= s.drop_last().insert(k, c));
        lemma_total_insert(s.drop_last(), k, c);
    }
}

proof fn lemma_total_update(s: Seq<ChunkModel>, k: int, c: ChunkModel)
    requires
        0 <= k < s.len(),
    ensures
        chunks_total(s.update(k, c)) + s[k].bytes.len() == chunks_total(s) + c.bytes.len(),
    decreases s.len(),
{
    let after = s.update(k, c);
    if k == s.len() - 1 {
        assert(after.drop_last() =~= s.drop_last());
    } else {
        assert(after.drop_last() =~= s.drop_last().update(k, c));
        lemma_total_update(s.drop_last(), k, c);
    }
}

/// The cache never shrinks: putting bytes in leaves at least as many cached
/// bytes as there were, and adds no more than were put in.
pub proof fn law_insert_never_shrinks(s: Seq<ChunkModel>, offset: int, bytes: Seq<u8>)
    requires
        chunks_wf(s),
    ensures
        chunks_total(s) <= chunks_total(chunks_insert(s, offset, bytes)) <= chunks_total(s)
            + bytes.len(),
{
    let k = rank(s, offset);
    let new = ChunkModel { start: offset, bytes };
    lemma_rank(s, offset);
    if bytes.len() > 0 && !contained(s, offset, bytes.len() as int) {
        if k > 0 && s[k - 1].start == offset {
            lemma_total_update(s, k - 1, new);
        } else {
            lemma_total_insert(s, k, new);
        }
    }
}

/// Bytes that one chunk holds already change nothing; other bytes, if there
/// are any, stand in one chunk afterwards, as they are.
pub proof fn law_insert_stores_once(s: Seq<ChunkModel>, offset: int, bytes: Seq<u8>)
    requires
        chunks_wf(s),
        bytes.len() > 0,
    ensures
        ({
            let t = chunks_insert(s, offset, bytes);
            let there = exists|i: int|
                0 <= i < s.len() && (#[trigger] s[i]).start <= offset && offset + bytes.len()
                    <= s[i].start + s[i].bytes.len();
            &&& there ==> t == s
            &&& !there ==> exists|i: int|
                0 <= i < t.len() && (#[trigger] t[i]).start == offset && t[i].bytes == bytes
        }),
{
    let k = rank(s, offset);
    let t = chunks_insert(s, offset, bytes);
    lemma_rank(s, offset);
    if exists|i: int|
        0 <= i < s.len() && (#[trigger] s[i]).start <= offset && offset + bytes.len() <= s[i].start
            + s[i].bytes.len() {
        let i = choose|i: int|
            0 <= i < s.len() && (#[trigger] s[i]).start <= offset && offset + bytes.len()
                <= s[i].start + s[i].bytes.len();
        assert(s[i].start <= offset && offset + bytes.len() <= s[i].end());
        assert(contained(s, offset, bytes.len() as int));
    } else {
        if contained(s, offset, bytes.len() as int) {
            let i = choose|i: int|
                0 <= i < s.len() && (#[trigger] s[i]).start <= offset && offset + bytes.len()
                    <= s[i].end();
            assert(s[i].start <= offset && offset + bytes.len() <= s[i].start + s[i].bytes.len());
        }
        let place = if k > 0 && s[k - 1].start == offset {
            k - 1
        } else {
            k
        };
        assert(t[place].start == offset);
    }
}

/// The size of a cache is that of its chunks together.
pub proof fn law_cache_size(s: Seq<ChunkModel>, c: ChunkModel)
    ensures
        chunks_total(Seq::empty()) == 0,
        chunks_total(s.push(c)) == chunks_total(s) + c.bytes.len(),
{
    assert(s.push(c).drop_last() =~= s);
}

/// A range is read exactly if it lies in the file and all of it is cached.
/// Otherwise the first position of it that is not cached decides: if it lies
/// in the file, the rest of the range from there on is recorded as missing,
/// as far as the file reaches; if not, the read comes to the end of the file,
/// and nothing is recorded.
pub proof fn law_range_outcomes(m: SparseModel, offset: int, n: int, before: Option<(u64, u64)>)
    requires
        chunks_wf(m.chunks),
        0 <= offset < 0x8000_0000_0000_0000,
        0 < n,
        m.len <= u64::MAX,
    ensures
        match range_of(m, offset, n) {
            Ok(b) => {
                &&& b.len() == n
                &&& offset + n <= m.len
                &&& forall|x: int| offset <= x < offset + n ==> #[trigger] held(m.chunks, x)
                &&& missing_after(m, offset, n, before) == before
                &&& position_after(m, offset, n, 0) == offset + n
            },
            Err(f) => {
                ||| {
                    &&& f == Fault::Io(IoError::UnexpectedEof)
                    &&& m.len < offset + n
                    &&& forall|x: int| offset <= x < m.len ==> #[trigger] held(m.chunks, x)
                    &&& missing_after(m, offset, n, before) == before
                }
                ||| {
                    &&& f == Fault::Io(IoError::WouldBlock)
                    &&& missing_after(m, offset, n, before) matches Some((at, want)) && {
                        &&& offset <= at < m.len
                        &&& position_after(m, offset, n, 0) == at
                        &&& !held(m.chunks, at as int)
                        &&& forall|x: int| offset <= x < at ==> #[trigger] held(m.chunks, x)
                        &&& at + want == if offset + n <= m.len {
                            offset + n
                        } else {
                            m.len
                        }
                    }
                }
            },
        },
{
    law_read_ends_at_the_gap(m, offset, n);
}

/// A seek counts from the start, from the end or from the current position.
pub proof fn law_seek_targets(pos: int, len: int, o: u64, d: i64)
    requires
        0 <= pos < 0x8000_0000_0000_0000,
        0 <= len < 0x8000_0000_0000_0000,
        o < 0x8000_0000_0000_0000,
    ensures
        seek_target(pos, len, SeekFrom::Start(o)) == o,
        seek_target(pos, len, SeekFrom::End(d)) == len + d,
        seek_target(pos, len, SeekFrom::Current(d)) == pos + d,
{
}

} // verus!
