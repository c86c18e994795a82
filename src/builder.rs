//! The pointer-map builder: finds every pointer-sized window of memory whose
//! little-endian value falls inside an indexed region, reading regions in
//! bounded chunks that overlap so no window is missed.

use vstd::prelude::*;
use vstd::bytes::*;
use vstd::slice::slice_subrange;

use crate::region::{le_usize, MemoryRegion};
use crate::region_index::RegionIndex;

verus! {

/// Width of an address in bytes.
pub const POINTER_SIZE: usize = 8;

/// Default size of one read from the target process.
pub const CHUNK_SIZE: usize = 0x4000;

/// `location` holds the address `target`, which lies in an indexed region.
#[derive(Clone, Copy, Debug, PartialEq, Eq, Structural)]
pub struct PointerEdge {
    pub location: usize,
    pub target: usize,
}

/// The address held by the eight bytes at `k`.
pub open spec fn word_at(bytes: Seq<u8>, k: int) -> usize {
    le_usize(bytes.subrange(k, k + 8))
}

/// The window at `k` of memory that starts at `base` is reported.
pub open spec fn hits(idx: RegionIndex, base: int, bytes: Seq<u8>, aligned: bool, k: int) -> bool {
    &&& !aligned || (base + k) % 8 == 0
    &&& idx.region_of(word_at(bytes, k) as int).is_some()
}

/// Number of whole pointer-sized windows in `len` bytes.
pub open spec fn window_count(len: int) -> int {
    if len >= 8 {
        len - 7
    } else {
        0
    }
}

/// Edges found in the first `n` windows, in order of location.
pub open spec fn window_edges(
    idx: RegionIndex,
    base: int,
    bytes: Seq<u8>,
    aligned: bool,
    n: int,
) -> Seq<PointerEdge>
    decreases n,
{
    if n <= 0 {
        Seq::empty()
    } else {
        let prev = window_edges(idx, base, bytes, aligned, n - 1);
        if hits(idx, base, bytes, aligned, n - 1) {
            prev.push(PointerEdge { location: (base + n - 1) as usize, target: word_at(bytes, n - 1) })
        } else {
            prev
        }
    }
}

/// Every edge held by `bytes`, read as memory starting at `base`.
pub open spec fn scan_edges(idx: RegionIndex, base: int, bytes: Seq<u8>, aligned: bool) -> Seq<
    PointerEdge,
> {
    window_edges(idx, base, bytes, aligned, window_count(bytes.len() as int))
}

/// Edges found when `bytes` is read in chunks of `chunk` bytes, each chunk
/// after the first starting `POINTER_SIZE - 1` bytes before the previous one ends.
pub open spec fn chunked_edges(
    idx: RegionIndex,
    base: int,
    bytes: Seq<u8>,
    aligned: bool,
    chunk: int,
) -> Seq<PointerEdge>
    decreases bytes.len(),
{
    if chunk < 8 || bytes.len() <= chunk {
        scan_edges(idx, base, bytes, aligned)
    } else {
        scan_edges(idx, base, bytes.subrange(0, chunk), aligned) + chunked_edges(
            idx,
            base + chunk - 7,
            bytes.subrange(chunk - 7, bytes.len() as int),
            aligned,
            chunk,
        )
    }
}

proof fn lemma_window_edges_prefix(
    idx: RegionIndex,
    base: int,
    b1: Seq<u8>,
    b2: Seq<u8>,
    aligned: bool,
    n: int,
)
    requires
        0 <= n,
        n + 7 <= b1.len(),
        n + 7 <= b2.len(),
        b1.subrange(0, n + 7) == b2.subrange(0, n + 7),
    ensures
        window_edges(idx, base, b1, aligned, n) == window_edges(idx, base, b2, aligned, n),
    decreases n,
{
    if n > 0 {
        assert(b1.subrange(0, n + 6) =~= b1.subrange(0, n + 7).subrange(0, n + 6));
        assert(b2.subrange(0, n + 6) =~= b2.subrange(0, n + 7).subrange(0, n + 6));
        lemma_window_edges_prefix(idx, base, b1, b2, aligned, n - 1);
        assert(b1.subrange(n - 1, n + 7) =~= b1.subrange(0, n + 7).subrange(n - 1, n + 7));
        assert(b2.subrange(n - 1, n + 7) =~= b2.subrange(0, n + 7).subrange(n - 1, n + 7));
    }
}

proof fn lemma_window_edges_split(
    idx: RegionIndex,
    base: int,
    bytes: Seq<u8>,
    aligned: bool,
    m: int,
    n: int,
)
    requires
        0 <= m,
        0 <= n,
        m + n + 7 <= bytes.len(),
    ensures
        window_edges(idx, base, bytes, aligned, m + n) == window_edges(idx, base, bytes, aligned, m)
            + window_edges(idx, base + m, bytes.subrange(m, bytes.len() as int), aligned, n),
    decreases n,
{
    let rest = bytes.subrange(m, bytes.len() as int);
    if n == 0 {
        assert(window_edges(idx, base, bytes, aligned, m) + Seq::empty() =~= window_edges(
            idx,
            base,
            bytes,
            aligned,
            m,
        ));
    } else {
        lemma_window_edges_split(idx, base, bytes, aligned, m, n - 1);
        assert(rest.subrange(n - 1, n + 7) =~= bytes.subrange(m + n - 1, m + n + 7));
        let a = window_edges(idx, base, bytes, aligned, m);
        let b = window_edges(idx, base + m, rest, aligned, n - 1);
        let e = PointerEdge { location: (base + m + n - 1) as usize, target: word_at(bytes, m + n - 1) };
        assert((a + b).push(e) =~= a + b.push(e));
    }
}

/// Reading memory in overlapping chunks finds exactly the edges that one
/// pass over the whole of it finds, in the same order.
pub proof fn lemma_chunked_scan_complete(
    idx: RegionIndex,
    base: int,
    bytes: Seq<u8>,
    aligned: bool,
    chunk: int,
)
    ensures
        chunked_edges(idx, base, bytes, aligned, chunk) == scan_edges(idx, base, bytes, aligned),
    decreases bytes.len(),
{
    if !(chunk < 8 || bytes.len() <= chunk) {
        let len = bytes.len() as int;
        let rest = bytes.subrange(chunk - 7, len);
        lemma_chunked_scan_complete(idx, base + chunk - 7, rest, aligned, chunk);
        let head = bytes.subrange(0, chunk);
        assert(head.subrange(0, chunk) =~= bytes.subrange(0, chunk));
        lemma_window_edges_prefix(idx, base, head, bytes, aligned, chunk - 7);
        lemma_window_edges_split(idx, base, bytes, aligned, chunk - 7, len - chunk);
    }
}

/// Appends to `out` every edge held by `buf`, read as memory starting at `base`.
/// With `aligned`, only windows at addresses divisible by `POINTER_SIZE` count.
pub fn scan_chunk(
    idx: &RegionIndex,
    base: usize,
    buf: &[u8],
    aligned: bool,
    out: &mut Vec<PointerEdge>,
)
    requires
        idx.wf(),
        base + buf@.len() <= usize::MAX,
    ensures
        final(out)@ == old(out)@ + scan_edges(*idx, base as int, buf@, aligned),
{
    let ghost start = old(out)@;
    if buf.len() < POINTER_SIZE {
        assert(start + Seq::empty() =~= start);
        return;
    }
    let n = buf.len() - (POINTER_SIZE - 1);
    let mut k: usize = 0;
    while k < n
        invariant
            idx.wf(),
            base + buf@.len() <= usize::MAX,
            n == buf@.len() - 7,
            k <= n,
            out@ == start + window_edges(*idx, base as int, buf@, aligned, k as int),
        decreases n - k,
    {
        let ghost prev = out@;
        let location = base + k;
        if !aligned || location % 8 == 0 {
            let word = slice_subrange(buf, k, k + POINTER_SIZE);
            let target = u64_from_le_bytes(word) as usize;
            if idx.contains(target).is_some() {
                out.push(PointerEdge { location, target });
                assert(out@ =~= start + window_edges(*idx, base as int, buf@, aligned, k + 1));
            }
        }
        k = k + 1;
    }
}

/// Where the scan of one region stands: the next chunk to read, or finished.
pub struct ChunkCursor {
    pub start: usize,
    pub size: usize,
    pub chunk: usize,
    pub offset: usize,
    pub done: bool,
}

impl ChunkCursor {
    pub open spec fn wf(&self) -> bool {
        &&& self.chunk >= 8
        &&& self.start + self.size <= usize::MAX
        &&& self.offset <= self.size
    }

    /// Length of the next read: a chunk, or what is left of the region.
    pub open spec fn spec_request_len(&self) -> int {
        if self.size - self.offset < self.chunk {
            self.size - self.offset
        } else {
            self.chunk as int
        }
    }

    pub fn new(start: usize, size: usize, chunk: usize) -> (r: Self)
        requires
            chunk >= 8,
            start + size <= usize::MAX,
        ensures
            r.wf(),
            r.start == start && r.size == size && r.chunk == chunk,
            r.offset == 0,
            r.done == (size == 0),
    {
        ChunkCursor { start, size, chunk, offset: 0, done: size == 0 }
    }

    /// The address and length of the next read, or `None` once the region is finished.
    pub fn next_read(&self) -> (r: Option<(usize, usize)>)
        requires
            self.wf(),
        ensures
            self.done ==> r.is_none(),
            !self.done ==> r == Some(((self.start + self.offset) as usize, self.spec_request_len() as usize)),
    {
        if self.done {
            None
        } else {
            let left = self.size - self.offset;
            Some((self.start + self.offset, if left < self.chunk { left } else { self.chunk }))
        }
    }

    /// A read failed: the rest of the region is given up.
    pub fn abandon(&mut self)
        ensures
            final(self).done,
            final(self).start == old(self).start,
            final(self).size == old(self).size,
            final(self).chunk == old(self).chunk,
            final(self).offset == old(self).offset,
    {
        self.done = true;
    }

    /// Takes the bytes that the last read returned, appends the edges they hold
    /// and moves on. A short read finishes the region; otherwise the next chunk
    /// starts `POINTER_SIZE - 1` bytes before this one ends, so that a pointer
    /// straddling the two is still seen.
    pub fn advance(&mut self, idx: &RegionIndex, got: &[u8], aligned: bool, out: &mut Vec<PointerEdge>)
        requires
            old(self).wf(),
            !old(self).done,
            idx.wf(),
            got@.len() <= old(self).spec_request_len(),
        ensures
            final(self).wf(),
            final(out)@ == old(out)@ + scan_edges(
                *idx,
                old(self).start + old(self).offset,
                got@,
                aligned,
            ),
            final(self).start == old(self).start,
            final(self).size == old(self).size,
            final(self).chunk == old(self).chunk,
            final(self).done == (got@.len() < old(self).spec_request_len() || old(self).size
                - old(self).offset <= old(self).chunk),
            !final(self).done ==> final(self).offset == old(self).offset + old(self).chunk - 7,
            final(self).done ==> final(self).offset == old(self).offset,
    {
        scan_chunk(idx, self.start + self.offset, got, aligned, out);
        let left = self.size - self.offset;
        let want = if left < self.chunk { left } else { self.chunk };
        if got.len() < want || left <= self.chunk {
            self.done = true;
        } else {
            self.offset = self.offset + (self.chunk - (POINTER_SIZE - 1));
        }
    }
}

/// The `(start, size)` of each region, the ranges a pointer may land in.
pub fn scan_ranges(regions: &Vec<MemoryRegion>) -> (r: Vec<(usize, usize)>)
    ensures
        r@.len() == regions@.len(),
        forall|i: int| 0 <= i < r@.len() ==> r@[i] == (regions@[i].start, regions@[i].size),
{
    let mut r: Vec<(usize, usize)> = Vec::new();
    let mut i: usize = 0;
    while i < regions.len()
        invariant
            i <= regions@.len(),
            r@.len() == i,
            forall|j: int| 0 <= j < i ==> r@[j] == (regions@[j].start, regions@[j].size),
        decreases regions@.len() - i,
    {
        r.push((regions[i].start, regions[i].size));
        i = i + 1;
    }
    r
}


/// Scans a memory image held in full, `mem` being the bytes from `start` on,
/// through a `ChunkCursor` with reads of `chunk` bytes. Appends the same edges,
/// in the same order, as one pass over the whole image.
pub fn scan_image(
    idx: &RegionIndex,
    start: usize,
    mem: &[u8],
    chunk: usize,
    aligned: bool,
    out: &mut Vec<PointerEdge>,
)
    requires
        idx.wf(),
        chunk >= 8,
        start + mem@.len() <= usize::MAX,
    ensures
        final(out)@ == old(out)@ + scan_edges(*idx, start as int, mem@, aligned),
{
    let ghost first = old(out)@;
    let ghost total = chunked_edges(*idx, start as int, mem@, aligned, chunk as int);
    let mut cursor = ChunkCursor::new(start, mem.len(), chunk);
    assert(mem@.subrange(0, mem@.len() as int) =~= mem@);
    if cursor.done {
        assert(mem@.len() == 0);
        assert(first + Seq::empty() =~= first);
    }
    while !cursor.done
        invariant
            idx.wf(),
            cursor.wf(),
            cursor.start == start,
            cursor.size == mem@.len(),
            cursor.chunk == chunk,
            !cursor.done ==> cursor.offset < mem@.len() && out@ + chunked_edges(
                *idx,
                start + cursor.offset,
                mem@.subrange(cursor.offset as int, mem@.len() as int),
                aligned,
                chunk as int,
            ) == first + total,
            cursor.done ==> out@ == first + total,
        decreases mem@.len() - cursor.offset + (if cursor.done { 0int } else { 1int }),
    {
        let off = cursor.offset;
        let len = if mem.len() - off < chunk { mem.len() - off } else { chunk };
        let got = slice_subrange(mem, off, off + len);
        let ghost rem = mem@.subrange(off as int, mem@.len() as int);
        let ghost before = out@;
        cursor.advance(idx, got, aligned, out);
        proof {
            if rem.len() <= chunk {
                assert(got@ =~= rem);
                assert(out@ == before + chunked_edges(*idx, start + off, rem, aligned, chunk as int));
                assert(out@ =~= first + total);
            } else {
                assert(got@ =~= rem.subrange(0, chunk as int));
                assert(rem.subrange(chunk - 7, rem.len() as int) =~= mem@.subrange(
                    cursor.offset as int,
                    mem@.len() as int,
                ));
                let tail = chunked_edges(*idx, start + cursor.offset, mem@.subrange(cursor.offset as int, mem@.len() as int), aligned, chunk as int);
                assert(before + (scan_edges(*idx, start + off, got@, aligned) + tail) =~= out@ + tail);
            }
        }
    }
    proof {
        lemma_chunked_scan_complete(*idx, start as int, mem@, aligned, chunk as int);
    }
}

} // verus!
