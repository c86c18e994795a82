//! The pointer-map file: a header naming the format version and pointer
//! width, a count-prefixed list of region records, then `(location, target)`
//! pairs of little-endian addresses until the end, with no delimiters.

use vstd::prelude::*;
use vstd::bytes::*;
use vstd::slice::{slice_subrange, slice_to_vec};

use crate::builder::PointerEdge;
use crate::region::MemoryRegion;

verus! {

/// Version of the file layout this library reads and writes.
pub const FORMAT_VERSION: u32 = 1;

/// Pointer width recorded in the header, in bytes.
pub const POINTER_WIDTH: u8 = 8;

/// Bytes in one edge record.
pub const EDGE_RECORD_SIZE: usize = 16;

/// Why a pointer-map file could not be read.
#[derive(Clone, Copy, Debug, PartialEq, Eq, Structural)]
pub enum DecodeError {
    /// The header names a format version other than `FORMAT_VERSION`.
    VersionMismatch { found: u32 },
    /// The header names a pointer width other than `POINTER_WIDTH`.
    WidthMismatch { found: u8 },
    /// A record starting at `offset` needs `expected` bytes; only `actual` remain.
    TruncatedRecord { offset: usize, expected: usize, actual: usize },
    /// A flag byte at `offset` is neither 0 nor 1.
    BadFlag { offset: usize },
}

pub open spec fn enc_addr(x: usize) -> Seq<u8> {
    spec_u64_to_le_bytes(x as u64)
}

pub open spec fn enc_edge(e: PointerEdge) -> Seq<u8> {
    enc_addr(e.location) + enc_addr(e.target)
}

/// The edge records of `es`, one after another.
pub open spec fn enc_edges(es: Seq<PointerEdge>) -> Seq<u8>
    decreases es.len(),
{
    if es.len() == 0 {
        Seq::empty()
    } else {
        enc_edges(es.drop_last()) + enc_edge(es.last())
    }
}

/// The edge held by the record at index `i` of `bytes`.
pub open spec fn edge_record(bytes: Seq<u8>, i: int) -> PointerEdge {
    PointerEdge {
        location: spec_u64_from_le_bytes(bytes.subrange(16 * i, 16 * i + 8)) as usize,
        target: spec_u64_from_le_bytes(bytes.subrange(16 * i + 8, 16 * i + 16)) as usize,
    }
}

/// The edges of a stream whose length is a whole number of records.
pub open spec fn edges_of(bytes: Seq<u8>) -> Seq<PointerEdge> {
    Seq::new((bytes.len() / 16) as nat, |i: int| edge_record(bytes, i))
}

pub open spec fn header_bytes() -> Seq<u8> {
    spec_u32_to_le_bytes(FORMAT_VERSION) + seq![POINTER_WIDTH]
}

proof fn lemma_enc_edges_layout(es: Seq<PointerEdge>)
    ensures
        enc_edges(es).len() == 16 * es.len(),
        forall|i: int|
            0 <= i < es.len() ==> enc_edges(es).subrange(16 * i, 16 * i + 16) == enc_edge(
                #[trigger] es[i],
            ),
    decreases es.len(),
{
    lemma_auto_spec_u64_to_from_le_bytes();
    if es.len() > 0 {
        let init = es.drop_last();
        lemma_enc_edges_layout(init);
        let a = enc_edges(init);
        let b = enc_edge(es.last());
        assert forall|i: int| 0 <= i < es.len() implies enc_edges(es).subrange(16 * i, 16 * i + 16)
            == enc_edge(#[trigger] es[i]) by {
            if i < es.len() - 1 {
                assert(init[i] == es[i]);
                assert((a + b).subrange(16 * i, 16 * i + 16) =~= a.subrange(16 * i, 16 * i + 16));
            } else {
                assert((a + b).subrange(16 * i, 16 * i + 16) =~= b);
            }
        }
    }
}

/// Decoding the encoding of any edge stream gives the stream back.
pub proof fn lemma_edges_round_trip(es: Seq<PointerEdge>)
    ensures
        enc_edges(es).len() % 16 == 0,
        edges_of(enc_edges(es)) == es,
{
    lemma_auto_spec_u64_to_from_le_bytes();
    lemma_enc_edges_layout(es);
    let bytes = enc_edges(es);
    assert forall|i: int| 0 <= i < es.len() implies edge_record(bytes, i) == es[i] by {
        let r = bytes.subrange(16 * i, 16 * i + 16);
        assert(r == enc_edge(es[i]));
        assert(bytes.subrange(16 * i, 16 * i + 8) =~= r.subrange(0, 8));
        assert(bytes.subrange(16 * i + 8, 16 * i + 16) =~= r.subrange(8, 16));
        assert(r.subrange(0, 8) =~= enc_addr(es[i].location));
        assert(r.subrange(8, 16) =~= enc_addr(es[i].target));
    }
    assert(edges_of(bytes) =~= es);
}

/// Appends the record of each edge to `out`.
pub fn encode_edges(es: &Vec<PointerEdge>, out: &mut Vec<u8>)
    ensures
        final(out)@ == old(out)@ + enc_edges(es@),
{
    let ghost start = old(out)@;
    let mut i: usize = 0;
    assert(es@.subrange(0, 0) =~= Seq::<PointerEdge>::empty());
    assert(start + Seq::empty() =~= start);
    while i < es.len()
        invariant
            i <= es@.len(),
            out@ == start + enc_edges(es@.subrange(0, i as int)),
        decreases es@.len() - i,
    {
        let e = es[i];
        let mut loc = u64_to_le_bytes(e.location as u64);
        let mut tgt = u64_to_le_bytes(e.target as u64);
        let ghost before = out@;
        out.append(&mut loc);
        out.append(&mut tgt);
        assert(es@.subrange(0, i + 1).drop_last() =~= es@.subrange(0, i as int));
        assert(out@ =~= before + enc_edge(e));
        i = i + 1;
    }
    assert(es@.subrange(0, es@.len() as int) =~= es@);
}

/// Reads an edge stream. Fails, without returning any edge, when its length
/// is not a whole number of records.
pub fn decode_edges(bytes: &[u8]) -> (r: Result<Vec<PointerEdge>, DecodeError>)
    ensures
        r.is_ok() <==> bytes@.len() % 16 == 0,
        r.is_ok() ==> r->Ok_0@ == edges_of(bytes@),
        r.is_err() ==> r->Err_0 == (DecodeError::TruncatedRecord {
            offset: (bytes@.len() - bytes@.len() % 16) as usize,
            expected: EDGE_RECORD_SIZE,
            actual: (bytes@.len() % 16) as usize,
        }),
{
    let rem = bytes.len() % EDGE_RECORD_SIZE;
    if rem != 0 {
        return Err(
            DecodeError::TruncatedRecord {
                offset: bytes.len() - rem,
                expected: EDGE_RECORD_SIZE,
                actual: rem,
            },
        );
    }
    let len = bytes.len();
    let n = len / EDGE_RECORD_SIZE;
    let mut es: Vec<PointerEdge> = Vec::new();
    let mut i: usize = 0;
    while i < n
        invariant
            len == bytes@.len(),
            n == bytes@.len() / 16,
            bytes@.len() % 16 == 0,
            i <= n,
            es@ == edges_of(bytes@).subrange(0, i as int),
        decreases n - i,
    {
        assert(16 * i + 16 <= bytes@.len()) by (nonlinear_arith)
            requires
                i < n,
                n == bytes@.len() / 16,
                bytes@.len() % 16 == 0,
        ;
        let p = 16 * i;
        let location = #[verifier::truncate] (u64_from_le_bytes(slice_subrange(bytes, p, p + 8)) as usize);
        let target = #[verifier::truncate] (u64_from_le_bytes(slice_subrange(bytes, p + 8, p + 16)) as usize);
        es.push(PointerEdge { location, target });
        assert(es@ =~= edges_of(bytes@).subrange(0, i + 1));
        i = i + 1;
    }
    assert(es@ =~= edges_of(bytes@));
    Ok(es)
}

/// Appends the file header to `out`.
pub fn encode_header(out: &mut Vec<u8>)
    ensures
        final(out)@ == old(out)@ + header_bytes(),
{
    let mut v = u32_to_le_bytes(FORMAT_VERSION);
    let ghost before = out@;
    out.append(&mut v);
    out.push(POINTER_WIDTH);
    assert(out@ =~= before + header_bytes());
}

/// Checks the header at the front of `bytes` and returns where the rest begins.
pub fn decode_header(bytes: &[u8]) -> (r: Result<usize, DecodeError>)
    ensures
        bytes@.len() < 5 ==> r == Err::<usize, DecodeError>(
            DecodeError::TruncatedRecord { offset: 0, expected: 5, actual: bytes@.len() as usize },
        ),
        bytes@.len() >= 5 ==> {
            let v = spec_u32_from_le_bytes(bytes@.subrange(0, 4));
            let w = bytes@[4];
            &&& v != FORMAT_VERSION ==> r == Err::<usize, DecodeError>(
                DecodeError::VersionMismatch { found: v },
            )
            &&& v == FORMAT_VERSION && w != POINTER_WIDTH ==> r == Err::<usize, DecodeError>(
                DecodeError::WidthMismatch { found: w },
            )
            &&& v == FORMAT_VERSION && w == POINTER_WIDTH ==> r == Ok::<usize, DecodeError>(5)
        },
{
    if bytes.len() < 5 {
        return Err(DecodeError::TruncatedRecord { offset: 0, expected: 5, actual: bytes.len() });
    }
    let v = u32_from_le_bytes(slice_subrange(bytes, 0, 4));
    if v != FORMAT_VERSION {
        return Err(DecodeError::VersionMismatch { found: v });
    }
    if bytes[4] != POINTER_WIDTH {
        return Err(DecodeError::WidthMismatch { found: bytes[4] });
    }
    Ok(5)
}

/// A header written by this library is accepted when read back.
pub proof fn lemma_header_round_trip(rest: Seq<u8>)
    ensures
        (header_bytes() + rest).len() >= 5,
        spec_u32_from_le_bytes((header_bytes() + rest).subrange(0, 4)) == FORMAT_VERSION,
        (header_bytes() + rest)[4] == POINTER_WIDTH,
{
    lemma_auto_spec_u32_to_from_le_bytes();
    let b = header_bytes() + rest;
    assert(b.subrange(0, 4) =~= spec_u32_to_le_bytes(FORMAT_VERSION));
}


/// What a region record holds.
pub struct RegionView {
    pub start: usize,
    pub end: usize,
    pub size: usize,
    pub is_read: bool,
    pub is_write: bool,
    pub is_exec: bool,
    pub is_stack: bool,
    pub is_heap: bool,
    pub path: Option<Seq<u8>>,
    pub name: Seq<u8>,
}

pub open spec fn region_view(r: MemoryRegion) -> RegionView {
    RegionView {
        start: r.start,
        end: r.end,
        size: r.size,
        is_read: r.is_read,
        is_write: r.is_write,
        is_exec: r.is_exec,
        is_stack: r.is_stack,
        is_heap: r.is_heap,
        path: match r.path {
            Some(p) => Some(p@),
            None => None,
        },
        name: r.name@,
    }
}

pub open spec fn region_views(rs: Seq<MemoryRegion>) -> Seq<RegionView> {
    rs.map_values(|r: MemoryRegion| region_view(r))
}

/// The record of `v` can be written: its strings and path have lengths that fit in a `u32`.
pub open spec fn encodable(v: RegionView) -> bool {
    &&& v.name.len() <= u32::MAX
    &&& v.path.is_some() ==> v.path.unwrap().len() <= u32::MAX
}

pub open spec fn enc_flag(b: bool) -> Seq<u8> {
    seq![if b { 1u8 } else { 0u8 }]
}

pub open spec fn enc_bytes(s: Seq<u8>) -> Seq<u8> {
    spec_u32_to_le_bytes(s.len() as u32) + s
}

pub open spec fn enc_path(p: Option<Seq<u8>>) -> Seq<u8> {
    match p {
        Some(p) => seq![1u8] + enc_bytes(p),
        None => seq![0u8],
    }
}

/// Fixed part of a region record: three addresses and five flags.
pub open spec fn enc_region_fixed(v: RegionView) -> Seq<u8> {
    enc_addr(v.start) + enc_addr(v.end) + enc_addr(v.size) + enc_flag(v.is_read) + enc_flag(v.is_write)
        + enc_flag(v.is_exec) + enc_flag(v.is_stack) + enc_flag(v.is_heap)
}

pub open spec fn enc_region(v: RegionView) -> Seq<u8> {
    enc_region_fixed(v) + enc_path(v.path) + enc_bytes(v.name)
}

pub open spec fn enc_regions(vs: Seq<RegionView>) -> Seq<u8>
    decreases vs.len(),
{
    if vs.len() == 0 {
        Seq::empty()
    } else {
        enc_regions(vs.drop_last()) + enc_region(vs.last())
    }
}

/// The whole file: header, region count, region records, edge records.
pub open spec fn enc_map(vs: Seq<RegionView>, es: Seq<PointerEdge>) -> Seq<u8> {
    header_bytes() + spec_u32_to_le_bytes(vs.len() as u32) + enc_regions(vs) + enc_edges(es)
}

pub open spec fn u64_at(b: Seq<u8>, p: int) -> usize {
    spec_u64_from_le_bytes(b.subrange(p, p + 8)) as usize
}

pub open spec fn u32_at(b: Seq<u8>, p: int) -> u32 {
    spec_u32_from_le_bytes(b.subrange(p, p + 4))
}

pub open spec fn truncated(b: Seq<u8>, p: int, n: int) -> DecodeError {
    DecodeError::TruncatedRecord { offset: p as usize, expected: n as usize, actual: (b.len() - p) as usize }
}

/// A length-prefixed byte string at `p`, and where it ends.
pub open spec fn parse_bytes(b: Seq<u8>, p: int) -> Result<(Seq<u8>, int), DecodeError> {
    if b.len() < p + 4 {
        Err(truncated(b, p, 4))
    } else if b.len() < p + 4 + u32_at(b, p) {
        Err(truncated(b, p + 4, u32_at(b, p) as int))
    } else {
        Ok((b.subrange(p + 4, p + 4 + u32_at(b, p)), p + 4 + u32_at(b, p)))
    }
}

/// The six flag bytes of the record at `p` are each 0 or 1.
pub open spec fn flags_ok(b: Seq<u8>, p: int) -> bool {
    forall|i: int| 24 <= i < 30 ==> #[trigger] b[p + i] <= 1
}

/// The region record at `p`, and where it ends.
pub open spec fn parse_region(b: Seq<u8>, p: int) -> Result<(RegionView, int), DecodeError> {
    if b.len() < p + 30 {
        Err(truncated(b, p, 30))
    } else if !flags_ok(b, p) {
        Err(DecodeError::BadFlag { offset: p as usize })
    } else {
        let path: Result<(Option<Seq<u8>>, int), DecodeError> = if b[p + 29] == 1 {
            match parse_bytes(b, p + 30) {
                Ok((s, q)) => Ok((Some(s), q)),
                Err(e) => Err(e),
            }
        } else {
            Ok((None, p + 30))
        };
        match path {
            Err(e) => Err(e),
            Ok((path, q)) => match parse_bytes(b, q) {
                Err(e) => Err(e),
                Ok((name, q2)) => Ok(
                    (
                        RegionView {
                            start: u64_at(b, p),
                            end: u64_at(b, p + 8),
                            size: u64_at(b, p + 16),
                            is_read: b[p + 24] == 1,
                            is_write: b[p + 25] == 1,
                            is_exec: b[p + 26] == 1,
                            is_stack: b[p + 27] == 1,
                            is_heap: b[p + 28] == 1,
                            path,
                            name,
                        },
                        q2,
                    ),
                ),
            },
        }
    }
}

/// `n` region records from `p` on, and where they end.
pub open spec fn parse_regions(b: Seq<u8>, p: int, n: nat) -> Result<(Seq<RegionView>, int), DecodeError>
    decreases n,
{
    if n == 0 {
        Ok((Seq::empty(), p))
    } else {
        match parse_regions(b, p, (n - 1) as nat) {
            Err(e) => Err(e),
            Ok((vs, q)) => match parse_region(b, q) {
                Err(e) => Err(e),
                Ok((v, q2)) => Ok((vs.push(v), q2)),
            },
        }
    }
}

/// What a whole file decodes to.
pub open spec fn parse_map(b: Seq<u8>) -> Result<(Seq<RegionView>, Seq<PointerEdge>), DecodeError> {
    if b.len() < 5 {
        Err(truncated(b, 0, 5))
    } else if spec_u32_from_le_bytes(b.subrange(0, 4)) != FORMAT_VERSION {
        Err(DecodeError::VersionMismatch { found: spec_u32_from_le_bytes(b.subrange(0, 4)) })
    } else if b[4] != POINTER_WIDTH {
        Err(DecodeError::WidthMismatch { found: b[4] })
    } else if b.len() < 9 {
        Err(truncated(b, 5, 4))
    } else {
        match parse_regions(b, 9, u32_at(b, 5) as nat) {
            Err(e) => Err(e),
            Ok((vs, q)) => if (b.len() - q) % 16 != 0 {
                Err(
                    DecodeError::TruncatedRecord {
                        offset: (b.len() - (b.len() - q) % 16) as usize,
                        expected: EDGE_RECORD_SIZE,
                        actual: ((b.len() - q) % 16) as usize,
                    },
                )
            } else {
                Ok((vs, edges_of(b.subrange(q, b.len() as int))))
            },
        }
    }
}

proof fn lemma_parse_bytes(b: Seq<u8>, p: int, s: Seq<u8>)
    requires
        0 <= p,
        s.len() <= u32::MAX,
        p + enc_bytes(s).len() <= b.len(),
        b.subrange(p, p + enc_bytes(s).len()) == enc_bytes(s),
    ensures
        enc_bytes(s).len() == 4 + s.len(),
        parse_bytes(b, p) == Ok::<(Seq<u8>, int), DecodeError>((s, p + 4 + s.len())),
{
    lemma_auto_spec_u32_to_from_le_bytes();
    let e = enc_bytes(s);
    assert(b.subrange(p, p + 4) =~= e.subrange(0, 4));
    assert(e.subrange(0, 4) =~= spec_u32_to_le_bytes(s.len() as u32));
    assert(b.subrange(p + 4, p + 4 + s.len()) =~= e.subrange(4, 4 + s.len() as int));
    assert(e.subrange(4, 4 + s.len() as int) =~= s);
}

proof fn lemma_parse_region(b: Seq<u8>, p: int, v: RegionView)
    requires
        0 <= p,
        encodable(v),
        p + enc_region(v).len() <= b.len(),
        b.subrange(p, p + enc_region(v).len()) == enc_region(v),
    ensures
        parse_region(b, p) == Ok::<(RegionView, int), DecodeError>((v, p + enc_region(v).len())),
{
    lemma_auto_spec_u64_to_from_le_bytes();
    let e = enc_region(v);
    let f = enc_region_fixed(v);
    let pe = enc_path(v.path);
    let ne = enc_bytes(v.name);
    assert(f.len() == 29);
    assert(e =~= f + pe + ne);
    assert forall|i: int| 0 <= i < e.len() implies b[p + i] == e[i] by {
        assert(b.subrange(p, p + e.len())[i] == b[p + i]);
    }
    assert(enc_addr(v.start).len() == 8 && enc_addr(v.end).len() == 8 && enc_addr(v.size).len() == 8);
    let a3 = enc_addr(v.start) + enc_addr(v.end) + enc_addr(v.size);
    assert(e.subrange(0, 24) =~= a3);
    assert forall|i: int| 0 <= i < 24 implies b[p + i] == a3[i] by {
        assert(e.subrange(0, 24)[i] == e[i]);
    }
    assert(b.subrange(p, p + 8) =~= enc_addr(v.start));
    assert(b.subrange(p + 8, p + 16) =~= enc_addr(v.end)) by {
        assert forall|i: int| 0 <= i < 8 implies b.subrange(p + 8, p + 16)[i] == enc_addr(v.end)[i] by {
            assert(b[p + 8 + i] == a3[8 + i]);
        }
    }
    assert(b.subrange(p + 16, p + 24) =~= enc_addr(v.size)) by {
        assert forall|i: int| 0 <= i < 8 implies b.subrange(p + 16, p + 24)[i] == enc_addr(v.size)[i] by {
            assert(b[p + 16 + i] == a3[16 + i]);
        }
    }
    assert(b[p + 24] == e[24] && b[p + 25] == e[25] && b[p + 26] == e[26]);
    assert(b[p + 27] == e[27] && b[p + 28] == e[28] && b[p + 29] == e[29]);
    assert(flags_ok(b, p)) by {
        assert forall|i: int| 24 <= i < 30 implies #[trigger] b[p + i] <= 1 by {
            assert(b[p + i] == e[i]);
        }
    }
    let q = p + 29 + pe.len();
    match v.path {
        Some(s) => {
            assert(b.subrange(p + 30, p + 30 + enc_bytes(s).len()) =~= enc_bytes(s)) by {
                assert forall|i: int| 0 <= i < enc_bytes(s).len() implies b.subrange(
                    p + 30,
                    p + 30 + enc_bytes(s).len(),
                )[i] == enc_bytes(s)[i] by {
                    assert(b[p + 30 + i] == e[30 + i]);
                }
            }
            lemma_parse_bytes(b, p + 30, s);
        },
        None => {},
    }
    assert(b.subrange(q, q + ne.len()) =~= ne) by {
        assert forall|i: int| 0 <= i < ne.len() implies b.subrange(q, q + ne.len())[i] == ne[i] by {
            assert(b[q + i] == e[29 + pe.len() + i]);
        }
    }
    lemma_parse_bytes(b, q, v.name);
}

proof fn lemma_parse_regions(b: Seq<u8>, p: int, vs: Seq<RegionView>)
    requires
        0 <= p,
        forall|i: int| 0 <= i < vs.len() ==> encodable(#[trigger] vs[i]),
        p + enc_regions(vs).len() <= b.len(),
        b.subrange(p, p + enc_regions(vs).len()) == enc_regions(vs),
    ensures
        parse_regions(b, p, vs.len()) == Ok::<(Seq<RegionView>, int), DecodeError>(
            (vs, p + enc_regions(vs).len()),
        ),
    decreases vs.len(),
{
    if vs.len() > 0 {
        let init = vs.drop_last();
        let a = enc_regions(init);
        let r = enc_region(vs.last());
        assert(b.subrange(p, p + a.len()) =~= b.subrange(p, p + a.len() + r.len()).subrange(0, a.len() as int));
        assert((a + r).subrange(0, a.len() as int) =~= a);
        assert forall|i: int| 0 <= i < init.len() implies encodable(#[trigger] init[i]) by {
            assert(init[i] == vs[i]);
        }
        lemma_parse_regions(b, p, init);
        assert(b.subrange(p + a.len(), p + a.len() + r.len()) =~= r) by {
            assert forall|i: int| 0 <= i < r.len() implies b.subrange(p + a.len(), p + a.len() + r.len())[i]
                == r[i] by {
                assert(b.subrange(p, p + a.len() + r.len())[a.len() + i] == b[p + a.len() + i]);
                assert((a + r)[a.len() + i] == r[i]);
            }
        }
        lemma_parse_region(b, p + a.len(), vs.last());
        assert(init.push(vs.last()) =~= vs);
        assert(enc_regions(vs) == a + r);
        assert((vs.len() - 1) as nat == init.len());
        assert(parse_regions(b, p, init.len()) == Ok::<(Seq<RegionView>, int), DecodeError>((init, p + a.len())));
        assert(parse_region(b, p + a.len()) == Ok::<(RegionView, int), DecodeError>((vs.last(), p + a.len() + r.len())));
    } else {
        assert(vs =~= Seq::<RegionView>::empty());
    }
}

/// Reading back a written file gives the same regions and edges.
pub proof fn lemma_map_round_trip(vs: Seq<RegionView>, es: Seq<PointerEdge>)
    requires
        vs.len() <= u32::MAX,
        forall|i: int| 0 <= i < vs.len() ==> encodable(#[trigger] vs[i]),
    ensures
        parse_map(enc_map(vs, es)) == Ok::<(Seq<RegionView>, Seq<PointerEdge>), DecodeError>((vs, es)),
{
    lemma_auto_spec_u32_to_from_le_bytes();
    let h = header_bytes();
    let c = spec_u32_to_le_bytes(vs.len() as u32);
    let rg = enc_regions(vs);
    let eg = enc_edges(es);
    let b = enc_map(vs, es);
    assert(b =~= h + c + rg + eg);
    lemma_header_round_trip(c + rg + eg);
    assert(h + (c + rg + eg) =~= b);
    assert(b.subrange(5, 9) =~= c);
    assert(b.subrange(9, 9 + rg.len() as int) =~= rg);
    lemma_parse_regions(b, 9, vs);
    let q = 9 + rg.len() as int;
    assert(b.subrange(q, b.len() as int) =~= eg);
    lemma_edges_round_trip(es);
}


fn push_addr(x: usize, out: &mut Vec<u8>)
    ensures
        final(out)@ == old(out)@ + enc_addr(x),
{
    let mut v = u64_to_le_bytes(x as u64);
    out.append(&mut v);
}

fn push_flag(b: bool, out: &mut Vec<u8>)
    ensures
        final(out)@ == old(out)@ + enc_flag(b),
{
    let ghost before = out@;
    out.push(if b { 1u8 } else { 0u8 });
    assert(out@ =~= before + enc_flag(b));
}

fn push_bytes(s: &Vec<u8>, out: &mut Vec<u8>)
    requires
        s@.len() <= u32::MAX,
    ensures
        final(out)@ == old(out)@ + enc_bytes(s@),
{
    let ghost before = out@;
    let mut n = u32_to_le_bytes(s.len() as u32);
    out.append(&mut n);
    out.extend_from_slice(s.as_slice());
    assert(out@ =~= before + enc_bytes(s@));
}

fn encode_region_fixed(r: &MemoryRegion, out: &mut Vec<u8>)
    ensures
        final(out)@ == old(out)@ + enc_region_fixed(region_view(*r)),
{
    let ghost before = out@;
    push_addr(r.start, out);
    push_addr(r.end, out);
    push_addr(r.size, out);
    let ghost a = out@;
    push_flag(r.is_read, out);
    push_flag(r.is_write, out);
    push_flag(r.is_exec, out);
    push_flag(r.is_stack, out);
    push_flag(r.is_heap, out);
    assert(a =~= before + enc_addr(r.start) + enc_addr(r.end) + enc_addr(r.size));
    assert(out@ =~= before + enc_region_fixed(region_view(*r)));
}

fn encode_path(path: &Option<Vec<u8>>, out: &mut Vec<u8>)
    requires
        path.is_some() ==> path.unwrap()@.len() <= u32::MAX,
    ensures
        final(out)@ == old(out)@ + enc_path(
            match *path {
                Some(p) => Some(p@),
                None => None,
            },
        ),
{
    let ghost before = out@;
    match path {
        Some(p) => {
            out.push(1u8);
            push_bytes(p, out);
            assert(out@ =~= before + (seq![1u8] + enc_bytes(p@)));
        },
        None => {
            out.push(0u8);
            assert(out@ =~= before + seq![0u8]);
        },
    }
}

/// Appends the record of `r` to `out`.
pub fn encode_region(r: &MemoryRegion, out: &mut Vec<u8>)
    requires
        encodable(region_view(*r)),
    ensures
        final(out)@ == old(out)@ + enc_region(region_view(*r)),
{
    let ghost before = out@;
    encode_region_fixed(r, out);
    encode_path(&r.path, out);
    push_bytes(&r.name, out);
    let ghost v = region_view(*r);
    assert(out@ =~= before + enc_region(v));
}

/// Appends the header, the region count and the region records: everything
/// of the file that comes before the edge records.
pub fn encode_regions(regions: &Vec<MemoryRegion>, out: &mut Vec<u8>)
    requires
        regions@.len() <= u32::MAX,
        forall|i: int| 0 <= i < regions@.len() ==> encodable(region_view(#[trigger] regions@[i])),
    ensures
        final(out)@ == old(out)@ + header_bytes() + spec_u32_to_le_bytes(regions@.len() as u32)
            + enc_regions(region_views(regions@)),
{
    let ghost start = old(out)@;
    encode_header(out);
    let mut n = u32_to_le_bytes(regions.len() as u32);
    out.append(&mut n);
    let ghost head = out@;
    let mut i: usize = 0;
    assert(region_views(regions@.subrange(0, 0)) =~= Seq::<RegionView>::empty());
    assert(head + Seq::empty() =~= head);
    while i < regions.len()
        invariant
            i <= regions@.len(),
            forall|k: int| 0 <= k < regions@.len() ==> encodable(region_view(#[trigger] regions@[k])),
            head == start + header_bytes() + spec_u32_to_le_bytes(regions@.len() as u32),
            out@ == head + enc_regions(region_views(regions@.subrange(0, i as int))),
        decreases regions@.len() - i,
    {
        let ghost before = out@;
        encode_region(&regions[i], out);
        let ghost vs = region_views(regions@.subrange(0, i + 1));
        assert(vs.drop_last() =~= region_views(regions@.subrange(0, i as int)));
        assert(vs.last() == region_view(regions@[i as int]));
        assert(out@ =~= head + enc_regions(vs));
        i = i + 1;
    }
    assert(regions@.subrange(0, regions@.len() as int) =~= regions@);
}

fn read_bytes(b: &[u8], p: usize) -> (r: Result<(Vec<u8>, usize), DecodeError>)
    requires
        p <= b@.len(),
    ensures
        match r {
            Ok((s, q)) => parse_bytes(b@, p as int) == Ok::<(Seq<u8>, int), DecodeError>((s@, q as int)),
            Err(e) => parse_bytes(b@, p as int) == Err::<(Seq<u8>, int), DecodeError>(e),
        },
{
    let len = b.len();
    if len < 4 || p > len - 4 {
        return Err(DecodeError::TruncatedRecord { offset: p, expected: 4, actual: len - p });
    }
    let n = u32_from_le_bytes(slice_subrange(b, p, p + 4)) as usize;
    if n > len - (p + 4) {
        return Err(DecodeError::TruncatedRecord { offset: p + 4, expected: n, actual: len - (p + 4) });
    }
    let s = slice_to_vec(slice_subrange(b, p + 4, p + 4 + n));
    Ok((s, p + 4 + n))
}

/// Reads the region record at `p`.
pub fn decode_region(b: &[u8], p: usize) -> (r: Result<(MemoryRegion, usize), DecodeError>)
    requires
        p <= b@.len(),
    ensures
        match r {
            Ok((m, q)) => parse_region(b@, p as int) == Ok::<(RegionView, int), DecodeError>(
                (region_view(m), q as int),
            ),
            Err(e) => parse_region(b@, p as int) == Err::<(RegionView, int), DecodeError>(e),
        },
{
    let len = b.len();
    if len < 30 || p > len - 30 {
        return Err(DecodeError::TruncatedRecord { offset: p, expected: 30, actual: len - p });
    }
    let mut i: usize = 24;
    while i < 30
        invariant
            24 <= i <= 30,
            len == b@.len(),
            p + 30 <= len,
            forall|k: int| 24 <= k < i ==> #[trigger] b@[p + k] <= 1,
        decreases 30 - i,
    {
        if b[p + i] > 1 {
            assert(!flags_ok(b@, p as int));
            return Err(DecodeError::BadFlag { offset: p });
        }
        i = i + 1;
    }
    assert(flags_ok(b@, p as int));
    let start = #[verifier::truncate] (u64_from_le_bytes(slice_subrange(b, p, p + 8)) as usize);
    let end = #[verifier::truncate] (u64_from_le_bytes(slice_subrange(b, p + 8, p + 16)) as usize);
    let size = #[verifier::truncate] (u64_from_le_bytes(slice_subrange(b, p + 16, p + 24)) as usize);
    let (path, q) = if b[p + 29] == 1 {
        match read_bytes(b, p + 30) {
            Ok((s, q)) => (Some(s), q),
            Err(e) => {
                return Err(e);
            },
        }
    } else {
        (None, p + 30)
    };
    let (name, q2) = match read_bytes(b, q) {
        Ok(x) => x,
        Err(e) => {
            return Err(e);
        },
    };
    let m = MemoryRegion {
        start,
        end,
        size,
        is_read: b[p + 24] == 1,
        is_write: b[p + 25] == 1,
        is_exec: b[p + 26] == 1,
        is_stack: b[p + 27] == 1,
        is_heap: b[p + 28] == 1,
        path,
        name,
    };
    Ok((m, q2))
}

/// Reads a whole pointer-map file: its regions and its edges. Fails on a
/// short or unsupported header, on a malformed region record, and when what
/// follows the regions is not a whole number of edge records.
pub fn decode_map(b: &[u8]) -> (r: Result<(Vec<MemoryRegion>, Vec<PointerEdge>), DecodeError>)
    ensures
        match r {
            Ok((rs, es)) => parse_map(b@) == Ok::<(Seq<RegionView>, Seq<PointerEdge>), DecodeError>(
                (region_views(rs@), es@),
            ),
            Err(e) => parse_map(b@) == Err::<(Seq<RegionView>, Seq<PointerEdge>), DecodeError>(e),
        },
{
    match decode_header(b) {
        Err(e) => {
            return Err(e);
        },
        Ok(_) => {},
    }
    let len = b.len();
    if len < 9 {
        return Err(DecodeError::TruncatedRecord { offset: 5, expected: 4, actual: len - 5 });
    }
    let count = u32_from_le_bytes(slice_subrange(b, 5, 9));
    let mut regions: Vec<MemoryRegion> = Vec::new();
    let mut p: usize = 9;
    let mut k: u32 = 0;
    assert(region_views(regions@) =~= Seq::<RegionView>::empty());
    while k < count
        invariant
            k <= count,
            len == b@.len(),
            b@.len() >= 9,
            p <= len,
            spec_u32_from_le_bytes(b@.subrange(0, 4)) == FORMAT_VERSION,
            b@[4] == POINTER_WIDTH,
            count == u32_at(b@, 5),
            parse_regions(b@, 9, k as nat) == Ok::<(Seq<RegionView>, int), DecodeError>(
                (region_views(regions@), p as int),
            ),
        decreases count - k,
    {
        match decode_region(b, p) {
            Err(e) => {
                proof {
                    assert(parse_regions(b@, 9, (k + 1) as nat) == Err::<(Seq<RegionView>, int), DecodeError>(e));
                    lemma_parse_regions_stays_failed(b@, (k + 1) as nat, count as nat);
                    assert(parse_map(b@) == Err::<(Seq<RegionView>, Seq<PointerEdge>), DecodeError>(e));
                }
                return Err(e);
            },
            Ok((m, q)) => {
                proof {
                    lemma_parse_region_in_bounds(b@, p as int);
                }
                let ghost before = regions@;
                regions.push(m);
                assert(region_views(regions@) =~= region_views(before).push(region_view(m)));
                p = q;
            },
        }
        k = k + 1;
    }
    proof {
        assert(parse_regions(b@, 9, count as nat) == Ok::<(Seq<RegionView>, int), DecodeError>(
            (region_views(regions@), p as int),
        ));
    }
    let rest = slice_subrange(b, p, len);
    match decode_edges(rest) {
        Ok(es) => Ok((regions, es)),
        Err(_) => {
            let rem = (len - p) % EDGE_RECORD_SIZE;
            Err(DecodeError::TruncatedRecord { offset: len - rem, expected: EDGE_RECORD_SIZE, actual: rem })
        },
    }
}

proof fn lemma_parse_bytes_in_bounds(b: Seq<u8>, p: int)
    ensures
        parse_bytes(b, p) is Ok ==> parse_bytes(b, p)->Ok_0.1 <= b.len() && parse_bytes(b, p)->Ok_0.1 >= p,
{
}

proof fn lemma_parse_region_in_bounds(b: Seq<u8>, p: int)
    ensures
        parse_region(b, p) is Ok ==> p <= parse_region(b, p)->Ok_0.1 <= b.len(),
{
    if b.len() >= p + 30 && flags_ok(b, p) {
        lemma_parse_bytes_in_bounds(b, p + 30);
        if b[p + 29] == 1 {
            if let Ok((s, q1)) = parse_bytes(b, p + 30) {
                lemma_parse_bytes_in_bounds(b, q1);
            }
        }
    }
}

proof fn lemma_parse_regions_stays_failed(b: Seq<u8>, k: nat, n: nat)
    requires
        k <= n,
        parse_regions(b, 9, k) is Err,
    ensures
        parse_regions(b, 9, n) == parse_regions(b, 9, k),
    decreases n - k,
{
    if k < n {
        lemma_parse_regions_stays_failed(b, k, (n - 1) as nat);
    }
}

} // verus!
