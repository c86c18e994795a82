use ptrscan::builder::{ChunkCursor, PointerEdge};
use ptrscan::codec::{
    decode_edges, decode_header, decode_map, decode_region, encode_edges, encode_header, encode_region,
    encode_regions, DecodeError, FORMAT_VERSION,
};
use ptrscan::region_index::RegionIndex;
use ptrscan::scanner::{scan, verify_path, PathBrokenError, PointerGraph, ScanStatus};
use ptrscan::MemoryRegion;

fn region(start: usize, end: usize, path: Option<&str>, name: &str) -> MemoryRegion {
    MemoryRegion::new(start, end, true, false, true, false, true, path.map(|p| p.as_bytes().to_vec()), name.as_bytes().to_vec())
}

fn same_region(a: &MemoryRegion, b: &MemoryRegion) -> bool {
    a.start == b.start
        && a.end == b.end
        && a.size == b.size
        && a.is_read == b.is_read
        && a.is_write == b.is_write
        && a.is_exec == b.is_exec
        && a.is_stack == b.is_stack
        && a.is_heap == b.is_heap
        && a.path == b.path
        && a.name == b.name
}

fn edge(location: usize, target: usize) -> PointerEdge {
    PointerEdge { location, target }
}

fn encode(regions: &Vec<MemoryRegion>, edges: &Vec<PointerEdge>) -> Vec<u8> {
    let mut out = Vec::new();
    encode_regions(regions, &mut out);
    encode_edges(edges, &mut out);
    out
}

fn round_trip(regions: Vec<MemoryRegion>, edges: Vec<PointerEdge>) {
    let bytes = encode(&regions, &edges);
    let (rs, es) = decode_map(&bytes).unwrap();
    assert_eq!(rs.len(), regions.len());
    for (a, b) in rs.iter().zip(regions.iter()) {
        assert!(same_region(a, b));
    }
    assert_eq!(es, edges);
}

#[test]
fn codec_round_trip_empty() {
    round_trip(Vec::new(), Vec::new());
}

#[test]
fn codec_round_trip_single() {
    round_trip(vec![region(0x1000, 0x2000, Some("/bin/app"), "app")], vec![edge(0x1008, 0x1010)]);
}

#[test]
fn codec_round_trip_many() {
    let regions: Vec<MemoryRegion> = (0..50)
        .map(|i| {
            let path = if i % 3 == 0 { None } else { Some("/lib/x.so") };
            region(0x10000 * (i + 1), 0x10000 * (i + 1) + 0x800, path, "[heap]")
        })
        .collect();
    let edges: Vec<PointerEdge> = (0..5000).map(|i| edge(0x1000 + 8 * i, usize::MAX - i)).collect();
    round_trip(regions, edges);
}

#[test]
fn edge_records_are_sixteen_little_endian_bytes() {
    let mut out = Vec::new();
    encode_edges(&vec![edge(0x0102, 0x0304)], &mut out);
    assert_eq!(out, vec![2, 1, 0, 0, 0, 0, 0, 0, 4, 3, 0, 0, 0, 0, 0, 0]);
    assert_eq!(decode_edges(&out), Ok(vec![edge(0x0102, 0x0304)]));
}

#[test]
fn truncated_edge_stream_is_rejected() {
    let mut out = Vec::new();
    encode_edges(&vec![edge(1, 2), edge(3, 4)], &mut out);
    out.pop();
    assert_eq!(decode_edges(&out), Err(DecodeError::TruncatedRecord { offset: 16, expected: 16, actual: 15 }));
}

#[test]
fn truncated_map_is_rejected() {
    let mut bytes = encode(&vec![region(0x1000, 0x2000, None, "a")], &vec![edge(1, 2), edge(3, 4)]);
    let full = bytes.len();
    bytes.truncate(full - 3);
    assert_eq!(
        decode_map(&bytes).unwrap_err(),
        DecodeError::TruncatedRecord { offset: full - 16, expected: 16, actual: 13 }
    );
    let cut = encode(&vec![region(0x1000, 0x2000, None, "abc")], &Vec::new());
    assert!(matches!(decode_map(&cut[..cut.len() - 1]), Err(DecodeError::TruncatedRecord { .. })));
    assert!(matches!(decode_map(&cut[..3]), Err(DecodeError::TruncatedRecord { offset: 0, .. })));
}

#[test]
fn header_version_is_checked() {
    let mut h = Vec::new();
    encode_header(&mut h);
    assert_eq!(h, vec![FORMAT_VERSION as u8, 0, 0, 0, 8]);
    assert_eq!(decode_header(&h), Ok(5));
    let mut other = h.clone();
    other[0] = 7;
    assert_eq!(decode_header(&other), Err(DecodeError::VersionMismatch { found: 7 }));
    let mut narrow = h.clone();
    narrow[4] = 4;
    assert_eq!(decode_header(&narrow), Err(DecodeError::WidthMismatch { found: 4 }));
    other.extend_from_slice(&[0, 0, 0, 0]);
    assert_eq!(decode_map(&other).unwrap_err(), DecodeError::VersionMismatch { found: 7 });
}

#[test]
fn bad_flag_is_rejected() {
    let mut out = Vec::new();
    encode_region(&region(1, 2, None, "n"), &mut out);
    assert_eq!(out.len(), 30 + 4 + 1);
    assert!(decode_region(&out, 0).is_ok());
    out[26] = 2;
    assert_eq!(decode_region(&out, 0).unwrap_err(), DecodeError::BadFlag { offset: 0 });
}

fn chain_graph() -> PointerGraph {
    let edges = vec![edge(0x1008, 0x2000), edge(0x1ff0, 0x3000), edge(0x3004, 0x4000)];
    let allowed = RegionIndex::build(&vec![(0x1000, 0x4000)]).unwrap();
    PointerGraph::new(&edges, &allowed)
}

#[test]
fn scanner_finds_three_step_chain() {
    let g = chain_graph();
    let r = scan(&g, 0x1000, 0x4000, 3, 64, 10);
    assert_eq!(r.status, ScanStatus::Found);
    assert_eq!(r.paths, vec![vec![8, -16, 4]]);
    let deeper = scan(&g, 0x1000, 0x4000, 5, 64, 10);
    assert_eq!(deeper.paths, vec![vec![8, -16, 4]]);
}

#[test]
fn scanner_respects_depth() {
    let g = chain_graph();
    let r = scan(&g, 0x1000, 0x4000, 2, 64, 10);
    assert_eq!(r.status, ScanStatus::NoPathFound);
    assert!(r.paths.is_empty());
}

#[test]
fn scanner_respects_offset_bound() {
    let g = chain_graph();
    let r = scan(&g, 0x1000, 0x4000, 3, 15, 10);
    assert_eq!(r.status, ScanStatus::NoPathFound);
    let r = scan(&g, 0x1000, 0x4000, 3, 16, 10);
    assert_eq!(r.paths, vec![vec![8, -16, 4]]);
}

#[test]
fn scanner_anchor_at_target_is_empty_path() {
    let g = chain_graph();
    let r = scan(&g, 0x4000, 0x4000, 3, 64, 10);
    assert_eq!(r.paths, vec![Vec::<i16>::new()]);
}

#[test]
fn scanner_reports_limit() {
    let edges = vec![edge(0x1000, 0x5000), edge(0x1008, 0x5000), edge(0x1010, 0x5000)];
    let allowed = RegionIndex::build(&vec![(0x1000, 0x8000)]).unwrap();
    let g = PointerGraph::new(&edges, &allowed);
    let all = scan(&g, 0x1000, 0x5000, 1, 64, 10);
    assert_eq!(all.status, ScanStatus::Found);
    assert_eq!(all.paths, vec![vec![0], vec![8], vec![16]]);
    let capped = scan(&g, 0x1000, 0x5000, 1, 64, 2);
    assert_eq!(capped.status, ScanStatus::LimitReached);
    assert_eq!(capped.paths.len(), 2);
}

#[test]
fn graph_drops_edges_outside_allowed_regions() {
    let edges = vec![edge(0x1008, 0x2000), edge(0x1010, 0x9000), edge(0x1008, 0x2100)];
    let allowed = RegionIndex::build(&vec![(0x2000, 0x1000)]).unwrap();
    let g = PointerGraph::new(&edges, &allowed);
    assert_eq!(g.len(), 1);
    assert_eq!(g.deref(0x1008), Some(0x2000));
    assert_eq!(g.deref(0x1010), None);
}

#[test]
fn verify_path_resolves_and_breaks() {
    let g = chain_graph();
    let path = scan(&g, 0x1000, 0x4000, 3, 64, 10).paths.remove(0);
    assert_eq!(verify_path(&g, 0x1000, &path), Ok(0x4000));
    let changed = vec![edge(0x1008, 0x2000), edge(0x1ff0, 0x3100), edge(0x3004, 0x4000)];
    let allowed = RegionIndex::build(&vec![(0x1000, 0x4000)]).unwrap();
    let g2 = PointerGraph::new(&changed, &allowed);
    assert_eq!(verify_path(&g2, 0x1000, &path), Err(PathBrokenError { step: 2 }));
    assert_eq!(verify_path(&g, 0x1000, &vec![8, 0]), Err(PathBrokenError { step: 1 }));
    assert_eq!(verify_path(&g, 0, &vec![-1]), Err(PathBrokenError { step: 0 }));
    assert_eq!(verify_path(&g, 0x1234, &Vec::new()), Ok(0x1234));
}

fn put(mem: &mut [u8], at: usize, value: usize) {
    mem[at..at + 8].copy_from_slice(&(value as u64).to_le_bytes());
}

fn dump(idx: &RegionIndex, images: &[(usize, &Vec<u8>)], regions: &Vec<MemoryRegion>) -> Vec<u8> {
    let mut out = Vec::new();
    encode_regions(regions, &mut out);
    for &(start, mem) in images {
        let mut cursor = ChunkCursor::new(start, mem.len(), 0x40);
        let mut edges = Vec::new();
        while let Some((addr, len)) = cursor.next_read() {
            let off = addr - start;
            cursor.advance(idx, &mem[off..off + len], true, &mut edges);
        }
        encode_edges(&edges, &mut out);
    }
    out
}

#[test]
fn end_to_end_synthetic_image() {
    let module = 0x10000;
    let heap = 0x20000;
    let stack = 0x30000;
    let regions = vec![
        region(module, module + 0x100, Some("/opt/game"), "game"),
        region(heap, heap + 0x100, None, "[heap]"),
        region(stack, stack + 0x100, None, "[stack]"),
    ];
    let mut module_mem = vec![0u8; 0x100];
    let mut heap_mem = vec![0u8; 0x100];
    let mut stack_mem = vec![0u8; 0x100];
    let first = heap;
    let second = heap + 0x40;
    put(&mut module_mem, 0x10, first);
    put(&mut heap_mem, 0x00, 7);
    put(&mut heap_mem, 0x08, second);
    put(&mut heap_mem, 0x40, 42);
    put(&mut stack_mem, 0x20, second);
    let idx = RegionIndex::build(&vec![(module, 0x100), (heap, 0x100), (stack, 0x100)]).unwrap();

    let file = dump(&idx, &[(module, &module_mem), (heap, &heap_mem), (stack, &stack_mem)], &regions);
    let (rs, es) = decode_map(&file).unwrap();
    assert_eq!(rs.len(), 3);
    let g = PointerGraph::new(&es, &idx);
    let r = scan(&g, module, second, 2, 64, 10);
    assert_eq!(r.status, ScanStatus::Found);
    assert_eq!(r.paths, vec![vec![0x10, 0x08]]);

    let stack_only = dump(&idx, &[(stack, &stack_mem)], &regions);
    let (_, es) = decode_map(&stack_only).unwrap();
    let g = PointerGraph::new(&es, &idx);
    let r = scan(&g, module, second, 2, 64, 10);
    assert_eq!(r.status, ScanStatus::NoPathFound);
}
