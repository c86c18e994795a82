use ptrscan::builder::{scan_chunk, scan_image, scan_ranges, ChunkCursor, PointerEdge};
use ptrscan::region::EXE;
use ptrscan::region_index::RegionIndex;
use ptrscan::{bytes_to_usize, wrap_add, MemoryRegion};

fn region(start: usize, end: usize, path: Option<&str>) -> MemoryRegion {
    MemoryRegion::new(
        start,
        end,
        true,
        true,
        false,
        false,
        false,
        path.map(|p| p.as_bytes().to_vec()),
        b"r".to_vec(),
    )
}

fn put(mem: &mut [u8], at: usize, value: usize) {
    mem[at..at + 8].copy_from_slice(&(value as u64).to_le_bytes());
}

fn scan_by_cursor(idx: &RegionIndex, start: usize, mem: &[u8], chunk: usize, aligned: bool) -> Vec<PointerEdge> {
    let mut cursor = ChunkCursor::new(start, mem.len(), chunk);
    let mut out = Vec::new();
    while let Some((addr, len)) = cursor.next_read() {
        let off = addr - start;
        cursor.advance(idx, &mem[off..off + len], aligned, &mut out);
    }
    out
}

#[test]
fn wrap_add_adds_and_subtracts() {
    assert_eq!(wrap_add(10, -3), Some(7));
    assert_eq!(wrap_add(10, 5), Some(15));
    assert_eq!(wrap_add(3, -3), Some(0));
    assert_eq!(wrap_add(usize::MAX - 1, 1), Some(usize::MAX));
    assert_eq!(wrap_add(0, i16::MIN), None);
}

#[test]
fn wrap_add_refuses_to_wrap() {
    assert_eq!(wrap_add(2, -3), None);
    assert_eq!(wrap_add(usize::MAX, 1), None);
}

#[test]
fn bytes_to_usize_reads_little_endian() {
    assert_eq!(bytes_to_usize(&[1, 2, 0, 0, 0, 0, 0, 0]), Ok(0x0201));
    assert_eq!(bytes_to_usize(&[0xff; 8]), Ok(usize::MAX));
}

#[test]
fn bytes_to_usize_needs_eight_bytes() {
    assert!(bytes_to_usize(&[1, 2, 3]).is_err());
    assert!(bytes_to_usize(&[0; 9]).is_err());
    assert!(bytes_to_usize(&[]).is_err());
}

#[test]
fn region_new_sets_size() {
    let r = region(0x1000, 0x3000, None);
    assert_eq!(r.size, 0x2000);
    assert_eq!(r.start, 0x1000);
    assert_eq!(r.end, 0x3000);
}

#[test]
fn exe_candidates_exclude_system_dirs() {
    assert!(region(1, 2, Some("/home/u/app")).is_exe_candidate());
    assert!(!region(1, 2, Some("/dev/zero")).is_exe_candidate());
    assert!(!region(1, 2, Some("/usr/lib/libc.so")).is_exe_candidate());
    assert!(!region(1, 2, Some("/usr")).is_exe_candidate());
    assert!(region(1, 2, Some("/device/x")).is_exe_candidate());
    assert!(!region(1, 2, None).is_exe_candidate());
    let mut unreadable = region(1, 2, Some("/home/u/app"));
    unreadable.is_read = false;
    assert!(!unreadable.is_exe_candidate());
}

#[test]
fn is_exe_checks_the_header() {
    let r = region(1, 2, Some("/opt/app"));
    assert!(r.is_exe(Some(EXE)));
    assert!(r.is_exe(Some([0x7f, b'E', b'L', b'F'])));
    assert!(!r.is_exe(Some([0x7f, b'E', b'L', b'G'])));
    assert!(!r.is_exe(None));
    assert!(!region(1, 2, Some("/usr/bin/x")).is_exe(Some(EXE)));
}

#[test]
fn index_contains_matches_ranges() {
    let idx = RegionIndex::build(&vec![(0x3000, 0x100), (0x1000, 0x100), (0x2000, 0x10)]).unwrap();
    assert_eq!(idx.ranges(), &vec![(0x1000, 0x100), (0x2000, 0x10), (0x3000, 0x100)]);
    assert_eq!(idx.contains(0x1000), Some((0x1000, 0x100)));
    assert_eq!(idx.contains(0x10ff), Some((0x1000, 0x100)));
    assert_eq!(idx.contains(0x1100), None);
    assert_eq!(idx.contains(0x200f), Some((0x2000, 0x10)));
    assert_eq!(idx.contains(0x2010), None);
    assert_eq!(idx.contains(0x0fff), None);
    assert_eq!(idx.contains(0x30ff), Some((0x3000, 0x100)));
    assert_eq!(idx.contains(usize::MAX), None);
}

#[test]
fn index_contains_agrees_with_linear_scan() {
    let mut seed: u64 = 0x1234_5678;
    let mut next = move || {
        seed = seed.wrapping_mul(6364136223846793005).wrapping_add(1442695040888963407);
        (seed >> 33) as usize
    };
    for _ in 0..20 {
        let mut ranges = Vec::new();
        let mut at = next() % 64;
        for _ in 0..(next() % 12) {
            let size = 1 + next() % 40;
            ranges.push((at, size));
            at += size + next() % 30;
        }
        let mut shuffled = ranges.clone();
        shuffled.reverse();
        let idx = RegionIndex::build(&shuffled).unwrap();
        for a in 0..at + 10 {
            let linear = ranges.iter().copied().find(|&(s, n)| s <= a && a < s + n);
            assert_eq!(idx.contains(a), linear);
        }
    }
}

#[test]
fn index_rejects_overlap() {
    let e = RegionIndex::build(&vec![(0x1000, 0x100), (0x2000, 0x10), (0x10f0, 0x20)]).unwrap_err();
    assert_eq!(e.first, (0x1000, 0x100));
    assert_eq!(e.second, (0x10f0, 0x20));
    assert!(RegionIndex::build(&vec![(5, 10), (5, 10)]).is_err());
    assert!(RegionIndex::build(&vec![(0, 10), (9, 1)]).is_err());
}

#[test]
fn index_accepts_touching_and_empty_ranges() {
    let idx = RegionIndex::build(&vec![(10, 10), (0, 10), (5, 0)]).unwrap();
    assert_eq!(idx.len(), 2);
    assert_eq!(idx.contains(9), Some((0, 10)));
    assert_eq!(idx.contains(10), Some((10, 10)));
    assert_eq!(idx.contains(5), Some((0, 10)));
}

#[test]
fn index_is_independent_of_input_order() {
    let a = RegionIndex::build(&vec![(0x100, 0x10), (0x200, 0x20), (0x50, 0x8)]).unwrap();
    let b = RegionIndex::build(&vec![(0x200, 0x20), (0x50, 0x8), (0x100, 0x10)]).unwrap();
    for addr in 0..0x300 {
        assert_eq!(a.contains(addr), b.contains(addr));
    }
}

#[test]
fn builder_finds_planted_pointer() {
    let idx = RegionIndex::build(&vec![(0x1000, 0x100), (0x8000, 0x100)]).unwrap();
    let mut mem = vec![0u8; 0x100];
    put(&mut mem, 0x28, 0x8010);
    put(&mut mem, 0x40, 0x9000);
    put(&mut mem, 0x50, 0x8100);
    let mut out = Vec::new();
    scan_chunk(&idx, 0x1000, &mem, true, &mut out);
    assert_eq!(out, vec![PointerEdge { location: 0x1028, target: 0x8010 }]);
}

#[test]
fn builder_unaligned_finds_odd_locations() {
    let idx = RegionIndex::build(&vec![(0x1000, 0x100), (0x8000, 0x100)]).unwrap();
    let mut mem = vec![0u8; 0x40];
    put(&mut mem, 0x13, 0x8020);
    let mut aligned = Vec::new();
    scan_chunk(&idx, 0x1000, &mem, true, &mut aligned);
    assert!(aligned.is_empty());
    let mut all = Vec::new();
    scan_chunk(&idx, 0x1000, &mem, false, &mut all);
    assert_eq!(all, vec![PointerEdge { location: 0x1013, target: 0x8020 }]);
}

#[test]
fn builder_short_buffer_yields_nothing() {
    let idx = RegionIndex::build(&vec![(0, 0x100)]).unwrap();
    let mut out = Vec::new();
    scan_chunk(&idx, 0x10, &[1, 2, 3, 4, 5, 6, 7], false, &mut out);
    assert!(out.is_empty());
}

#[test]
fn chunking_finds_pointer_across_boundary() {
    let idx = RegionIndex::build(&vec![(0x1000, 0x100), (0x8000, 0x100)]).unwrap();
    let mut mem = vec![0u8; 0x100];
    put(&mut mem, 0x1d, 0x8004);
    put(&mut mem, 0x40, 0x8008);
    let whole = {
        let mut out = Vec::new();
        scan_chunk(&idx, 0x1000, &mem, false, &mut out);
        out
    };
    assert_eq!(whole.len(), 2);
    for chunk in [8, 9, 16, 0x20, 0x21, 0x40, 0x1000] {
        assert_eq!(scan_by_cursor(&idx, 0x1000, &mem, chunk, false), whole);
        let mut image = Vec::new();
        scan_image(&idx, 0x1000, &mem, chunk, false, &mut image);
        assert_eq!(image, whole);
    }
}

#[test]
fn cursor_overlaps_chunks() {
    let mut c = ChunkCursor::new(0x1000, 0x30, 0x10);
    let idx = RegionIndex::new();
    let mut out = Vec::new();
    assert_eq!(c.next_read(), Some((0x1000, 0x10)));
    c.advance(&idx, &[0; 0x10], true, &mut out);
    assert_eq!(c.next_read(), Some((0x1009, 0x10)));
    c.advance(&idx, &[0; 0x10], true, &mut out);
    assert_eq!(c.next_read(), Some((0x1012, 0x10)));
    c.advance(&idx, &[0; 0x10], true, &mut out);
    assert_eq!(c.next_read(), Some((0x101b, 0x10)));
    c.advance(&idx, &[0; 0x10], true, &mut out);
    assert_eq!(c.next_read(), Some((0x1024, 0x0c)));
    c.advance(&idx, &[0; 0x0c], true, &mut out);
    assert_eq!(c.next_read(), None);
}

#[test]
fn cursor_stops_after_short_read_or_failure() {
    let idx = RegionIndex::new();
    let mut out = Vec::new();
    let mut c = ChunkCursor::new(0x1000, 0x100, 0x10);
    c.advance(&idx, &[0; 4], true, &mut out);
    assert_eq!(c.next_read(), None);
    let mut d = ChunkCursor::new(0x1000, 0x100, 0x10);
    d.abandon();
    assert_eq!(d.next_read(), None);
    assert_eq!(ChunkCursor::new(0x1000, 0, 0x10).next_read(), None);
}

#[test]
fn scan_ranges_takes_start_and_size() {
    let rs = vec![region(0x1000, 0x1800, None), region(0x4000, 0x4010, Some("/a"))];
    assert_eq!(scan_ranges(&rs), vec![(0x1000, 0x800), (0x4000, 0x10)]);
}
