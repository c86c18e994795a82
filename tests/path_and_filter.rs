use ptrscan::path::PointerPath;
use ptrscan::region::RegionFilter;
use ptrscan::region_index::RegionIndex;
use ptrscan::scanner::{scan, PointerGraph, ScanStatus};
use ptrscan::builder::PointerEdge;
use ptrscan::MemoryRegion;

fn text(p: &PointerPath) -> String {
    String::from_utf8(p.render()).unwrap()
}

#[test]
fn render_names_module_and_offsets() {
    let p = PointerPath { module: b"game.exe".to_vec(), base_offset: 0x1a2b0, steps: vec![8, -16, 4] };
    assert_eq!(text(&p), "game.exe+0x1a2b0 -> +0x8 -> -0x10 -> +0x4");
}

#[test]
fn render_without_steps_and_extremes() {
    let p = PointerPath { module: b"m".to_vec(), base_offset: 0, steps: Vec::new() };
    assert_eq!(text(&p), "m+0x0");
    let q = PointerPath { module: Vec::new(), base_offset: usize::MAX, steps: vec![i16::MIN, i16::MAX, 0] };
    assert_eq!(text(&q), "+0xffffffffffffffff -> -0x8000 -> +0x7fff -> +0x0");
}

fn region(read: bool, write: bool, stack: bool, path: bool) -> MemoryRegion {
    MemoryRegion::new(0x1000, 0x2000, read, write, false, stack, false, if path { Some(b"/x".to_vec()) } else { None }, Vec::new())
}

#[test]
fn filter_selects_matching_regions() {
    let rs = vec![
        region(true, true, false, true),
        region(false, true, false, true),
        region(true, false, false, false),
        region(true, true, true, false),
        region(true, true, false, false),
    ];
    let writable = RegionFilter { require_write: true, allow_stack: false, require_path: false };
    assert_eq!(writable.select(&rs), vec![0, 4]);
    let any = RegionFilter { require_write: false, allow_stack: true, require_path: false };
    assert_eq!(any.select(&rs), vec![0, 2, 3, 4]);
    let modules = RegionFilter { require_write: false, allow_stack: false, require_path: true };
    assert_eq!(modules.select(&rs), vec![0]);
    assert!(modules.accepts(&rs[0]));
    assert!(!modules.accepts(&rs[1]));
}

#[test]
fn negative_offset_bound_allows_no_steps() {
    let allowed = RegionIndex::build(&vec![(0x1000, 0x1000)]).unwrap();
    let g = PointerGraph::new(&vec![PointerEdge { location: 0x1000, target: 0x1800 }], &allowed);
    assert_eq!(scan(&g, 0x1000, 0x1800, 3, 0, 10).paths, vec![vec![0]]);
    assert_eq!(scan(&g, 0x1000, 0x1800, 3, -1, 10).status, ScanStatus::NoPathFound);
    assert_eq!(scan(&g, 0x1800, 0x1800, 3, -1, 10).paths, vec![Vec::<i16>::new()]);
    assert_eq!(scan(&g, 0x1000, 0x1800, 3, 0, 0).status, ScanStatus::LimitReached);
}
