use big_iron::frames::{BootInfoFrameAllocator, MemoryRegion, PAGE_SIZE};

fn region(start: u64, end: u64, usable: bool) -> MemoryRegion {
    MemoryRegion { start, end, usable }
}

#[test]
fn trivial_assertion_runs() {
    big_iron::trivial_assertion();
}

#[test]
fn frames_are_aligned_unique_and_usable() {
    let regions = vec![
        region(0x0, 0x1000, false),   // reserved: skipped
        region(0x1234, 0x5000, true), // first full page starts at 0x2000
        region(0x6000, 0x6800, true), // smaller than one page: no frames
        region(0x8000, 0xA000, true),
    ];
    let mut fa = BootInfoFrameAllocator::init(regions);
    let mut got: Vec<u64> = Vec::new();
    loop {
        match fa.next_frame() {
            Some(f) => got.push(f.start),
            None => break,
        }
    }
    assert_eq!(got, vec![0x2000, 0x3000, 0x4000, 0x8000, 0x9000]);
    for i in 0..got.len() {
        assert_eq!(got[i] % PAGE_SIZE, 0);
        for j in 0..got.len() {
            if i != j {
                assert!(got[i] + PAGE_SIZE <= got[j] || got[j] + PAGE_SIZE <= got[i]);
            }
        }
    }
}

#[test]
fn exhaustion_is_terminal() {
    let mut fa = BootInfoFrameAllocator::init(vec![region(0x1000, 0x2000, true)]);
    assert_eq!(fa.next_frame().map(|f| f.start), Some(0x1000));
    assert!(fa.next_frame().is_none());
    assert!(fa.next_frame().is_none());
}

#[test]
fn empty_map_yields_nothing() {
    let mut fa = BootInfoFrameAllocator::init(Vec::new());
    assert!(fa.next_frame().is_none());
}

#[test]
fn reserved_only_map_yields_nothing() {
    let mut fa = BootInfoFrameAllocator::init(vec![
        region(0x0, 0x10000, false),
        region(0x20000, 0x30000, false),
    ]);
    assert!(fa.next_frame().is_none());
}

#[test]
fn unaligned_region_end_drops_partial_frame() {
    // [0x1000, 0x2FFF) holds one whole page only
    let mut fa = BootInfoFrameAllocator::init(vec![region(0x1000, 0x2FFF, true)]);
    assert_eq!(fa.next_frame().map(|f| f.start), Some(0x1000));
    assert!(fa.next_frame().is_none());
}
