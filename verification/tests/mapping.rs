use big_iron::frames::{BootInfoFrameAllocator, MemoryRegion};
use big_iron::heap::{init_heap, AllocError};
use big_iron::paging::{MapError, Mapper, PageFlags, VirtualPage};

fn source(start: u64, end: u64) -> BootInfoFrameAllocator {
    BootInfoFrameAllocator::init(vec![MemoryRegion { start, end, usable: true }])
}

const PHYS_OFFSET: u64 = 0x6000_0000_0000;
const ROOT: u64 = 0x1000;
const WRITABLE: PageFlags = PageFlags { writable: true, no_exec: false };

#[test]
fn mapping_round_trip_through_lookup() {
    let mut fs = source(0x10_0000, 0x20_0000);
    let mut mapper = Mapper::init(PHYS_OFFSET, ROOT);
    let page = VirtualPage { addr: 0x4000_0000 };
    assert!(mapper.lookup(page).is_none());

    let frame = fs.next_frame().expect("the source has frames");
    assert_eq!(mapper.map_page(page, frame, WRITABLE, &mut fs), Ok(()));
    assert_eq!(mapper.lookup(page), Some((frame.start, WRITABLE)));

    // neighbouring pages are untouched
    assert!(mapper.lookup(VirtualPage { addr: 0x4000_1000 }).is_none());
    assert!(mapper.lookup(VirtualPage { addr: 0x3FFF_F000 }).is_none());
}

#[test]
fn mapping_refuses_silent_overwrite() {
    let mut fs = source(0x10_0000, 0x20_0000);
    let mut mapper = Mapper::init(PHYS_OFFSET, ROOT);
    let page = VirtualPage { addr: 0x4444_4444_0000 };
    let first = fs.next_frame().expect("the source has frames");
    assert_eq!(mapper.map_page(page, first, WRITABLE, &mut fs), Ok(()));

    let second = fs.next_frame().expect("the source has frames");
    let again = mapper.map_page(
        page,
        second,
        PageFlags { writable: false, no_exec: true },
        &mut fs,
    );
    assert_eq!(again, Err(MapError::PageAlreadyMapped));
    // the original mapping is intact
    assert_eq!(mapper.lookup(page), Some((first.start, WRITABLE)));
}

#[test]
fn frame_exhaustion_mid_walk() {
    // exactly one frame: consumed as the data frame, none left for tables
    let mut fs = source(0x1000, 0x2000);
    let mut mapper = Mapper::init(PHYS_OFFSET, ROOT);
    let frame = fs.next_frame().expect("one frame exists");
    let r = mapper.map_page(VirtualPage { addr: 0x4000_0000 }, frame, WRITABLE, &mut fs);
    assert_eq!(r, Err(MapError::FrameAllocationFailed));
}

#[test]
fn heap_of_one_page_rejects_oversized_request() {
    let mut fs = source(0x10_0000, 0x20_0000);
    let mut mapper = Mapper::init(PHYS_OFFSET, ROOT);
    let heap_start: u64 = 0x4444_4444_0000;
    let mut heap =
        init_heap(&mut mapper, &mut fs, heap_start, 4096).expect("heap initialization succeeds");
    // the one heap page is mapped writable
    let got = mapper.lookup(VirtualPage { addr: heap_start });
    assert!(got.is_some());
    assert_eq!(got.unwrap().1, WRITABLE);
    // a request larger than the heap fails cleanly
    assert_eq!(heap.allocate(4097, 1), Err(AllocError::HeapExhausted));
    // and the heap still serves what fits
    assert_eq!(heap.allocate(64, 8), Ok(heap_start));
}

#[test]
fn init_heap_maps_every_page() {
    let mut fs = source(0x10_0000, 0x80_0000);
    let mut mapper = Mapper::init(PHYS_OFFSET, ROOT);
    let heap_start: u64 = 0x4444_4444_0000;
    let pages: u64 = 100;
    let _heap = init_heap(&mut mapper, &mut fs, heap_start, pages * 4096)
        .expect("heap initialization succeeds");
    let mut i: u64 = 0;
    while i < pages {
        let got = mapper.lookup(VirtualPage { addr: heap_start + i * 4096 });
        assert!(got.is_some());
        assert_eq!(got.unwrap().1, WRITABLE);
        i += 1;
    }
    // the page after the heap is not mapped
    assert!(mapper.lookup(VirtualPage { addr: heap_start + pages * 4096 }).is_none());
}

#[test]
fn init_heap_propagates_already_mapped() {
    let mut fs = source(0x10_0000, 0x80_0000);
    let mut mapper = Mapper::init(PHYS_OFFSET, ROOT);
    let heap_start: u64 = 0x4444_4444_0000;
    let frame = fs.next_frame().expect("the source has frames");
    // a page in the middle of the range is already taken
    assert_eq!(
        mapper.map_page(VirtualPage { addr: heap_start + 4096 }, frame, WRITABLE, &mut fs),
        Ok(())
    );
    let r = init_heap(&mut mapper, &mut fs, heap_start, 10 * 4096);
    assert!(matches!(r, Err(MapError::PageAlreadyMapped)));
}

#[test]
fn init_heap_propagates_frame_exhaustion() {
    // two frames cannot back a 100-page heap
    let mut fs = source(0x1000, 0x3000);
    let mut mapper = Mapper::init(PHYS_OFFSET, ROOT);
    let r = init_heap(&mut mapper, &mut fs, 0x4444_4444_0000, 100 * 4096);
    assert!(matches!(r, Err(MapError::FrameAllocationFailed)));
}
