use big_iron::heap::Heap;
use big_iron::rc::{rc_allocate, rc_clone, rc_release};

const START: u64 = 0x4444_4444_0000;

#[test]
fn shared_ownership_scenario() {
    let mut heap = Heap::new(START, 4096);

    // one block, count 1
    let mut rc = rc_allocate(&mut heap, 128, 8).expect("the heap has room");
    assert_eq!(rc.count, 1);
    assert_eq!(rc.addr % 8, 0);

    // clone the handle: count 2
    rc_clone(&mut rc);
    assert_eq!(rc.count, 2);

    // drop the original: count 1, allocation still live
    let freed = rc_release(&mut heap, &mut rc);
    assert!(!freed);
    assert_eq!(rc.count, 1);

    // the allocator does not hand the block's bytes to anyone else
    let other = heap.allocate(64, 8).expect("the heap has room");
    assert!(other + 64 <= rc.addr || rc.addr + 128 <= other);

    // drop the last handle: the block returns to the free pool
    let freed = rc_release(&mut heap, &mut rc);
    assert!(freed);
    assert_eq!(rc.count, 0);

    // the very next fitting request reuses the returned block
    let reused = heap.allocate(128, 8).expect("the freed block serves it");
    assert_eq!(reused, rc.addr);
}

#[test]
fn rc_allocation_reports_exhaustion() {
    let mut heap = Heap::new(START, 4096);
    let r = rc_allocate(&mut heap, 8192, 8);
    assert!(r.is_err());
}
