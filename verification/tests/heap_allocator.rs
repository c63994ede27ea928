use big_iron::heap::{AllocError, Heap, MIN_BLOCK_SIZE};

const START: u64 = 0x4444_4444_0000;
const PAGE: u64 = 4096;

#[test]
fn alignment_guarantee_up_to_page_size() {
    let mut align: u64 = 1;
    while align <= PAGE {
        let mut heap = Heap::new(START, PAGE);
        let r = heap.allocate(10, align);
        let p = r.expect("a fresh page-sized heap serves a 10-byte request");
        assert_eq!(p % align, 0);
        align *= 2;
    }
}

#[test]
fn exhaustion_on_oversized_request() {
    let mut heap = Heap::new(START, PAGE);
    assert_eq!(heap.allocate(PAGE + 1, 1), Err(AllocError::HeapExhausted));
}

#[test]
fn zero_size_requests_always_succeed() {
    let mut heap = Heap::new(START, PAGE);
    let p = heap.allocate(0, 16).expect("zero-size requests cannot fail");
    assert_eq!(p % 16, 0);
    // deallocating a zero-size allocation is a safe no-op
    heap.deallocate(p, 0, 16);
    // the whole page is still there
    assert!(heap.allocate(PAGE, 1).is_ok());
}

#[test]
fn first_fit_takes_the_block_front() {
    let mut heap = Heap::new(START, PAGE);
    assert_eq!(heap.allocate(100, 1), Ok(START));
    assert_eq!(heap.allocate(100, 1), Ok(START + 100));
}

#[test]
fn small_remainder_is_consumed_as_padding() {
    let mut heap = Heap::new(START, PAGE);
    // leaves an 8-byte tail, below the minimum block size: consumed
    assert_eq!(heap.allocate(PAGE - 8, 1), Ok(START));
    assert_eq!(heap.allocate(1, 1), Err(AllocError::HeapExhausted));
}

#[test]
fn tiny_requests_occupy_a_minimum_block() {
    let mut heap = Heap::new(START, PAGE);
    assert_eq!(heap.allocate(1, 1), Ok(START));
    // the next block begins one minimum block later
    assert_eq!(heap.allocate(1, 1), Ok(START + MIN_BLOCK_SIZE));
}

#[test]
fn free_then_reuse_succeeds_without_new_memory() {
    let mut heap = Heap::new(START, PAGE);
    let a = heap.allocate(64, 8).expect("first allocation fits");
    heap.deallocate(a, 64, 8);
    // a smaller request with a compatible alignment reuses the freed block
    let b = heap.allocate(48, 8).expect("the freed block serves the request");
    assert_eq!(b, a);
}

#[test]
fn live_allocations_never_overlap() {
    let mut heap = Heap::new(START, 4 * PAGE);
    let mut live: Vec<(u64, u64)> = Vec::new();
    let sizes = [100u64, 1, 4096, 32, 17, 256];
    let aligns = [1u64, 8, 4096, 2, 16, 64];
    for k in 0..sizes.len() {
        let p = heap.allocate(sizes[k], aligns[k]).expect("the heap has room");
        live.push((p, sizes[k]));
    }
    // drop two, allocate two more
    let (p0, s0) = live.remove(0);
    heap.deallocate(p0, s0, 1);
    let (p2, s2) = live.remove(1);
    heap.deallocate(p2, s2, 4096);
    for k in 0..2 {
        let size = 40 + 24 * k as u64;
        let p = heap.allocate(size, 4).expect("the heap has room");
        live.push((p, size));
    }
    for i in 0..live.len() {
        for j in 0..live.len() {
            if i != j {
                let (a, sa) = live[i];
                let (b, sb) = live[j];
                assert!(a + sa <= b || b + sb <= a, "live allocations overlap");
            }
        }
    }
}

#[test]
fn linear_growth_of_a_buffer() {
    // a 100-page heap backs a growable buffer of 500 integers
    let mut heap = Heap::new(START, 100 * PAGE);
    let mut cap: u64 = 4;
    let mut ptr = heap.allocate(cap * 8, 8).expect("no allocation failure");
    let mut len: u64 = 0;
    for _ in 0..500u64 {
        if len == cap {
            let next = heap.allocate(cap * 2 * 8, 8).expect("no allocation failure");
            heap.deallocate(ptr, cap * 8, 8);
            ptr = next;
            cap *= 2;
        }
        len += 1;
    }
    assert_eq!(len, 500);
    // the final backing allocation is one contiguous block, correctly
    // sized for 500 elements
    assert_eq!(cap, 512);
    assert!(cap * 8 >= 500 * 8);
    assert_eq!(ptr % 8, 0);
}
