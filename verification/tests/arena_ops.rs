use segmented_rs::arena::{SegmentedAlloc, MAX_BLOCKS, MIN_SIZE};

/// The model address of an allocation: block bases laid end to end, as the
/// arena's contracts define them.
fn model_addr(block: usize, offset: usize) -> usize {
    MIN_SIZE * ((1usize << block) - 1) + offset
}

#[test]
fn alloc_min_size() {
    let mut alloc = SegmentedAlloc::new();
    let (block, offset) = alloc.request(8, 8);
    assert!(alloc.mapped_blocks() > 0 && block < alloc.mapped_blocks());
    assert_eq!(offset % 8, 0);
}

#[test]
fn alloc_multiple_blocks() {
    let mut alloc = SegmentedAlloc::new();
    let (block1, _) = alloc.request(4096, 8);
    assert!(block1 < alloc.mapped_blocks());
    for _ in 0..(MIN_SIZE / 8) {
        alloc.request(8, 8);
    }
    let (block2, offset2) = alloc.request(8, 8);
    assert!(block2 < alloc.mapped_blocks() && offset2 % 8 == 0);
}

#[test]
fn allocations_do_not_overlap() {
    let mut alloc = SegmentedAlloc::new();
    let p1 = alloc.request(16, 8);
    let p2 = alloc.request(16, 8);
    assert!(p1 != p2);
}

#[test]
fn allocation_alignment_respected() {
    let mut alloc = SegmentedAlloc::new();
    let (_, offset) = alloc.request(32, 32);
    assert_eq!(offset % 32, 0);
}

#[test]
fn stress_many_allocations() {
    let mut alloc = SegmentedAlloc::new();
    for size in [8usize, 16, 64, 128, 256, 1024, 2048] {
        for _ in 0..1000 {
            let _ = alloc.request(size, 8);
        }
    }
}

#[test]
fn allocate_a_gigabyte() {
    let mut alloc = SegmentedAlloc::new();
    let gig: usize = 1024 * 1024 * 1024;
    let chunk: usize = 4096;
    let chunks = gig / chunk;

    for _ in 0..chunks {
        let (block, offset) = alloc.request(chunk, 8);
        assert!(block < MAX_BLOCKS && offset % 8 == 0);
    }
}

#[test]
fn allocate_ten_gigabyte() {
    let mut alloc = SegmentedAlloc::new();
    let gig: usize = 10 * 1024 * 1024 * 1024;
    let chunk: usize = 4096;
    let chunks = gig / chunk;

    for _ in 0..chunks {
        let (block, offset) = alloc.request(chunk, 8);
        assert!(block < MAX_BLOCKS && offset % 8 == 0);
    }
}

#[test]
fn first_request_maps_the_initial_block() {
    let mut alloc = SegmentedAlloc::new();
    assert_eq!(alloc.mapped_blocks(), 0);
    let (block, offset) = alloc.request(100, 8);
    assert_eq!((block, offset), (0, 0));
    assert_eq!(alloc.mapped_blocks(), 1);
    assert_eq!(alloc.block_size(0), MIN_SIZE);
    assert_eq!(alloc.position(), 100);
}

#[test]
fn oversized_request_grows_before_serving() {
    // a 5000-byte request cannot live in the fresh 4096-byte block, so an
    // 8192-byte block is mapped and the request is served whole from its
    // start
    let mut alloc = SegmentedAlloc::new();
    let (block, offset) = alloc.request(5000, 8);
    assert_eq!((block, offset), (1, 0));
    assert_eq!(alloc.mapped_blocks(), 2);
    assert_eq!(alloc.block_size(0), 4096);
    assert_eq!(alloc.block_size(1), 8192);
    assert_eq!(alloc.position(), 5000);
}

#[test]
fn growth_doubles_every_block() {
    let mut alloc = SegmentedAlloc::new();
    // push the arena through several growth steps
    for _ in 0..100 {
        alloc.request(2048, 8);
    }
    let mapped = alloc.mapped_blocks();
    assert!(mapped >= 3);
    assert_eq!(alloc.block_size(0), MIN_SIZE);
    for i in 1..mapped {
        assert_eq!(alloc.block_size(i), 2 * alloc.block_size(i - 1));
    }
}

#[test]
fn request_never_splits_across_blocks() {
    let mut alloc = SegmentedAlloc::new();
    let mut spans: Vec<(usize, usize, usize)> = Vec::new();
    for (i, size) in [100usize, 3000, 2000, 50, 4096, 8, 10000, 1]
        .into_iter()
        .enumerate()
    {
        let align: usize = 1usize << (i % 5);
        let (block, offset) = alloc.request(size, align);
        assert_eq!(offset % align, 0);
        // the whole span lies inside one block
        assert!(offset + size <= alloc.block_size(block));
        spans.push((block, offset, size));
    }
    // pairwise disjoint in the model address space
    for i in 0..spans.len() {
        for j in 0..spans.len() {
            if i != j {
                let (bi, oi, si) = spans[i];
                let (bj, oj, sj) = spans[j];
                let (ai, aj) = (model_addr(bi, oi), model_addr(bj, oj));
                assert!(ai + si <= aj || aj + sj <= ai);
            }
        }
    }
}

#[test]
fn exhausted_blocks_are_abandoned() {
    let mut alloc = SegmentedAlloc::new();
    alloc.request(4000, 8);
    // 200 bytes would fit the 96-byte tail of block 0 only by splitting:
    // the arena grows instead and serves from the new block's start
    let (block, offset) = alloc.request(200, 8);
    assert_eq!((block, offset), (1, 0));
    // and the tail of block 0 is never carved again
    let (block2, offset2) = alloc.request(8, 8);
    assert_eq!((block2, offset2), (1, 200));
}

#[test]
fn try_request_refuses_what_request_excludes() {
    let mut alloc = SegmentedAlloc::new();
    // a zero-size or zero-alignment request is invalid, not served
    assert_eq!(alloc.try_request(0, 8), None);
    assert_eq!(alloc.try_request(8, 0), None);
    // a request no block under the ceiling can hold is refused untouched
    assert_eq!(alloc.try_request(usize::MAX, 8), None);
    assert_eq!(alloc.mapped_blocks(), 0);
    // a serviceable one is served exactly as request serves it
    assert_eq!(alloc.try_request(5000, 8), Some((1, 0)));
    assert_eq!(alloc.mapped_blocks(), 2);
    assert_eq!(alloc.position(), 5000);
}

#[test]
fn free_releases_every_block_at_once() {
    let mut alloc = SegmentedAlloc::new();
    for _ in 0..10 {
        alloc.request(1000, 8);
    }
    assert!(alloc.mapped_blocks() >= 2);
    alloc.free();
    assert_eq!(alloc.mapped_blocks(), 0);
    assert_eq!(alloc.position(), 0);
    // the arena is usable again from scratch
    let (block, offset) = alloc.request(8, 8);
    assert_eq!((block, offset), (0, 0));
}
