use segmented_rs::list::{SegmentedIdx, SegmentedList, BLOCK_COUNT, MAX_LEN, START_SIZE};
use std::cell::RefCell;
use std::rc::Rc;

#[test]
fn push_and_get_basic() {
    let mut list = SegmentedList::new();

    list.push(42);
    list.push(100);
    list.push(7);

    assert_eq!(list.len(), 3);
    assert_eq!(list.get(0), Some(&42));
    assert_eq!(list.get(1), Some(&100));
    assert_eq!(list.get(2), Some(&7));
    assert_eq!(list.get(3), None); // out of bounds
}

#[test]
fn push_and_get_mut() {
    let mut list = SegmentedList::new();

    list.push(42);
    list.push(100);
    list.push(7);

    assert_eq!(list.len(), 3);
    assert_eq!(list.get(0), Some(&42));
    assert_eq!(list.get(1), Some(&100));
    assert_eq!(list.get(2), Some(&7));
    assert_eq!(list.get(3), None);
}

#[test]
fn get_mut_writes_through() {
    let mut list = SegmentedList::new();
    for i in 0..20 {
        list.push(i);
    }
    *list.get_mut(13).unwrap() = 99;
    assert_eq!(list.get(13), Some(&99));
    assert_eq!(list.get(12), Some(&12));
    assert_eq!(list.get(14), Some(&14));
    // out of range is a recoverable absence, exactly as for get
    assert!(list.get_mut(20).is_none());
    assert_eq!(list.len(), 20);
}

#[test]
fn into_vec_flattens_correctly() {
    let mut list = SegmentedList::new();

    for i in 0..20 {
        list.push(i);
    }

    let vec = list.to_vec();
    assert_eq!(vec.len(), 20);
    assert_eq!(vec, (0..20).collect::<Vec<_>>());
}

#[test]
fn index_trait_returns_correct_values() {
    let mut list = SegmentedList::new();
    for i in 0..10 {
        list.push(i * 2);
    }
    assert_eq!(*list.index(0), 0);
    assert_eq!(*list.index(1), 2);
    assert_eq!(*list.index(9), 18);
}

#[test]
fn index_mut_trait_returns_correct_values() {
    let mut list = SegmentedList::new();
    for i in 0..10 {
        list.push(i * 2);
    }

    assert_eq!(*list.index(0), 0);
    assert_eq!(*list.index(1), 2);
    assert_eq!(*list.index(9), 18);

    *list.index_mut(0) = 5;
    *list.index_mut(1) = 3;
    *list.index_mut(9) = 36;

    assert_eq!(*list.index(0), 5);
    assert_eq!(*list.index(1), 3);
    assert_eq!(*list.index(9), 36);
}

#[test]
#[should_panic(expected = "out of bounds")]
fn index_panics_on_invalid() {
    let mut list = SegmentedList::new();
    list.push(1);
    let _ = list.index(1); // index 1 invalid (len = 1)
}

#[test]
fn works_across_blocks() {
    let mut list = SegmentedList::new();

    // Fill more than START_SIZE to force allocation of next block(s)
    for i in 0..(START_SIZE + 5) {
        list.push(i);
    }

    let vec = list.to_vec();
    assert_eq!(vec, (0..(START_SIZE + 5)).collect::<Vec<_>>());
}

#[test]
fn empty_list_into_vec() {
    let list: SegmentedList<i32> = SegmentedList::new();
    let vec = list.to_vec();
    assert!(vec.is_empty());
}

#[test]
fn exact_block_boundaries() {
    let mut list = SegmentedList::new();
    let blocks_to_test: usize = 3;
    let mut total: usize = 0;
    for block_idx in 0..blocks_to_test {
        let size: usize = START_SIZE << block_idx;
        for i in 0..size {
            list.push(total + i);
        }
        total += size;
        assert_eq!(list.len(), total);
    }
    let vec = list.to_vec();
    assert_eq!(vec, (0..total).collect::<Vec<_>>());
}

// Counter for tracking drops
struct DropCounter<'a>(&'a RefCell<u32>);
impl<'a> Drop for DropCounter<'a> {
    fn drop(&mut self) {
        *self.0.borrow_mut() += 1;
    }
}

#[test]
fn drop_safety_test() {
    let counter = Rc::new(RefCell::new(0));
    {
        let mut list: SegmentedList<DropCounter> = SegmentedList::new();
        for _ in 0..50 {
            list.push(DropCounter(&counter));
        }
        // consuming the list should drop all elements exactly once
        list.to_vec();
    }
    assert_eq!(*counter.borrow(), 50);
}

#[test]
fn random_values_across_blocks() {
    let mut list = SegmentedList::new();
    // Push sparse and varied values
    for i in (0..(START_SIZE * 5)).rev() {
        // reverse order for variety
        list.push(i * 3);
    }
    let vec = list.to_vec();
    for (idx, val) in vec.iter().enumerate() {
        assert_eq!(*val, (START_SIZE * 5 - 1 - idx) * 3);
    }
}

#[test]
fn stress_test_large_fill() {
    let mut list = SegmentedList::new();
    let count: usize = START_SIZE * 50; // large, spans many blocks
    for i in 0..count {
        list.push(i);
    }
    let vec = list.to_vec();
    assert_eq!(vec.len(), count);
    assert_eq!(vec[count - 1], count - 1);
    assert_eq!(vec[0], 0);
}

#[test]
fn capacity_and_is_empty_work() {
    let mut list = SegmentedList::new();
    assert_eq!(list.capacity(), 8);
    assert!(list.is_empty());

    list.push(10);
    assert!(!list.is_empty());
    assert!(list.capacity() >= 1);
}

#[test]
fn first_and_last_work() {
    let mut list = SegmentedList::new();
    assert!(list.first().is_none());
    assert!(list.last().is_none());

    list.push(1);
    list.push(2);
    list.push(3);
    assert_eq!(list.len(), 3);

    assert_eq!(list.first(), Some(&1));
    assert_eq!(list.last(), Some(&3));

    *list.first_mut().unwrap() = 10;
    *list.last_mut().unwrap() = 30;

    assert_eq!(list.first(), Some(&10));
    assert_eq!(*list.index(1), 2);
    assert_eq!(list.last(), Some(&30));
}

#[test]
fn clear_resets_len_and_drops_items() {
    let counter = Rc::new(RefCell::new(0));
    let mut list: SegmentedList<DropCounter> = SegmentedList::new();

    for _ in 0..10 {
        list.push(DropCounter(&counter));
    }
    assert_eq!(list.len(), 10);
    list.clear();
    assert_eq!(list.len(), 0);
    assert_eq!(*counter.borrow(), 10);
    assert!(list.is_empty());
}

#[test]
fn values_stay_put_across_growth() {
    let mut list = SegmentedList::new();
    for i in 0..10 {
        list.push(i);
    }
    // many more pushes, spanning several new blocks
    for i in 10..5000 {
        list.push(i);
    }
    // nothing that was already stored moved or changed
    for i in 0..5000 {
        assert_eq!(list.get(i), Some(&i));
    }
}

#[test]
fn clear_keeps_capacity() {
    let mut list = SegmentedList::new();
    for i in 0..100 {
        list.push(i);
    }
    let cap_before: usize = list.capacity();
    list.clear();
    assert_eq!(list.len(), 0);
    assert_eq!(list.capacity(), cap_before);
    // the retained blocks are reused by later pushes
    for i in 0..100 {
        list.push(i + 1000);
    }
    assert_eq!(list.capacity(), cap_before);
    assert_eq!(list.get(99), Some(&1099));
}

#[test]
fn extend_trait_adds_items() {
    let mut list = SegmentedList::new();
    list.extend(vec![1, 2, 3]);
    assert_eq!(list.len(), 3);
    assert_eq!(list.to_vec(), vec![1, 2, 3]);
}

#[test]
fn from_iterator_constructs_list() {
    let list: SegmentedList<_> = SegmentedList::from_vec((0..5).collect());
    assert_eq!(list.len(), 5);
    assert_eq!(list.to_vec(), (0..5).collect::<Vec<_>>());
}

#[test]
fn clone_is_a_deep_copy() {
    let mut list = SegmentedList::new();
    for i in 0..30 {
        list.push(i);
    }
    let mut copy = list.clone();
    assert_eq!(copy.len(), 30);
    *copy.index_mut(7) = 700;
    // the original is untouched by writes to the clone
    assert_eq!(*list.index(7), 7);
    assert_eq!(*copy.index(7), 700);
    assert_eq!(list.to_vec(), (0..30).collect::<Vec<_>>());
}

#[test]
fn cached_index_reads_and_writes() {
    let mut list = SegmentedList::new();
    for i in 0..40 {
        list.push(i);
    }
    let si: SegmentedIdx = list.compute_segmented_idx(25).expect("in bounds");
    assert_eq!(list.get_with_segmented_idx(si), Some(&25));
    *list.get_mut_with_segmented_idx(si).unwrap() = 250;
    assert_eq!(list.get(25), Some(&250));

    // an index one past the end is accepted, larger ones are not
    assert!(list.compute_segmented_idx(40).is_some());
    assert!(list.compute_segmented_idx(41).is_none());
}

#[test]
fn cached_index_dies_with_clear() {
    let mut list = SegmentedList::new();
    for i in 0..10 {
        list.push(i);
    }
    let si: SegmentedIdx = list.compute_segmented_idx(9).expect("in bounds");
    list.clear();
    // the slot the pair pointed at is gone, for reads and writes alike
    assert!(list.get_with_segmented_idx(si).is_none());
    assert!(list.get_mut_with_segmented_idx(si).is_none());
}

#[test]
fn ninth_push_opens_second_block() {
    let mut list = SegmentedList::new();
    for i in 0..START_SIZE {
        list.push(i);
    }
    // exactly one block of capacity START_SIZE
    assert_eq!(list.capacity(), START_SIZE);
    list.push(START_SIZE);
    // the ninth element opened a second block of twice the capacity
    assert_eq!(list.capacity(), START_SIZE + 2 * START_SIZE);
    let si = list.compute_segmented_idx(START_SIZE).expect("in bounds");
    assert_eq!(si.0, 1);
    assert_eq!(si.1, 0);
    assert_eq!(list.get(START_SIZE), Some(&START_SIZE));
}

#[test]
fn index_mapping_reconstructs_indices() {
    let mut list = SegmentedList::new();
    let count: usize = 600;
    for i in 0..count {
        list.push(i);
    }
    for idx in 0..count {
        let si = list.compute_segmented_idx(idx).expect("in bounds");
        assert!(si.0 < BLOCK_COUNT);
        let block_start: usize = START_SIZE * ((1usize << si.0) - 1);
        assert_eq!(block_start + si.1, idx);
        assert!(si.1 < START_SIZE * (1usize << si.0));
    }
}

#[test]
fn capacity_matches_closed_form() {
    let mut list = SegmentedList::new();
    // block b holds START_SIZE << b elements; after filling blocks 0..=2
    // the capacity is the geometric sum START_SIZE * (2^3 - 1)
    for i in 0..(8 + 16 + 32) {
        list.push(i);
    }
    assert_eq!(list.capacity(), START_SIZE * ((1usize << 3) - 1));
    list.push(0);
    assert_eq!(list.capacity(), START_SIZE * ((1usize << 4) - 1));
}

#[test]
fn max_len_is_the_block_table_limit() {
    assert_eq!(MAX_LEN, START_SIZE * ((1usize << BLOCK_COUNT) - 1));
}
