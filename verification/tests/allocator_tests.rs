use allocator::allocator::{Allocator, ALIGN};
use allocator::block::HEADER_SIZE;

fn live_ranges(allocator: &Allocator, pointers: &[usize]) -> Vec<(usize, usize)> {
    let mut ranges = Vec::new();
    for &p in pointers {
        let size = allocator.payload_size(p).unwrap();
        ranges.push((p, p + size));
    }
    ranges
}

fn assert_disjoint(ranges: &[(usize, usize)]) {
    for i in 0..ranges.len() {
        for j in 0..ranges.len() {
            if i != j {
                let (a_start, a_end) = ranges[i];
                let (b_start, b_end) = ranges[j];
                assert!(a_end <= b_start || b_end <= a_start);
            }
        }
    }
}

fn assert_free_list_ascending(allocator: &Allocator) {
    let list = allocator.free_blocks();
    for k in 1..list.len() {
        assert!(list[k - 1].0 < list[k].0);
        // no two free blocks are adjacent
        assert!(list[k - 1].0 + HEADER_SIZE + list[k - 1].1 < list[k].0);
    }
}

#[test]
fn first_allocation_sits_behind_first_descriptor() {
    let mut allocator = Allocator::new(1024);
    assert_eq!(allocator.allocate(16), Some(24));
    // 16 + 24 rounded to words is 40: the remainder starts there
    assert_eq!(allocator.free_blocks(), vec![(40, 1024 - 40 - 24)]);
    assert_eq!(allocator.payload_size(24), Some(16));
}

#[test]
fn second_allocation_follows_first() {
    let mut allocator = Allocator::new(1024);
    assert_eq!(allocator.allocate(16), Some(24));
    assert_eq!(allocator.allocate(16), Some(64));
    assert_eq!(allocator.free_blocks(), vec![(80, 1024 - 80 - 24)]);
}

#[test]
fn request_is_rounded_up_to_words() {
    let mut allocator = Allocator::new(1024);
    let p = allocator.allocate(1).unwrap();
    assert_eq!(p, 24);
    // 1 + 24 = 25 rounds up to 32, leaving 8 bytes of payload
    assert_eq!(allocator.payload_size(p), Some(8));
    assert_eq!(allocator.free_blocks(), vec![(32, 1024 - 32 - 24)]);
}

#[test]
fn zero_sized_request_takes_a_bare_descriptor() {
    let mut allocator = Allocator::new(1024);
    let p = allocator.allocate(0).unwrap();
    assert_eq!(p, 24);
    assert_eq!(allocator.payload_size(p), Some(0));
    assert_eq!(allocator.free_blocks(), vec![(24, 1024 - 24 - 24)]);
}

#[test]
fn remainder_of_descriptor_and_word_is_not_split_off() {
    // span 72, needed 40: the remainder is exactly 32 and goes to the caller
    let mut allocator = Allocator::new(72);
    let p = allocator.allocate(16).unwrap();
    assert_eq!(p, 24);
    assert_eq!(allocator.payload_size(p), Some(48));
    assert_eq!(allocator.free_blocks(), vec![]);
    assert_eq!(allocator.allocate(0), None);
    allocator.free(p);
    assert_eq!(allocator.free_blocks(), vec![(0, 48)]);
}

#[test]
fn remainder_above_threshold_is_split_off() {
    // span 80, needed 40: the remainder is 40 and stays free
    let mut allocator = Allocator::new(80);
    let p = allocator.allocate(16).unwrap();
    assert_eq!(allocator.payload_size(p), Some(16));
    assert_eq!(allocator.free_blocks(), vec![(40, 16)]);
}

#[test]
fn request_filling_the_arena_exactly_succeeds() {
    let mut allocator = Allocator::new(1024);
    assert_eq!(allocator.allocate(1000), Some(24));
    assert_eq!(allocator.free_blocks(), vec![]);
    assert_eq!(allocator.allocate(1), None);
}

#[test]
fn request_one_byte_over_the_arena_fails() {
    let mut allocator = Allocator::new(1024);
    assert_eq!(allocator.allocate(1001), None);
}

#[test]
fn request_is_rounded_before_it_is_fitted() {
    // the only block spans 1021 bytes; 997 + 24 rounds up to 1024
    let mut allocator = Allocator::new(1021);
    assert_eq!(allocator.allocate(997), None);
    assert_eq!(allocator.allocate(992), Some(24));
}

#[test]
fn huge_request_finds_no_fit() {
    let mut allocator = Allocator::new(1024);
    assert_eq!(allocator.allocate(usize::MAX), None);
    assert_eq!(allocator.allocate(usize::MAX - 24), None);
    assert_eq!(allocator.allocate(usize::MAX - 32), None);
    assert_eq!(allocator.free_blocks(), vec![(0, 1000)]);
}

#[test]
fn exhaustion_returns_none_and_changes_nothing() {
    let mut allocator = Allocator::new(256);
    let mut pointers = Vec::new();
    while let Some(p) = allocator.allocate(16) {
        pointers.push(p);
    }
    assert_eq!(pointers, vec![24, 64, 104, 144, 184, 224]);
    let before = allocator.free_blocks();
    assert_eq!(allocator.allocate(16), None);
    assert_eq!(allocator.free_blocks(), before);
    for &p in &pointers {
        assert!(allocator.payload_size(p).is_some());
    }
}

#[test]
fn returned_pointers_are_word_aligned() {
    let mut allocator = Allocator::new(4096);
    for size in [0usize, 1, 7, 8, 9, 15, 16, 17, 31, 100, 255] {
        let p = allocator.allocate(size).unwrap();
        assert_eq!(p % ALIGN, 0);
        assert!(allocator.payload_size(p).unwrap() >= size);
    }
}

#[test]
fn pointers_stay_aligned_in_an_odd_sized_arena() {
    let mut allocator = Allocator::new(1021);
    for size in [3usize, 5, 11, 13] {
        let p = allocator.allocate(size).unwrap();
        assert_eq!(p % ALIGN, 0);
    }
}

#[test]
fn live_payloads_never_overlap() {
    let mut allocator = Allocator::new(2048);
    let mut live: Vec<usize> = Vec::new();
    for size in [16usize, 40, 8, 100, 24] {
        live.push(allocator.allocate(size).unwrap());
        assert_disjoint(&live_ranges(&allocator, &live));
    }
    let released = live.remove(1);
    allocator.free(released);
    assert_disjoint(&live_ranges(&allocator, &live));
    let released = live.remove(2);
    allocator.free(released);
    assert_disjoint(&live_ranges(&allocator, &live));
    for size in [30usize, 90, 12] {
        live.push(allocator.allocate(size).unwrap());
        assert_disjoint(&live_ranges(&allocator, &live));
    }
    for (start, end) in live_ranges(&allocator, &live) {
        assert!(start >= HEADER_SIZE && end <= 2048);
    }
}

#[test]
fn free_list_is_ascending_and_holds_exactly_the_free_blocks() {
    let mut allocator = Allocator::new(1024);
    let a = allocator.allocate(16).unwrap();
    let b = allocator.allocate(16).unwrap();
    let c = allocator.allocate(16).unwrap();
    let d = allocator.allocate(16).unwrap();
    let e = allocator.allocate(16).unwrap();
    assert_eq!((a, b, c, d, e), (24, 64, 104, 144, 184));
    // released out of address order, none adjacent to another free block
    allocator.free(d);
    assert_eq!(allocator.free_blocks(), vec![(120, 16), (200, 800)]);
    allocator.free(b);
    assert_eq!(allocator.free_blocks(), vec![(40, 16), (120, 16), (200, 800)]);
    assert_free_list_ascending(&allocator);
    for p in [a, c, e] {
        assert_eq!(allocator.payload_size(p), Some(16));
    }
    for p in [b, d] {
        assert_eq!(allocator.payload_size(p), None);
    }
}

#[test]
fn release_merges_with_following_free_block() {
    let mut allocator = Allocator::new(1024);
    let a = allocator.allocate(16).unwrap();
    let b = allocator.allocate(16).unwrap();
    let _c = allocator.allocate(16).unwrap();
    allocator.free(b);
    allocator.free(a);
    // a and b merged: 16 + 24 + 16
    assert_eq!(allocator.free_blocks(), vec![(0, 56), (120, 880)]);
}

#[test]
fn release_merges_with_preceding_free_block() {
    let mut allocator = Allocator::new(1024);
    let a = allocator.allocate(16).unwrap();
    let b = allocator.allocate(16).unwrap();
    let _c = allocator.allocate(16).unwrap();
    allocator.free(a);
    allocator.free(b);
    assert_eq!(allocator.free_blocks(), vec![(0, 56), (120, 880)]);
}

#[test]
fn release_merges_on_both_sides() {
    let mut allocator = Allocator::new(1024);
    let a = allocator.allocate(16).unwrap();
    let b = allocator.allocate(16).unwrap();
    let c = allocator.allocate(16).unwrap();
    let _d = allocator.allocate(16).unwrap();
    allocator.free(a);
    allocator.free(c);
    assert_eq!(allocator.free_blocks(), vec![(0, 16), (80, 16), (160, 840)]);
    allocator.free(b);
    assert_eq!(allocator.free_blocks(), vec![(0, 96), (160, 840)]);
}

#[test]
fn releasing_everything_in_any_order_restores_the_arena() {
    let orders: [[usize; 4]; 6] = [
        [0, 1, 2, 3],
        [3, 2, 1, 0],
        [1, 3, 0, 2],
        [2, 0, 3, 1],
        [0, 2, 1, 3],
        [3, 0, 2, 1],
    ];
    for order in orders {
        let mut allocator = Allocator::new(1024);
        let pointers: Vec<usize> =
            [16usize, 100, 1, 64].iter().map(|&size| allocator.allocate(size).unwrap()).collect();
        for index in order {
            allocator.free(pointers[index]);
            assert_free_list_ascending(&allocator);
        }
        assert_eq!(allocator.free_blocks(), vec![(0, 1024 - HEADER_SIZE)]);
    }
}

#[test]
fn releasing_everything_restores_an_odd_sized_arena() {
    let mut allocator = Allocator::new(1021);
    let a = allocator.allocate(10).unwrap();
    let b = allocator.allocate(20).unwrap();
    allocator.free(a);
    allocator.free(b);
    assert_eq!(allocator.free_blocks(), vec![(0, 1021 - HEADER_SIZE)]);
}

#[test]
fn smaller_request_reuses_released_block() {
    let mut allocator = Allocator::new(1024);
    let a = allocator.allocate(64).unwrap();
    let _b = allocator.allocate(16).unwrap();
    allocator.free(a);
    assert_eq!(allocator.allocate(8), Some(a));
    // the rest of the released block stays free in front of the second block
    assert_eq!(allocator.free_blocks(), vec![(32, 32), (128, 872)]);
}

#[test]
fn first_fit_prefers_the_lowest_fitting_address() {
    let mut allocator = Allocator::new(1024);
    let a = allocator.allocate(16).unwrap();
    let _b = allocator.allocate(16).unwrap();
    let c = allocator.allocate(64).unwrap();
    let _d = allocator.allocate(16).unwrap();
    allocator.free(a);
    allocator.free(c);
    // the block at a is too small for 40 bytes, the one at c is not
    assert_eq!(allocator.allocate(40), Some(c));
    // both fit 16 bytes: the lower one is taken
    assert_eq!(allocator.allocate(16), Some(a));
}

#[test]
fn released_block_behind_a_free_block_is_not_returned_itself() {
    let mut allocator = Allocator::new(1024);
    let a = allocator.allocate(16).unwrap();
    let b = allocator.allocate(16).unwrap();
    let _c = allocator.allocate(16).unwrap();
    allocator.free(a);
    allocator.free(b);
    // b was merged into the free block in front of it, which starts at a
    assert_eq!(allocator.allocate(16), Some(a));
}

#[test]
fn payload_size_tells_live_pointers_from_others() {
    let mut allocator = Allocator::new(1024);
    let a = allocator.allocate(16).unwrap();
    assert_eq!(allocator.payload_size(a), Some(16));
    assert_eq!(allocator.payload_size(0), None);
    assert_eq!(allocator.payload_size(a + 8), None);
    assert_eq!(allocator.payload_size(64), None);
    assert_eq!(allocator.payload_size(5000), None);
    assert_eq!(allocator.payload_size(usize::MAX), None);
    allocator.free(a);
    assert_eq!(allocator.payload_size(a), None);
}

#[test]
fn payloads_keep_their_contents() {
    let mut allocator = Allocator::new(1024);
    let a = allocator.allocate(16).unwrap();
    let b = allocator.allocate(16).unwrap();
    let c = allocator.allocate(16).unwrap();
    for offset in 0..16 {
        allocator.write(a, offset, 0xA0 + offset as u8);
        allocator.write(c, offset, 0xC0 + offset as u8);
    }
    allocator.free(b);
    let d = allocator.allocate(4).unwrap();
    allocator.write(d, 0, 0xFF);
    allocator.free(d);
    let _e = allocator.allocate(200).unwrap();
    for offset in 0..16 {
        assert_eq!(allocator.read(a, offset), 0xA0 + offset as u8);
        assert_eq!(allocator.read(c, offset), 0xC0 + offset as u8);
    }
}

#[test]
fn fresh_payload_of_a_fresh_arena_is_zeroed() {
    let mut allocator = Allocator::new(128);
    let a = allocator.allocate(32).unwrap();
    for offset in 0..32 {
        assert_eq!(allocator.read(a, offset), 0);
    }
}

#[test]
fn round_to_aligned_gives_next_multiple() {
    assert_eq!(Allocator::round_to_aligned(0, 8), 0);
    assert_eq!(Allocator::round_to_aligned(1, 8), 8);
    assert_eq!(Allocator::round_to_aligned(8, 8), 8);
    assert_eq!(Allocator::round_to_aligned(40, 8), 40);
    assert_eq!(Allocator::round_to_aligned(41, 8), 48);
    assert_eq!(Allocator::round_to_aligned(47, 8), 48);
    assert_eq!(Allocator::round_to_aligned(13, 1), 13);
    assert_eq!(Allocator::round_to_aligned(13, 16), 16);
    assert_eq!(Allocator::round_to_aligned(4097, 4096), 8192);
    assert_eq!(Allocator::round_to_aligned(usize::MAX - 8, 8), usize::MAX - 7);
}

#[test]
fn smallest_arena_holds_one_byte() {
    let mut allocator = Allocator::new(25);
    assert_eq!(allocator.free_blocks(), vec![(0, 1)]);
    assert_eq!(allocator.allocate(1), None);
    assert_eq!(allocator.allocate(0), Some(24));
    assert_eq!(allocator.payload_size(24), Some(1));
}
