use allocator::block::{BlockHeader, FLAG_OFFSET, HEADER_SIZE, LINK_OFFSET, NO_LINK};
use allocator::heap::{Heap, WORD_SIZE};
use allocator::Allocator;

#[test]
fn heap_starts_zeroed_at_address_zero() {
    let mut heap = Heap::new(64);
    assert_eq!(heap.len(), 64);
    assert_eq!(heap.start_ptr(), 0);
    for at in 0..64 {
        assert_eq!(heap.read(at), 0);
    }
}

#[test]
fn heap_of_no_bytes_is_empty() {
    let heap = Heap::new(0);
    assert_eq!(heap.len(), 0);
}

#[test]
fn heap_byte_write_changes_one_byte() {
    let mut heap = Heap::new(16);
    heap.write(5, 0xAB);
    for at in 0..16 {
        assert_eq!(heap.read(at), if at == 5 { 0xAB } else { 0 });
    }
}

#[test]
fn heap_word_is_stored_little_endian() {
    let mut heap = Heap::new(32);
    heap.write_word(8, 0x0102_0304);
    assert_eq!(heap.read(8), 0x04);
    assert_eq!(heap.read(9), 0x03);
    assert_eq!(heap.read(10), 0x02);
    assert_eq!(heap.read(11), 0x01);
    for at in 12..16 {
        assert_eq!(heap.read(at), 0);
    }
    assert_eq!(heap.read_word(8), 0x0102_0304);
    assert_eq!(heap.read(7), 0);
    assert_eq!(heap.read(16), 0);
}

#[test]
fn heap_word_round_trips_at_the_extremes() {
    let mut heap = Heap::new(WORD_SIZE);
    heap.write_word(0, usize::MAX);
    assert_eq!(heap.read_word(0), usize::MAX);
    heap.write_word(0, 0);
    assert_eq!(heap.read_word(0), 0);
}

#[test]
fn new_header_is_free_and_unlinked() {
    let header = BlockHeader::new(1000);
    assert_eq!(header.size, 1000);
    assert!(header.is_free);
    assert_eq!(header.next, None);
}

#[test]
fn header_round_trips_through_the_arena() {
    let mut heap = Heap::new(64);
    let header = BlockHeader { size: 40, is_free: false, next: Some(48) };
    header.store(&mut heap, 8);
    let loaded = BlockHeader::load(&heap, 8);
    assert_eq!(loaded.size, 40);
    assert!(!loaded.is_free);
    assert_eq!(loaded.next, Some(48));
    // nothing outside the descriptor was touched
    for at in (0..8).chain(8 + HEADER_SIZE..64) {
        assert_eq!(heap.read(at), 0);
    }
}

#[test]
fn header_without_link_round_trips() {
    let mut heap = Heap::new(HEADER_SIZE);
    BlockHeader::new(7).store(&mut heap, 0);
    let loaded = BlockHeader::load(&heap, 0);
    assert_eq!(loaded.size, 7);
    assert!(loaded.is_free);
    assert_eq!(loaded.next, None);
    assert_eq!(heap.read_word(LINK_OFFSET), NO_LINK);
    assert_eq!(heap.read(FLAG_OFFSET), 1);
    assert_eq!(heap.read_word(0), 7);
}

#[test]
fn header_layout_is_three_words() {
    assert_eq!(HEADER_SIZE, 3 * WORD_SIZE);
    assert_eq!(FLAG_OFFSET, WORD_SIZE);
    assert_eq!(LINK_OFFSET, 2 * WORD_SIZE);
}

#[test]
fn zeroed_bytes_read_as_allocated_header_linked_to_zero() {
    let heap = Heap::new(HEADER_SIZE);
    let loaded = BlockHeader::load(&heap, 0);
    assert_eq!(loaded.size, 0);
    assert!(!loaded.is_free);
    assert_eq!(loaded.next, Some(0));
}

#[test]
fn allocator_is_reexported_at_the_root() {
    let mut allocator = Allocator::new(64);
    assert_eq!(allocator.allocate(8), Some(24));
}
