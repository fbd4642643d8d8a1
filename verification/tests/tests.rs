use allocator::Allocator;

#[test]
fn allocator_initializes() {
    let alloc = Allocator::new(1024);
    assert!(format!("{:p}", &alloc) != "0x0");
}

#[test]
fn alloc_works() {
    let mut allocator = Allocator::new(1024);

    let num: usize = allocator.allocate(16).unwrap();

    allocator.write(num, 0, 16);
    assert!(allocator.read(num, 0) == 16);
}

#[test]
fn fresh_allocator_is_one_free_block() {
    let allocator = Allocator::new(1024);
    assert_eq!(allocator.free_blocks(), vec![(0, 1000)]);
}

#[test]
fn oversized_request_finds_no_fit() {
    let mut allocator = Allocator::new(1024);
    assert_eq!(allocator.allocate(2000), None);
    assert_eq!(allocator.free_blocks(), vec![(0, 1000)]);
}

#[test]
fn releasing_two_blocks_in_order_restores_single_block() {
    let mut allocator = Allocator::new(1024);
    let a = allocator.allocate(16).unwrap();
    let b = allocator.allocate(16).unwrap();
    allocator.free(a);
    allocator.free(b);
    assert_eq!(allocator.free_blocks(), vec![(0, 1024 - 24)]);
}

#[test]
fn released_address_is_reused() {
    let mut allocator = Allocator::new(1024);
    let a = allocator.allocate(16).unwrap();
    allocator.free(a);
    let b = allocator.allocate(16).unwrap();
    assert_eq!(b, a);
}
