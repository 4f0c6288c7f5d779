use stack_alloc::error::{AllocErr, CannotReallocInPlace};
use stack_alloc::metadata_box::MetadataBox;
use stack_alloc::sized_allocator::{DeallocResponse, SizedAllocator};

/// A chain of three nodes of eight-byte chunks; the head lies at 0x3000,
/// its backup at 0x2000 and the last node at 0x1000.
fn three_nodes() -> SizedAllocator {
    let last = SizedAllocator::from_memory_chunk(8, 0x1000, None);
    let middle = SizedAllocator::from_memory_chunk(
        8,
        0x2000,
        Some(MetadataBox::from_pointer_data(0x9000, last)),
    );
    SizedAllocator::from_memory_chunk(8, 0x3000, Some(MetadataBox::from_pointer_data(0x9040, middle)))
}

#[test]
fn metadata_box_keeps_address_and_value() {
    let boxed = MetadataBox::from_pointer_data(0x9000, 17u32);
    assert_eq!(*boxed.get(), 17);
    let mut boxed = boxed;
    *boxed.get_mut() = 18;
    assert_eq!(*boxed.get(), 18);
    assert_eq!(boxed.into_raw(), 0x9000);
}

#[test]
fn a_new_chain() {
    let chain = three_nodes();
    assert_eq!(chain.len(), 3);
    assert_eq!(chain.chunk_size(), 8);
    assert_eq!(chain.stack_pointer(), 0x3000);
    assert!(chain.is_empty());
    assert_eq!(chain.largest_space_left(), 64);
    assert!(chain.owns(0x1000));
    assert!(chain.owns(0x2000 + 511));
    assert!(chain.owns(0x3000));
    assert!(!chain.owns(0x1000 + 512));
    assert!(!chain.owns(0x4000));
}

#[test]
fn the_first_node_with_room_serves() {
    let mut chain = three_nodes();
    assert_eq!(chain.allocate(500, 8), Ok(0x3000));
    assert_eq!(chain.largest_space_left(), 1);
    // nine bytes do not fit above the height of the head
    assert_eq!(chain.allocate(9, 8), Ok(0x2000));
    assert_eq!(chain.allocate(8, 8), Ok(0x3000 + 504));
    assert_eq!(chain.largest_space_left(), 0);
    assert_eq!(chain.allocate(512, 8), Ok(0x1000));
    assert_eq!(chain.allocate(496, 8), Ok(0x2000 + 16));
    assert_eq!(chain.allocate(1, 1), Err(AllocErr::OutOfCapacity));
    assert_eq!(chain.allocate(513, 8), Err(AllocErr::OutOfCapacity));
    assert_eq!(chain.len(), 3);
}

#[test]
fn emptying_the_head_says_collapse() {
    let mut chain = three_nodes();
    let a = chain.allocate(16, 8).unwrap();
    let b = chain.allocate(16, 8).unwrap();
    assert!(matches!(chain.dealloc(a, 16), DeallocResponse::Nothing));
    assert!(matches!(chain.dealloc(b, 16), DeallocResponse::Collapse));
    assert_eq!(chain.len(), 3);
    assert!(chain.is_empty());
    assert_eq!(chain.largest_space_left(), 64);
}

#[test]
fn emptying_another_node_cuts_it_out() {
    let mut chain = three_nodes();
    assert_eq!(chain.allocate(512, 8), Ok(0x3000));
    let in_middle = chain.allocate(24, 8).unwrap();
    let also_in_middle = chain.allocate(8, 8).unwrap();
    assert_eq!(in_middle, 0x2000);
    assert!(matches!(chain.dealloc(in_middle, 24), DeallocResponse::Nothing));
    assert_eq!(chain.len(), 3);
    match chain.dealloc(also_in_middle, 8) {
        DeallocResponse::FreeAllocator(node) => {
            assert_eq!(node.get().stack_pointer(), 0x2000);
            assert_eq!(node.get().chunk_size(), 8);
            assert_eq!(node.get().len(), 1);
            assert!(node.get().is_empty());
            assert_eq!(node.get().largest_space_left(), 64);
            assert_eq!(node.into_raw(), 0x9040);
        }
        _ => panic!("the middle node should have left the chain"),
    }
    assert_eq!(chain.len(), 2);
    assert!(!chain.owns(0x2000));
    assert!(chain.owns(0x1000));
    // the last node moved up and serves now
    assert_eq!(chain.allocate(8, 8), Ok(0x1000));
}

#[test]
fn emptying_the_last_node_cuts_it_out() {
    let mut chain = three_nodes();
    assert_eq!(chain.allocate(512, 8), Ok(0x3000));
    assert_eq!(chain.allocate(512, 8), Ok(0x2000));
    let in_last = chain.allocate(100, 4).unwrap();
    assert_eq!(in_last, 0x1000);
    match chain.dealloc(in_last, 100) {
        DeallocResponse::FreeAllocator(node) => {
            assert_eq!(node.get().stack_pointer(), 0x1000);
            assert_eq!(node.into_raw(), 0x9000);
        }
        _ => panic!("the last node should have left the chain"),
    }
    assert_eq!(chain.len(), 2);
    assert_eq!(chain.allocate(1, 1), Err(AllocErr::OutOfCapacity));
}

#[test]
fn shrink_and_grow_go_to_the_owner() {
    let mut chain = three_nodes();
    assert_eq!(chain.allocate(512, 8), Ok(0x3000));
    let a = chain.allocate(64, 8).unwrap();
    assert_eq!(a, 0x2000);
    assert_eq!(chain.grow_in_place(a, 64, 128), Ok(()));
    let b = chain.allocate(8, 8).unwrap();
    assert_eq!(b, 0x2000 + 128);
    assert_eq!(chain.grow_in_place(a, 128, 136), Err(CannotReallocInPlace));
    chain.shrink_in_place(a, 128, 8);
    assert_eq!(chain.grow_in_place(a, 8, 128), Ok(()));
    // the head is full and cannot grow
    assert_eq!(chain.grow_in_place(0x3000, 512, 513), Err(CannotReallocInPlace));
    chain.shrink_in_place(0x3000, 512, 256);
    assert_eq!(chain.largest_space_left(), 32);
    assert_eq!(chain.allocate(256, 8), Ok(0x3000 + 256));
}

#[test]
fn matched_allocations_leave_every_node_empty() {
    let mut chain = three_nodes();
    let mut held = Vec::new();
    for round in 0..30 {
        let size = 8 + 8 * (round % 7);
        held.push((chain.allocate(size, 8).unwrap(), size));
    }
    for (i, (p, s)) in held.iter().enumerate() {
        for (q, t) in held.iter().skip(i + 1) {
            assert!(p + s <= *q || q + t <= *p);
        }
    }
    let mut freed_nodes = 0;
    for (p, s) in held {
        if let DeallocResponse::FreeAllocator(node) = chain.dealloc(p, s) {
            assert!(node.get().is_empty());
            assert_eq!(node.get().largest_space_left(), 64);
            freed_nodes += 1;
        }
    }
    assert!(chain.is_empty());
    assert_eq!(chain.largest_space_left(), 64);
    assert_eq!(chain.len(), 3 - freed_nodes);
}

#[test]
fn what_a_chain_holds() {
    let mut chain = three_nodes();
    assert_eq!(chain.allocate(512, 8), Ok(0x3000));
    let a = chain.allocate(24, 8).unwrap();
    assert_eq!(a, 0x2000);
    assert!(chain.holds(0x3000, 512));
    assert!(chain.holds(0x3000 + 8, 8));
    assert!(chain.holds(a, 24));
    assert!(!chain.holds(a, 32));
    assert!(!chain.holds(0x1000, 8));
    assert!(!chain.holds(0x5000, 8));
    // the bytes between the stacks touch none of them
    assert!(chain.clear_of(0x1200, 0x0e00));
    assert!(chain.clear_of(0x3200, 0x1000));
    assert!(!chain.clear_of(0x11ff, 1));
    assert!(!chain.clear_of(0x2000, 1));
    assert!(!chain.clear_of(0x0800, 0x4000));
}
