use stack_alloc::bitmapped_stack::{round_up_to_alignment, BitmappedStack, STACK_SIZE};
use stack_alloc::error::{AllocErr, CannotReallocInPlace};

/// Sixty-four chunks of eight bytes, as the memory of one stack.
struct Memory {
    base: usize,
    bytes: Vec<u8>,
}

impl Memory {
    fn new(base: usize) -> Memory {
        Memory { base, bytes: vec![0; 64 * 8] }
    }

    fn write_i32(&mut self, address: usize, value: i32) {
        let at = address - self.base;
        self.bytes[at..at + 4].copy_from_slice(&value.to_le_bytes());
    }

    fn read_i32(&self, address: usize) -> i32 {
        let at = address - self.base;
        let mut raw = [0u8; 4];
        raw.copy_from_slice(&self.bytes[at..at + 4]);
        i32::from_le_bytes(raw)
    }
}

fn string() {
    let my_string = "Hello!".to_owned();
    assert_eq!(&my_string, "Hello!");
}

fn vec() {
    let mut my_vec = vec![1, 2, 4, 5];
    assert_eq!(&my_vec, &[1, 2, 4, 5]);
    my_vec.push(3);
    my_vec.push(-4);
    assert_eq!(&my_vec, &[1, 2, 4, 5, 3, -4]);
}

#[test]
fn a_test() {
    string();
    vec();

    let base = 0x10000;
    let mut memory = Memory::new(base);
    let mut allocator = BitmappedStack::new(
        base, 8, // Bytes per chunk
    );
    println!("allocator: {:#?}", allocator);

    {
        let the_ptr = allocator.allocate(28, 4).unwrap();
        allocator.debug_assert_nonempty();
        assert!(!allocator.is_empty());
        assert_ne!(allocator.bitmap(), 0);
        let values = [3, 4, 6, 7, 1, 2, -3];
        for i in 0..7 {
            memory.write_i32(the_ptr + 4 * i, values[i]);
        }
        for i in 0..7 {
            println!("{}", memory.read_i32(the_ptr + 4 * i));
            assert_eq!(memory.read_i32(the_ptr + 4 * i), values[i]);
        }
        println!("allocator: {:#?}", allocator);
        allocator.dealloc(the_ptr, 28);
        allocator.debug_assert_empty();
        assert!(allocator.is_empty());
        assert_eq!(allocator.bitmap(), 0);
        assert_eq!(allocator.height(), 0);
        println!("allocator: {:#?}", allocator);
    }

    assert!(allocator.allocate(1024, 8).is_err());

    {
        allocator.debug_assert_empty();
        assert!(allocator.is_empty());
        let big_ptr = allocator.allocate(496, 8).unwrap();
        println!("allocator: {:#?}", allocator);
        allocator.dealloc(big_ptr, 496);
    }

    {
        let yep = allocator.allocate(13, 128).unwrap();
        println!("allocator after weird alignment: {:#?}", allocator);
        allocator.debug_assert_nonempty();
        assert!(!allocator.is_empty());
        assert_eq!(yep % 128, 0);
        allocator.dealloc(yep, 13);
    }

    println!("allocator: {:#?}", allocator);
    allocator.debug_assert_empty();
    assert!(allocator.is_empty());
    assert_eq!(allocator.bitmap(), 0);
}

#[test]
fn rounding_up() {
    assert_eq!(round_up_to_alignment(0, 8), Some(0));
    assert_eq!(round_up_to_alignment(1, 8), Some(8));
    assert_eq!(round_up_to_alignment(8, 8), Some(8));
    assert_eq!(round_up_to_alignment(9, 8), Some(16));
    assert_eq!(round_up_to_alignment(4097, 4096), Some(8192));
    assert_eq!(round_up_to_alignment(13, 1), Some(13));
    assert_eq!(round_up_to_alignment(usize::MAX, 2), None);
    assert_eq!(round_up_to_alignment(usize::MAX - 7, 8), Some(usize::MAX - 7));
}

#[test]
fn new_stack_is_empty() {
    let stack = BitmappedStack::new(0x4000, 64);
    assert!(stack.is_empty());
    assert_eq!(stack.bitmap(), 0);
    assert_eq!(stack.height(), 0);
    assert_eq!(stack.chunk_size(), 64);
    assert_eq!(stack.pointer(), 0x4000);
    assert_eq!(stack.chunks_left(), STACK_SIZE);
}

#[test]
fn owns_is_the_half_open_range() {
    let stack = BitmappedStack::new(0x4000, 64);
    assert!(!stack.owns(0x3fff));
    assert!(stack.owns(0x4000));
    assert!(stack.owns(0x4000 + 63 * 64));
    assert!(stack.owns(0x4000 + 64 * 64 - 1));
    assert!(!stack.owns(0x4000 + 64 * 64));
}

#[test]
fn allocation_marks_a_contiguous_range() {
    let mut stack = BitmappedStack::new(0x1000, 8);
    assert_eq!(stack.allocate(28, 4), Ok(0x1000));
    // 28 bytes take four chunks of eight
    assert_eq!(stack.bitmap(), 0b1111);
    assert_eq!(stack.height(), 4);
    assert_eq!(stack.allocate(8, 8), Ok(0x1000 + 32));
    assert_eq!(stack.bitmap(), 0b1_1111);
    assert_eq!(stack.allocate(1, 1), Ok(0x1000 + 40));
    assert_eq!(stack.bitmap(), 0b11_1111);
    assert_eq!(stack.height(), 6);
    assert_eq!(stack.chunks_left(), 58);
}

#[test]
fn alignment_skips_chunks() {
    let mut stack = BitmappedStack::new(0x1000, 8);
    assert_eq!(stack.allocate(8, 8), Ok(0x1000));
    // the next address aligned to 64 is chunk 8
    assert_eq!(stack.allocate(16, 64), Ok(0x1040));
    assert_eq!(stack.bitmap(), 0b11_0000_0001);
    assert_eq!(stack.height(), 10);
}

#[test]
fn too_large_request_fails_and_changes_nothing() {
    let mut stack = BitmappedStack::new(0x1000, 8);
    assert_eq!(stack.allocate(1024, 8), Err(AllocErr::OutOfCapacity));
    assert!(stack.is_empty());
    assert_eq!(stack.allocate(513, 8), Err(AllocErr::OutOfCapacity));
    assert_eq!(stack.allocate(512, 8), Ok(0x1000));
    assert_eq!(stack.bitmap(), u64::MAX);
    assert_eq!(stack.height(), 64);
    assert_eq!(stack.allocate(1, 1), Err(AllocErr::OutOfCapacity));
    assert_eq!(stack.bitmap(), u64::MAX);
}

#[test]
fn a_full_stack_gives_everything_back() {
    let mut stack = BitmappedStack::new(0x1000, 8);
    let all = stack.allocate(512, 8).unwrap();
    stack.dealloc(all, 512);
    assert_eq!(stack.bitmap(), 0);
    assert_eq!(stack.height(), 0);
}

#[test]
fn interior_hole_leaves_the_height() {
    let mut stack = BitmappedStack::new(0x1000, 8);
    let a = stack.allocate(16, 8).unwrap();
    let b = stack.allocate(16, 8).unwrap();
    let c = stack.allocate(16, 8).unwrap();
    assert_eq!(stack.height(), 6);
    stack.dealloc(b, 16);
    assert_eq!(stack.bitmap(), 0b11_0011);
    assert_eq!(stack.height(), 6);
    // the hole is not used again while the top stands
    assert_eq!(stack.allocate(8, 8), Ok(0x1000 + 48));
    stack.dealloc(0x1000 + 48, 8);
    stack.dealloc(c, 16);
    // the height drops past the hole
    assert_eq!(stack.bitmap(), 0b11);
    assert_eq!(stack.height(), 2);
    stack.dealloc(a, 16);
    assert!(stack.is_empty());
}

#[test]
fn shrinking_in_place() {
    let mut stack = BitmappedStack::new(0x1000, 8);
    let a = stack.allocate(40, 8).unwrap();
    assert_eq!(stack.bitmap(), 0b1_1111);
    stack.shrink_in_place(a, 40, 17);
    assert_eq!(stack.bitmap(), 0b111);
    assert_eq!(stack.height(), 3);
    // shrinking within the same chunks changes nothing
    stack.shrink_in_place(a, 17, 20 - 3);
    assert_eq!(stack.bitmap(), 0b111);
    // shrinking to nothing gives the allocation back
    stack.shrink_in_place(a, 17, 0);
    assert_eq!(stack.bitmap(), 0);
    assert_eq!(stack.height(), 0);
}

#[test]
fn shrinking_below_the_top_leaves_the_height() {
    let mut stack = BitmappedStack::new(0x1000, 8);
    let a = stack.allocate(32, 8).unwrap();
    let _b = stack.allocate(8, 8).unwrap();
    stack.shrink_in_place(a, 32, 8);
    assert_eq!(stack.bitmap(), 0b1_0001);
    assert_eq!(stack.height(), 5);
}

#[test]
fn growing_in_place() {
    let mut stack = BitmappedStack::new(0x1000, 8);
    let a = stack.allocate(8, 8).unwrap();
    // the topmost allocation grows upwards
    assert_eq!(stack.grow_in_place(a, 8, 24), Ok(()));
    assert_eq!(stack.bitmap(), 0b111);
    assert_eq!(stack.height(), 3);
    let b = stack.allocate(8, 8).unwrap();
    // now something stands above it
    assert_eq!(stack.grow_in_place(a, 24, 32), Err(CannotReallocInPlace));
    assert_eq!(stack.bitmap(), 0b1111);
    // growing within the same chunks always works
    assert_eq!(stack.grow_in_place(a, 20, 24), Ok(()));
    assert_eq!(stack.bitmap(), 0b1111);
    // beyond the end of the stack nothing grows
    assert_eq!(stack.grow_in_place(b, 8, 8 * 62), Err(CannotReallocInPlace));
    assert_eq!(stack.grow_in_place(b, 8, 8 * 61), Ok(()));
    assert_eq!(stack.bitmap(), u64::MAX);
    assert_eq!(stack.height(), 64);
}

#[test]
fn growing_into_an_interior_hole() {
    let mut stack = BitmappedStack::new(0x1000, 8);
    let a = stack.allocate(8, 8).unwrap();
    let b = stack.allocate(16, 8).unwrap();
    let _c = stack.allocate(8, 8).unwrap();
    stack.dealloc(b, 16);
    assert_eq!(stack.bitmap(), 0b1001);
    assert_eq!(stack.grow_in_place(a, 8, 24), Ok(()));
    assert_eq!(stack.bitmap(), 0b1111);
    assert_eq!(stack.height(), 4);
}

#[test]
fn matched_allocations_leave_the_stack_empty() {
    let mut stack = BitmappedStack::new(0x8000, 64);
    let sizes = [1usize, 64, 65, 200, 640, 63, 128];
    let mut held = Vec::new();
    for size in sizes {
        held.push((stack.allocate(size, 8).unwrap(), size));
    }
    // no two of them overlap, and each is aligned
    for (i, (p, s)) in held.iter().enumerate() {
        assert_eq!(p % 8, 0);
        assert!(stack.owns(*p) && stack.owns(p + s - 1));
        for (q, t) in held.iter().skip(i + 1) {
            assert!(p + s <= *q || q + t <= *p);
        }
    }
    // give them back in another order
    for index in [3usize, 0, 5, 1, 6, 2, 4] {
        let (p, s) = held[index];
        stack.dealloc(p, s);
    }
    assert_eq!(stack.bitmap(), 0);
    assert_eq!(stack.height(), 0);
    assert_eq!(stack.chunks_left(), 64);
}

#[test]
fn what_a_stack_holds() {
    let mut stack = BitmappedStack::new(0x1000, 8);
    let a = stack.allocate(20, 4).unwrap();
    assert!(stack.holds(a, 20));
    assert!(stack.holds(a, 24));
    assert!(stack.holds(a, 1));
    assert!(stack.holds(a + 8, 16));
    // not the address of a chunk
    assert!(!stack.holds(a + 4, 8));
    // a chunk that is free
    assert!(!stack.holds(a, 25));
    assert!(!stack.holds(a + 24, 8));
    // nothing is no allocation
    assert!(!stack.holds(a, 0));
    // outside the stack
    assert!(!stack.holds(0x1000 + 512, 8));
    assert!(!stack.holds(0x0ff8, 8));
    assert!(!stack.holds(a, usize::MAX));
    stack.dealloc(a, 20);
    assert!(!stack.holds(a, 20));
}

#[test]
fn what_overlaps_a_stack() {
    let stack = BitmappedStack::new(0x1000, 8);
    assert!(stack.overlaps(0x1000, 1));
    assert!(stack.overlaps(0x11ff, 1));
    assert!(!stack.overlaps(0x1200, 1));
    assert!(!stack.overlaps(0x0fff, 1));
    assert!(stack.overlaps(0x0fff, 2));
    assert!(stack.overlaps(0x0800, 0x1000));
    assert!(!stack.overlaps(0x0800, 0x0800));
    assert!(stack.overlaps(0, usize::MAX));
    assert!(!stack.overlaps(0x1000, 0));
}
