use std::cell::Cell;
use std::collections::HashMap;

use stack_alloc::chains::Bucket;
use stack_alloc::global_allocator::to_raw;
use stack_alloc::error::AllocErr;
use stack_alloc::{Allocator, MemorySource};

/// Hands out blocks one after the other, as a test would get them from the
/// system.
struct TestMemorySource {
    next: Cell<usize>,
}

impl MemorySource for TestMemorySource {
    fn get_block(&self) -> Option<usize> {
        let block = self.next.get();
        self.next.set(block + 262144);
        Some(block)
    }
}

/// The allocator together with the bytes behind the addresses that it
/// hands out.
struct Heap {
    allocator: Allocator<TestMemorySource>,
    bytes: HashMap<usize, u8>,
}

impl Heap {
    fn new() -> Heap {
        Heap {
            allocator: Allocator::new(TestMemorySource { next: Cell::new(0x100_0000) }),
            bytes: HashMap::new(),
        }
    }

    fn allocate(&mut self, size: usize, align: usize) -> usize {
        let ptr = self.allocator.allocate(size, align);
        assert_ne!(ptr, 0);
        assert_eq!(ptr % align, 0);
        ptr
    }

    fn dealloc(&mut self, ptr: usize, size: usize, align: usize) {
        self.allocator.dealloc(ptr, size, align);
    }

    fn realloc(&mut self, ptr: usize, old_size: usize, align: usize, new_size: usize) -> usize {
        let new_ptr = self.allocator.realloc(ptr, old_size, align, new_size);
        assert_ne!(new_ptr, 0);
        if new_ptr != ptr {
            assert_eq!(new_ptr % align, 0);
            for i in 0..old_size.min(new_size) {
                let byte = self.read(ptr + i);
                self.write(new_ptr + i, byte);
            }
        }
        new_ptr
    }

    fn write(&mut self, address: usize, byte: u8) {
        self.bytes.insert(address, byte);
    }

    fn read(&self, address: usize) -> u8 {
        *self.bytes.get(&address).unwrap_or(&0)
    }
}

/// A growing sequence of `i32` values in the heap.
struct HeapVec {
    ptr: usize,
    cap: usize,
    len: usize,
}

impl HeapVec {
    fn from(heap: &mut Heap, values: &[i32]) -> HeapVec {
        let mut v = HeapVec { ptr: heap.allocate(4 * values.len(), 4), cap: values.len(), len: 0 };
        for value in values {
            v.push(heap, *value);
        }
        v
    }

    fn push(&mut self, heap: &mut Heap, value: i32) {
        if self.len == self.cap {
            let new_cap = (2 * self.cap).max(4);
            self.ptr = heap.realloc(self.ptr, 4 * self.cap, 4, 4 * new_cap);
            self.cap = new_cap;
        }
        for (i, byte) in value.to_le_bytes().iter().enumerate() {
            heap.write(self.ptr + 4 * self.len + i, *byte);
        }
        self.len += 1;
    }

    fn to_vec(&self, heap: &Heap) -> Vec<i32> {
        (0..self.len)
            .map(|i| {
                let at = self.ptr + 4 * i;
                i32::from_le_bytes([heap.read(at), heap.read(at + 1), heap.read(at + 2), heap.read(at + 3)])
            })
            .collect()
    }

    fn drop(self, heap: &mut Heap) {
        heap.dealloc(self.ptr, 4 * self.cap, 4);
    }
}

/// A growing string in the heap.
struct HeapString {
    ptr: usize,
    cap: usize,
    len: usize,
}

impl HeapString {
    fn from(heap: &mut Heap, text: &str) -> HeapString {
        let mut s = HeapString { ptr: heap.allocate(text.len(), 1), cap: text.len(), len: 0 };
        s.push_str(heap, text);
        s
    }

    fn push_str(&mut self, heap: &mut Heap, text: &str) {
        if self.len + text.len() > self.cap {
            let new_cap = (2 * self.cap).max(self.len + text.len()).max(8);
            self.ptr = heap.realloc(self.ptr, self.cap, 1, new_cap);
            self.cap = new_cap;
        }
        for (i, byte) in text.bytes().enumerate() {
            heap.write(self.ptr + self.len + i, byte);
        }
        self.len += text.len();
    }

    fn to_string(&self, heap: &Heap) -> String {
        String::from_utf8((0..self.len).map(|i| heap.read(self.ptr + i)).collect()).unwrap()
    }

    fn drop(self, heap: &mut Heap) {
        heap.dealloc(self.ptr, self.cap, 1);
    }
}

#[test]
fn vecs() {
    let mut heap = Heap::new();
    let mut my_vec = HeapVec::from(&mut heap, &[1, 2, 3]);
    for i in 0..7 {
        my_vec.push(&mut heap, i);
    }
    assert_eq!(my_vec.to_vec(&heap), [1, 2, 3, 0, 1, 2, 3, 4, 5, 6]);
    my_vec.drop(&mut heap);
    assert!(heap.allocator.head_is_empty(Bucket::Small));
}

#[test]
fn string() {
    let mut heap = Heap::new();
    let mut my_string = HeapString::from(&mut heap, "Hello! This is a String.");
    my_string.push_str(&mut heap, "\nYes it is.");
    println!("{}", my_string.to_string(&heap));
    assert_eq!(my_string.to_string(&heap), "Hello! This is a String.\nYes it is.");
    my_string.drop(&mut heap);
    assert!(heap.allocator.head_is_empty(Bucket::Small));
}

#[test]
fn two_vectors_do_not_disturb_each_other() {
    let mut heap = Heap::new();
    let mut a = HeapVec::from(&mut heap, &[1, 2, 3]);
    let mut b = HeapVec::from(&mut heap, &[-1, -2]);
    for i in 0..100 {
        a.push(&mut heap, i);
        b.push(&mut heap, -i);
    }
    let expected_a: Vec<i32> = [1, 2, 3].into_iter().chain(0..100).collect();
    let expected_b: Vec<i32> = [-1, -2].into_iter().chain((0..100).map(|i| -i)).collect();
    assert_eq!(a.to_vec(&heap), expected_a);
    assert_eq!(b.to_vec(&heap), expected_b);
    a.drop(&mut heap);
    b.drop(&mut heap);
}

#[test]
fn null_stands_for_failure() {
    assert_eq!(to_raw(Ok(0x1000)), 0x1000);
    assert_eq!(to_raw(Err(AllocErr::OutOfMemory)), 0);
    assert_eq!(to_raw(Err(AllocErr::OutOfCategory)), 0);
    let mut heap = Heap::new();
    assert_eq!(heap.allocator.allocate(0, 1), 0);
    assert_eq!(heap.allocator.allocate(262145, 1), 0);
    assert_eq!(heap.allocator.chain_len(Bucket::VeryLarge), 0);
}

#[test]
fn realloc_of_null_allocates() {
    let mut heap = Heap::new();
    let p = heap.allocator.realloc(0, 0, 8, 24);
    assert_ne!(p, 0);
    assert_eq!(p % 8, 0);
    assert_eq!(heap.allocator.chain_len(Bucket::Small), 1);
    // giving back nothing does nothing
    heap.allocator.dealloc(p, 0, 8);
    assert!(!heap.allocator.head_is_empty(Bucket::Small));
    heap.allocator.dealloc(p, 24, 8);
    assert!(heap.allocator.head_is_empty(Bucket::Small));
    // a new size without a category leaves the allocation alone
    let q = heap.allocator.allocate(24, 8);
    assert_eq!(heap.allocator.realloc(q, 24, 8, 0), 0);
    assert!(!heap.allocator.head_is_empty(Bucket::Small));
}
