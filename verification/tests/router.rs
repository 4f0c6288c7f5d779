use std::cell::Cell;

use stack_alloc::bucketed::{BucketedAllocator, Buckets, SizeCategory};
use stack_alloc::chains::Bucket;
use stack_alloc::error::AllocErr;
use stack_alloc::factory_chain::FactoryChain;
use stack_alloc::memory_source::{Fallback, MemorySource, NoMemory, BLOCK_ALIGN, BLOCK_SIZE};

/// Hands out blocks one after the other from a range of addresses.
struct Blocks {
    next: Cell<usize>,
    left: Cell<usize>,
}

impl Blocks {
    fn new(first: usize, count: usize) -> Blocks {
        Blocks { next: Cell::new(first), left: Cell::new(count) }
    }
}

impl MemorySource for Blocks {
    fn get_block(&self) -> Option<usize> {
        if self.left.get() == 0 {
            return None;
        }
        let block = self.next.get();
        self.next.set(block + BLOCK_SIZE);
        self.left.set(self.left.get() - 1);
        Some(block)
    }
}

/// Always hands out the same address.
struct Stuck(usize);

impl MemorySource for Stuck {
    fn get_block(&self) -> Option<usize> {
        Some(self.0)
    }
}

const FIRST: usize = 0x40_0000;

fn router(blocks: usize) -> BucketedAllocator<Blocks> {
    BucketedAllocator::new(Buckets::new(), Blocks::new(FIRST, blocks))
}

#[test]
fn size_categories() {
    assert_eq!(SizeCategory::classify(0), None);
    assert_eq!(SizeCategory::classify(1), Some(SizeCategory::VerySmall));
    assert_eq!(SizeCategory::classify(7), Some(SizeCategory::VerySmall));
    assert_eq!(SizeCategory::classify(8), Some(SizeCategory::Small));
    assert_eq!(SizeCategory::classify(63), Some(SizeCategory::Small));
    assert_eq!(SizeCategory::classify(64), Some(SizeCategory::Medium));
    assert_eq!(SizeCategory::classify(511), Some(SizeCategory::Medium));
    assert_eq!(SizeCategory::classify(512), Some(SizeCategory::Large));
    assert_eq!(SizeCategory::classify(4095), Some(SizeCategory::Large));
    assert_eq!(SizeCategory::classify(4096), Some(SizeCategory::VeryLarge));
    assert_eq!(SizeCategory::classify(262144), Some(SizeCategory::VeryLarge));
    assert_eq!(SizeCategory::classify(262145), None);
    assert_eq!(SizeCategory::classify(usize::MAX), None);
}

#[test]
fn categories_partition_the_sizes() {
    let mut last = None;
    let mut changes = 0;
    for size in 1..=262144usize {
        let category = SizeCategory::classify(size);
        assert!(category.is_some());
        if category != last {
            changes += 1;
            last = category;
        }
    }
    // five categories, each one interval
    assert_eq!(changes, 5);
}

#[test]
fn buckets_and_their_parents() {
    assert_eq!(SizeCategory::VerySmall.to_bucket(), Bucket::VerySmall);
    assert_eq!(SizeCategory::VeryLarge.to_bucket(), Bucket::VeryLarge);
    assert_eq!(Bucket::VerySmall.chunk_size(), 1);
    assert_eq!(Bucket::Small.chunk_size(), 8);
    assert_eq!(Bucket::Medium.chunk_size(), 64);
    assert_eq!(Bucket::Metadata.chunk_size(), 64);
    assert_eq!(Bucket::Large.chunk_size(), 512);
    assert_eq!(Bucket::VeryLarge.chunk_size(), 4096);
    assert_eq!(Bucket::VerySmall.parent_bucket(), Some(Bucket::Medium));
    assert_eq!(Bucket::Small.parent_bucket(), Some(Bucket::Large));
    assert_eq!(Bucket::Medium.parent_bucket(), Some(Bucket::VeryLarge));
    assert_eq!(Bucket::Large.parent_bucket(), Some(Bucket::VeryLarge));
    assert_eq!(Bucket::Metadata.parent_bucket(), Some(Bucket::VeryLarge));
    assert_eq!(Bucket::VeryLarge.parent_bucket(), None);
}

#[test]
fn sizes_without_a_category_are_refused() {
    let mut alloc = router(4);
    assert_eq!(alloc.allocate(0, 1), Err(AllocErr::OutOfCategory));
    assert_eq!(alloc.allocate(262145, 8), Err(AllocErr::OutOfCategory));
    // nothing was started for them
    assert_eq!(alloc.chain_len(Bucket::VeryLarge), 0);
    assert_eq!(alloc.chain_len(Bucket::Metadata), 0);
}

#[test]
fn without_memory_nothing_is_allocated() {
    let mut alloc = BucketedAllocator::new(Buckets::new(), NoMemory);
    assert_eq!(alloc.allocate(8, 8), Err(AllocErr::OutOfMemory));
    assert_eq!(alloc.allocate(4096, 8), Err(AllocErr::OutOfMemory));
    assert_eq!(alloc.chain_len(Bucket::VeryLarge), 0);
    assert_eq!(NoMemory.get_block(), None);
}

#[test]
fn fallback_asks_the_second_source() {
    let source = Fallback { first: NoMemory, second: Blocks::new(FIRST, 1) };
    assert_eq!(source.get_block(), Some(FIRST));
    assert_eq!(source.get_block(), None);
    let source = Fallback { first: Blocks::new(FIRST, 1), second: Blocks::new(2 * FIRST, 1) };
    assert_eq!(source.get_block(), Some(FIRST));
    assert_eq!(source.get_block(), Some(2 * FIRST));
    assert_eq!(source.get_block(), None);
}

#[test]
fn blocks_are_looked_at_before_they_are_taken() {
    let mut buckets = Buckets::new();
    assert_eq!(buckets.accept_block(None), None);
    assert_eq!(buckets.accept_block(Some(0)), None);
    assert_eq!(buckets.accept_block(Some(FIRST + 8)), None);
    assert_eq!(buckets.accept_block(Some(usize::MAX - 4095)), None);
    assert_eq!(buckets.accept_block(Some(FIRST)), Some(FIRST));
    assert_eq!(buckets.install_block(Some(FIRST + 1)), Err(AllocErr::OutOfMemory));
    assert_eq!(buckets.install_block(Some(FIRST)), Ok(()));
    assert_eq!(buckets.chain_len(Bucket::VeryLarge), 1);
    assert_eq!(buckets.chain_len(Bucket::Metadata), 1);
    // a block that overlaps one that is held is not taken
    assert_eq!(buckets.accept_block(Some(FIRST)), None);
    assert_eq!(buckets.accept_block(Some(FIRST + BLOCK_ALIGN)), None);
    assert_eq!(buckets.accept_block(Some(FIRST - BLOCK_ALIGN)), None);
    assert_eq!(buckets.accept_block(Some(FIRST + BLOCK_SIZE)), Some(FIRST + BLOCK_SIZE));
    assert_eq!(buckets.accept_block(Some(FIRST - BLOCK_SIZE)), Some(FIRST - BLOCK_SIZE));
    assert_eq!(buckets.install_block(Some(FIRST)), Err(AllocErr::OutOfMemory));
    // with a free metadata chunk only the very large chain gets a node
    assert_eq!(buckets.install_block(Some(FIRST + BLOCK_SIZE)), Ok(()));
    assert_eq!(buckets.chain_len(Bucket::VeryLarge), 2);
    assert_eq!(buckets.chain_len(Bucket::Metadata), 1);
    assert_eq!(buckets.install_metadata_block(Some(FIRST + BLOCK_SIZE)), Err(AllocErr::OutOfMemory));
    assert_eq!(buckets.install_metadata_block(Some(FIRST + 2 * BLOCK_SIZE)), Ok(()));
    assert_eq!(buckets.chain_len(Bucket::VeryLarge), 3);
    assert_eq!(buckets.chain_len(Bucket::Metadata), 2);
}

#[test]
fn a_source_that_repeats_itself_is_not_believed() {
    let mut alloc = BucketedAllocator::new(Buckets::new(), Stuck(FIRST));
    // the first block is taken; it holds 63 chunks of 4 KiB beside the metadata
    for _ in 0..63 {
        assert!(alloc.allocate(4096, 8).is_ok());
    }
    assert_eq!(alloc.chain_len(Bucket::VeryLarge), 1);
    // the same block again is refused
    assert_eq!(alloc.allocate(4096, 8), Err(AllocErr::OutOfMemory));
    assert_eq!(alloc.chain_len(Bucket::VeryLarge), 1);
}

#[test]
fn the_first_allocation_starts_the_chains() {
    let mut alloc = router(4);
    let p = alloc.allocate(4096, 8).unwrap();
    // the first chunk of the block is the stack of the metadata chain
    assert_eq!(p, FIRST + 4096);
    assert_eq!(alloc.chain_len(Bucket::VeryLarge), 1);
    assert_eq!(alloc.chain_len(Bucket::Metadata), 1);
    assert_eq!(alloc.chain_len(Bucket::Large), 0);
    // two chunks of metadata are taken: for the two nodes
    assert_eq!(alloc.head_space(Bucket::Metadata), Some(62));
    assert_eq!(alloc.head_space(Bucket::VeryLarge), Some(62));
    assert_eq!(alloc.head_space(Bucket::Small), None);
}

#[test]
fn very_large_then_small() {
    let mut alloc = router(4);
    let big = alloc.allocate(4096, 1).unwrap();
    let little = alloc.allocate(9, 1).unwrap();
    assert_eq!(SizeCategory::classify(4096), Some(SizeCategory::VeryLarge));
    assert_eq!(SizeCategory::classify(9), Some(SizeCategory::Small));
    assert_eq!(alloc.chain_len(Bucket::VeryLarge), 1);
    assert_eq!(alloc.chain_len(Bucket::Small), 1);
    assert_eq!(alloc.chain_len(Bucket::Large), 1);
    assert_eq!(alloc.chain_len(Bucket::Medium), 0);
    assert_eq!(alloc.chain_len(Bucket::VerySmall), 0);
    let distance = if big < little { little - big } else { big - little };
    assert!(distance >= 4096);
    // the stack of the large chain takes eight chunks of 4 KiB behind the first allocation
    assert_eq!(big, FIRST + 4096);
    assert_eq!(little, FIRST + 2 * 4096);
}

#[test]
fn each_category_is_served_by_its_chain() {
    let mut alloc = router(4);
    let sizes = [1usize, 7, 8, 63, 64, 511, 512, 4095, 4096, 100_000];
    let mut held = Vec::new();
    for size in sizes {
        let p = alloc.allocate(size, 1).unwrap();
        held.push((p, size));
    }
    for (i, (p, s)) in held.iter().enumerate() {
        for (q, t) in held.iter().skip(i + 1) {
            assert!(p + s <= *q || q + t <= *p, "{:#x}+{} overlaps {:#x}+{}", p, s, q, t);
        }
    }
    for bucket in [
        Bucket::VerySmall,
        Bucket::Small,
        Bucket::Medium,
        Bucket::Large,
        Bucket::VeryLarge,
        Bucket::Metadata,
    ] {
        assert_eq!(alloc.chain_len(bucket), 1);
        assert!(!alloc.head_is_empty(bucket));
    }
    for (p, s) in held {
        alloc.dealloc(p, s);
    }
    for bucket in [Bucket::VerySmall, Bucket::Small] {
        assert_eq!(alloc.chain_len(bucket), 1);
        assert!(alloc.head_is_empty(bucket));
        assert_eq!(alloc.head_space(bucket), Some(64));
    }
    // the chains above still hold the stacks of the chains below
    for bucket in [Bucket::Medium, Bucket::Large, Bucket::VeryLarge, Bucket::Metadata] {
        assert!(!alloc.head_is_empty(bucket));
    }
}

#[test]
fn alignment_is_kept() {
    let mut alloc = router(4);
    for (size, align) in [(13usize, 128usize), (1, 4), (4, 4), (28, 4), (100, 64), (5000, 4096), (9, 8)] {
        let p = alloc.allocate(size, align).unwrap();
        assert_eq!(p % align, 0, "{} bytes aligned to {}", size, align);
    }
}

#[test]
fn giving_back_and_taking_again() {
    let mut alloc = router(4);
    let kept = alloc.allocate(24, 8).unwrap();
    let p = alloc.allocate(24, 8).unwrap();
    alloc.dealloc(p, 24);
    let q = alloc.allocate(24, 8).unwrap();
    assert_eq!(q % 8, 0);
    assert!(q + 24 <= kept || kept + 24 <= q);
    // the topmost allocation was given back, so its place is taken again
    assert_eq!(q, p);
}

#[test]
fn a_chain_grows_by_a_node_when_it_is_full() {
    let mut alloc = router(4);
    let mut held = Vec::new();
    for _ in 0..64 {
        held.push(alloc.allocate(8, 8).unwrap());
    }
    assert_eq!(alloc.chain_len(Bucket::Small), 1);
    assert_eq!(alloc.head_space(Bucket::Small), Some(0));
    held.push(alloc.allocate(8, 8).unwrap());
    assert_eq!(alloc.chain_len(Bucket::Small), 2);
    assert_eq!(alloc.head_space(Bucket::Small), Some(63));
    assert_eq!(alloc.chain_len(Bucket::Large), 1);
    // the node behind the head leaves when its last allocation is given back
    for p in held.iter().take(63) {
        alloc.dealloc(*p, 8);
    }
    assert_eq!(alloc.chain_len(Bucket::Small), 2);
    alloc.dealloc(held[63], 8);
    assert_eq!(alloc.chain_len(Bucket::Small), 1);
    assert!(!alloc.head_is_empty(Bucket::Small));
    alloc.dealloc(held[64], 8);
    assert_eq!(alloc.chain_len(Bucket::Small), 1);
    assert!(alloc.head_is_empty(Bucket::Small));
}

#[test]
fn two_hundred_thousand_small_values() {
    let mut alloc = router(16);
    let mut held = Vec::with_capacity(200_000);
    for _ in 0..200_000 {
        held.push(alloc.allocate(8, 8).unwrap());
    }
    assert_eq!(alloc.chain_len(Bucket::Small), 3125);
    while let Some(p) = held.pop() {
        alloc.dealloc(p, 8);
    }
    assert_eq!(alloc.chain_len(Bucket::Small), 1);
    assert!(alloc.head_is_empty(Bucket::Small));
    assert_eq!(alloc.head_space(Bucket::Small), Some(64));
}

#[test]
fn memory_runs_out() {
    let mut alloc = router(1);
    let mut count = 0;
    while alloc.allocate(4096, 8).is_ok() {
        count += 1;
        assert!(count <= 64);
    }
    // one chunk of the block is the stack of the metadata chain
    assert_eq!(count, 63);
    assert_eq!(alloc.allocate(4096, 8), Err(AllocErr::OutOfMemory));
    // smaller chains cannot start either
    assert_eq!(alloc.allocate(8, 8), Err(AllocErr::OutOfMemory));
    assert_eq!(alloc.chain_len(Bucket::Small), 0);
    assert_eq!(alloc.chain_len(Bucket::Large), 0);
    assert_eq!(alloc.chain_len(Bucket::VeryLarge), 1);
    assert_eq!(alloc.head_space(Bucket::VeryLarge), Some(0));
}

#[test]
fn a_failed_extension_gives_the_stack_back() {
    let mut alloc = router(1);
    // 61 nodes of the small chain: with the nodes of the three chains above
    // them, that is all the metadata that one stack can hold
    for _ in 0..61 * 64 {
        assert!(alloc.allocate(8, 8).is_ok());
    }
    assert_eq!(alloc.chain_len(Bucket::Small), 61);
    assert_eq!(alloc.chain_len(Bucket::Large), 1);
    assert_eq!(alloc.head_space(Bucket::Metadata), Some(0));
    assert_eq!(alloc.head_space(Bucket::Large), Some(3));
    // the rest of the block
    let mut count = 0;
    while alloc.allocate(4096, 8).is_ok() {
        count += 1;
    }
    assert_eq!(count, 55);
    // a new node of the small chain would get its stack, but no metadata
    assert_eq!(alloc.allocate(8, 8), Err(AllocErr::OutOfMemory));
    assert_eq!(alloc.chain_len(Bucket::Small), 61);
    assert_eq!(alloc.head_space(Bucket::Large), Some(3));
    assert_eq!(alloc.chain_len(Bucket::Metadata), 1);
    assert_eq!(alloc.chain_len(Bucket::VeryLarge), 1);
}

#[test]
fn realloc_in_place_and_by_moving() {
    let mut alloc = router(4);
    let p = alloc.allocate(16, 8).unwrap();
    // same category, smaller: stays
    assert_eq!(alloc.realloc(p, 16, 9, 8), Ok(p));
    // same category, larger, topmost: stays
    assert_eq!(alloc.realloc(p, 9, 40, 8), Ok(p));
    let q = alloc.allocate(8, 8).unwrap();
    assert_eq!(q, p + 40);
    // something stands above it: moves within the chain
    let moved = alloc.realloc(p, 40, 48, 8).unwrap();
    assert_ne!(moved, p);
    assert!(moved + 48 <= p || p + 40 <= moved);
    assert!(moved + 48 <= q || q + 8 <= moved);
    // another category: moves to another chain
    let far = alloc.realloc(moved, 48, 100, 8).unwrap();
    assert_eq!(alloc.chain_len(Bucket::Medium), 1);
    assert!(far + 100 <= moved || moved + 48 <= far);
    // a size without a category: refused, and the allocation stays
    assert_eq!(alloc.realloc(far, 100, 0, 8), Err(AllocErr::OutOfCategory));
    assert_eq!(alloc.realloc(far, 100, 262145, 8), Err(AllocErr::OutOfCategory));
    assert_eq!(alloc.realloc(far, 100, 64, 8), Ok(far));
    alloc.dealloc(far, 64);
    alloc.dealloc(q, 8);
    assert!(alloc.head_is_empty(Bucket::Small));
    assert!(alloc.head_is_empty(Bucket::Medium));
}

#[test]
fn factory_chain_allocates_like_the_router() {
    let mut chain = FactoryChain::new(Blocks::new(FIRST, 2));
    let mut alloc = router(2);
    for size in [1usize, 8, 64, 512, 4096, 0, 300_000, 12, 12, 700] {
        assert_eq!(chain.allocate(size, 4), alloc.allocate(size, 4));
    }
    let p = chain.allocate(40, 8).unwrap();
    chain.dealloc(p, 40);
    chain.dealloc(p, 0);
    assert_eq!(chain.allocate(40, 8), Ok(p));
}

#[test]
fn buckets_survive_a_change_of_router() {
    let mut alloc = router(2);
    let p = alloc.allocate(100, 4).unwrap();
    let buckets = alloc.into_buckets();
    assert_eq!(buckets.chain_len(Bucket::Medium), 1);
    assert!(!buckets.head_is_empty(Bucket::Medium));
    let mut alloc = BucketedAllocator::new(buckets, Blocks::new(FIRST + 2 * BLOCK_SIZE, 2));
    alloc.dealloc(p, 100);
    assert!(alloc.head_is_empty(Bucket::Medium));
}

#[test]
fn what_a_caller_holds() {
    let mut alloc = router(4);
    let small = alloc.allocate(24, 8).unwrap();
    let large = alloc.allocate(600, 8).unwrap();
    let very_large = alloc.allocate(8192, 8).unwrap();
    assert!(alloc.user_holds(small, 24));
    assert!(alloc.user_holds(large, 600));
    assert!(alloc.user_holds(very_large, 8192));
    // another size of the same category that the chunks cover
    assert!(alloc.user_holds(small, 17));
    // a size of another category
    assert!(!alloc.user_holds(small, 7));
    assert!(!alloc.user_holds(small, 64));
    assert!(!alloc.user_holds(small, 0));
    // more than is held
    assert!(!alloc.user_holds(small, 25));
    // the stack of the small chain is a chunk of the large chain, and no caller's
    assert!(!alloc.user_holds(small, 512));
    // the first chunk of the block is the stack of the metadata chain
    assert!(!alloc.user_holds(FIRST, 4096));
    alloc.dealloc(small, 24);
    assert!(!alloc.user_holds(small, 24));
    assert!(alloc.user_holds(large, 600));
    alloc.dealloc(large, 600);
    alloc.dealloc(very_large, 8192);
    assert!(!alloc.user_holds(large, 600));
    assert!(!alloc.user_holds(very_large, 8192));
}

#[test]
fn who_owns_an_address() {
    let mut alloc = router(4);
    assert_eq!(alloc.owner_of(FIRST, 8), None);
    let small = alloc.allocate(24, 8).unwrap();
    let large = alloc.allocate(600, 8).unwrap();
    assert_eq!(alloc.owner_of(small, 24), Some(Bucket::Small));
    assert_eq!(alloc.owner_of(small + 100, 8), Some(Bucket::Small));
    assert_eq!(alloc.owner_of(large, 600), Some(Bucket::Large));
    // the size decides which chain is asked
    assert_eq!(alloc.owner_of(small, 600), Some(Bucket::Large));
    assert_eq!(alloc.owner_of(small, 4096), Some(Bucket::VeryLarge));
    assert_eq!(alloc.owner_of(small, 100), None);
    assert_eq!(alloc.owner_of(small, 0), None);
    assert_eq!(alloc.owner_of(small, 262145), None);
    assert_eq!(alloc.owner_of(FIRST + BLOCK_SIZE, 4096), None);
}

#[test]
fn default_buckets_are_empty() {
    let buckets = Buckets::default();
    for bucket in [
        Bucket::VerySmall,
        Bucket::Small,
        Bucket::Medium,
        Bucket::Large,
        Bucket::VeryLarge,
        Bucket::Metadata,
    ] {
        assert_eq!(buckets.chain_len(bucket), 0);
        assert!(!buckets.head_is_empty(bucket));
        assert_eq!(buckets.head_space(bucket), None);
    }
    assert!(!buckets.user_holds(FIRST, 8));
    assert_eq!(buckets.owner_of(FIRST, 8), None);
}

#[test]
fn factory_chain_reallocates() {
    let mut chain = FactoryChain::new(Blocks::new(FIRST, 2));
    let p = chain.allocate(16, 8).unwrap();
    assert_eq!(chain.realloc(p, 16, 40, 8), Ok(p));
    assert_eq!(chain.realloc(p, 40, 8, 8), Ok(p));
    let moved = chain.realloc(p, 8, 100, 8).unwrap();
    assert_ne!(moved, p);
    assert_eq!(chain.realloc(moved, 100, 300_000, 8), Err(AllocErr::OutOfCategory));
    chain.dealloc(moved, 100);
}

#[test]
fn giving_back_nothing_changes_nothing() {
    let mut alloc = router(2);
    // before anything was started
    alloc.dealloc(FIRST, 0);
    assert_eq!(alloc.chain_len(Bucket::VeryLarge), 0);
    let p = alloc.allocate(24, 8).unwrap();
    let space = alloc.head_space(Bucket::Small);
    alloc.dealloc(p, 0);
    alloc.dealloc(12345, 0);
    assert!(alloc.user_holds(p, 24));
    assert_eq!(alloc.head_space(Bucket::Small), space);
    assert_eq!(alloc.chain_len(Bucket::Small), 1);
    alloc.dealloc(p, 24);
    assert!(alloc.head_is_empty(Bucket::Small));
}

#[test]
fn chains_start_without_another_block() {
    // one block is enough for the first node of every chain
    let mut alloc = router(1);
    let big = alloc.allocate(4096, 1).unwrap();
    assert_eq!(big, FIRST + 4096);
    let little = alloc.allocate(9, 1).unwrap();
    assert_eq!(little, FIRST + 2 * 4096);
    assert_eq!(little - big, 4096);
    assert_eq!(alloc.chain_len(Bucket::VeryLarge), 1);
    // the metadata of the four nodes
    assert_eq!(alloc.head_space(Bucket::Metadata), Some(60));
    // the stack of the large chain takes eight chunks
    assert_eq!(alloc.head_space(Bucket::VeryLarge), Some(54));
    let tiny = alloc.allocate(3, 1).unwrap();
    // the medium chain starts behind the stack of the large chain
    assert_eq!(tiny, FIRST + 10 * 4096);
    assert_eq!(alloc.chain_len(Bucket::Medium), 1);
    assert_eq!(alloc.chain_len(Bucket::VerySmall), 1);
}
