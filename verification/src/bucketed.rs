//! This allocator chooses from an array of `SizedAllocator`s based on the size of the allocation.
//!
//! It has a chain of `SizedAllocator`s for each of five size categories, with
//! chunk sizes ranging from 1 byte to 4 KiB, and one more chain for the
//! metadata of the nodes of all chains.

use vstd::prelude::*;
use vstd::arithmetic::power2::is_pow2;
use crate::bitmapped_stack::{StackView, overlap, STACK_SIZE};
use crate::chain_steps::{
    lemma_blocks_deallocated,
    lemma_blocks_pushed,
    lemma_blocks_same_places,
    lemma_blocks_with_block,
    lemma_buckets_apart,
    lemma_deallocated_rows,
    lemma_new_head_serves,
    lemma_pushed_removed,
    lemma_held_nonnull,
    lemma_metadata_heads,
    lemma_very_large_head,
    metadata_head,
    metadata_head_shared,
    very_large_head,
    kept_but_node,
    lemma_step_allocated,
    lemma_step_bootstrap,
    lemma_step_deallocated,
    lemma_step_grown,
    lemma_step_pushed,
    lemma_step_shrunk,
    lemma_step_pushed_metadata,
    lemma_with_row,
};
use crate::books::{
    lemma_allocated_only,
    lemma_deallocated_only,
    lemma_gained,
    lemma_grown_only,
    lemma_lost,
    lemma_same_out,
    lemma_shrunk_only,
    lemma_step_bootstrap_only,
    lemma_step_pushed_metadata_only,
    lemma_step_pushed_only,
    lemma_swapped_in_place,
    lemma_swapped_moved,
    only_from_but_node,
    only_from_or_node,
};
use crate::chains::{Bucket, BucketsView, Row, chunks_in};
use crate::error::{AllocErr, CannotReallocInPlace};
use crate::memory_source::{MemorySource, valid_block, BLOCK_ALIGN, BLOCK_SIZE};
use crate::metadata_box::MetadataBox;
use crate::sized_allocator::{
    ChainView,
    DeallocResponse,
    SizedAllocator,
    all_apart,
    clear_of_all,
    first_owner,
    lemma_first_owner,
};

verus! {

/// The chunk size of the very small chain.
pub const VERY_SMALL_CHUNK_SIZE: usize = 1;

/// The chunk size of the small chain.
pub const SMALL_CHUNK_SIZE: usize = 8;

/// The chunk size of the medium chain.
pub const MEDIUM_CHUNK_SIZE: usize = 64;

/// The chunk size of the large chain.
pub const LARGE_CHUNK_SIZE: usize = 512;

/// The chunk size of the very large chain.
pub const VERY_LARGE_CHUNK_SIZE: usize = 4096;

/// The chunk size of the metadata chain.
pub const METADATA_CHUNK_SIZE: usize = 64;

/// The size of the metadata of one node: one chunk of the metadata chain.
pub const HEADER_SIZE: usize = 64;

/// The alignment of the metadata of one node.
pub const HEADER_ALIGN: usize = 64;

/// The largest size that has a category.
pub const MAX_SIZE: usize = 262144;

/// What size allocator an allocation belongs to
#[derive(PartialEq, Eq, Clone, Copy, Debug, Structural)]
pub enum SizeCategory {
    /// 1 to 7 bytes
    VerySmall,
    /// 8 to 63 bytes
    Small,
    /// 64 to 511 bytes
    Medium,
    /// 512 to 4095 bytes
    Large,
    /// 4096 to 262144 bytes
    VeryLarge,
}

/// The category of each size: sizes 1 to 7 are very small, 8 to 63 small,
/// 64 to 511 medium, 512 to 4095 large, and 4096 to 262144 very large.
/// Size 0 and sizes above 262144 have no category.
pub open spec fn category_of(size: int) -> Option<SizeCategory> {
    if size <= 0 {
        None
    } else if size < 8 {
        Some(SizeCategory::VerySmall)
    } else if size < 64 {
        Some(SizeCategory::Small)
    } else if size < 512 {
        Some(SizeCategory::Medium)
    } else if size < 4096 {
        Some(SizeCategory::Large)
    } else if size <= 262144 {
        Some(SizeCategory::VeryLarge)
    } else {
        None
    }
}

impl SizeCategory {
    /// The least size of the category.
    pub open spec fn low(self) -> int {
        match self {
            SizeCategory::VerySmall => 1,
            SizeCategory::Small => 8,
            SizeCategory::Medium => 64,
            SizeCategory::Large => 512,
            SizeCategory::VeryLarge => 4096,
        }
    }

    /// The least size above the category.
    pub open spec fn high(self) -> int {
        match self {
            SizeCategory::VerySmall => 8,
            SizeCategory::Small => 64,
            SizeCategory::Medium => 512,
            SizeCategory::Large => 4096,
            SizeCategory::VeryLarge => 262145,
        }
    }

    /// The chain that serves the category.
    pub open spec fn bucket(self) -> Bucket {
        match self {
            SizeCategory::VerySmall => Bucket::VerySmall,
            SizeCategory::Small => Bucket::Small,
            SizeCategory::Medium => Bucket::Medium,
            SizeCategory::Large => Bucket::Large,
            SizeCategory::VeryLarge => Bucket::VeryLarge,
        }
    }

    /// The category of the size, if it has one.
    pub fn classify(size: usize) -> (r: Option<Self>)
        ensures
            r == category_of(size as int),
    {
        if size == 0 {
            None
        } else if size < 8 {
            Some(SizeCategory::VerySmall)
        } else if size < 64 {
            Some(SizeCategory::Small)
        } else if size < 512 {
            Some(SizeCategory::Medium)
        } else if size < 4096 {
            Some(SizeCategory::Large)
        } else if size <= MAX_SIZE {
            Some(SizeCategory::VeryLarge)
        } else {
            None
        }
    }

    /// The chain that serves the category.
    pub fn to_bucket(self) -> (r: Bucket)
        ensures
            r == self.bucket(),
    {
        match self {
            SizeCategory::VerySmall => Bucket::VerySmall,
            SizeCategory::Small => Bucket::Small,
            SizeCategory::Medium => Bucket::Medium,
            SizeCategory::Large => Bucket::Large,
            SizeCategory::VeryLarge => Bucket::VeryLarge,
        }
    }
}

/// The categories partition the sizes from 1 to 262144: a size belongs to a
/// category exactly when it lies between the bounds of the category, so no
/// size has two categories, and every size in the range has one.
pub proof fn lemma_categories_partition(size: int, c: SizeCategory, d: SizeCategory)
    ensures
        category_of(size) == Some(c) <==> c.low() <= size < c.high(),
        category_of(size) is Some <==> 1 <= size <= 262144,
        c.low() <= size < c.high() && d.low() <= size < d.high() ==> c == d,
        c.low() < c.high(),
        c != d ==> c.high() <= d.low() || d.high() <= c.low(),
{
}

impl Bucket {
    /// Returns the chunk size of the chain.
    pub fn chunk_size(self) -> (r: usize)
        ensures
            r == self.chunk(),
    {
        match self {
            Bucket::VeryLarge => VERY_LARGE_CHUNK_SIZE,
            Bucket::Metadata => METADATA_CHUNK_SIZE,
            Bucket::Large => LARGE_CHUNK_SIZE,
            Bucket::Medium => MEDIUM_CHUNK_SIZE,
            Bucket::Small => SMALL_CHUNK_SIZE,
            Bucket::VerySmall => VERY_SMALL_CHUNK_SIZE,
        }
    }

    /// Returns the chain that the stacks of this chain are allocated from.
    pub fn parent_bucket(self) -> (r: Option<Bucket>)
        ensures
            r == self.parent(),
    {
        match self {
            Bucket::VeryLarge => None,
            Bucket::Metadata => Some(Bucket::VeryLarge),
            Bucket::Large => Some(Bucket::VeryLarge),
            Bucket::Medium => Some(Bucket::VeryLarge),
            Bucket::Small => Some(Bucket::Large),
            Bucket::VerySmall => Some(Bucket::Medium),
        }
    }
}

/// What a chain head is as a row: its nodes from the head on, the head with
/// its metadata at the address of the box.
pub open spec fn row_of(bucket: Option<MetadataBox<SizedAllocator>>) -> Row {
    match bucket {
        None => Row::empty(),
        Some(b) => Row::of_chain(b.addr(), b.value()@),
    }
}

/// The chain of a well-formed row is a well-formed chain whose stacks lie
/// apart.
pub proof fn lemma_row_of(b: MetadataBox<SizedAllocator>, chunk: int)
    requires
        row_of(Some(b)).wf(chunk),
    ensures
        b.value()@.wf(),
        b.value()@.chunk() == chunk,
        all_apart(b.value()@.stacks),
        row_of(Some(b)).len() >= 1,
        row_of(Some(b)).chain() == b.value()@,
{
    let c = b.value()@;
    let r = row_of(Some(b));
    b.value().lemma_shape();
    assert(r.stacks[0].wf());
    assert(r.headers.skip(1) =~= c.headers);
    assert forall|i: int| #![trigger c.stacks[i]] 0 <= i < c.stacks.len() implies {
        &&& c.stacks[i].wf()
        &&& c.stacks[i].chunk == c.stacks[0].chunk
        &&& c.spaces[i] == 64 - c.stacks[i].height
    } by {
        assert(r.stacks[i].wf());
    }
}

/// The `Buckets` struct contains all the `SizedAllocator`s of different sizes
#[derive(Debug)]
pub struct Buckets {
    /// 1 byte chunk size
    very_small: Option<MetadataBox<SizedAllocator>>,
    /// 8 byte chunk size
    small: Option<MetadataBox<SizedAllocator>>,
    /// 64 byte chunk size
    medium: Option<MetadataBox<SizedAllocator>>,
    /// Another 64-byte chunk size, for the metadata
    metadata: Option<MetadataBox<SizedAllocator>>,
    /// 512 byte chunk size
    large: Option<MetadataBox<SizedAllocator>>,
    /// 4 KiB chunk size
    very_large: Option<MetadataBox<SizedAllocator>>,
}

impl View for Buckets {
    type V = BucketsView;

    closed spec fn view(&self) -> BucketsView {
        BucketsView {
            very_large: row_of(self.very_large),
            metadata: row_of(self.metadata),
            large: row_of(self.large),
            medium: row_of(self.medium),
            small: row_of(self.small),
            very_small: row_of(self.very_small),
        }
    }
}

impl Default for Buckets {
    fn default() -> (r: Self)
        ensures
            r@ == BucketsView::empty(),
            r@.inv(),
    {
        Buckets::new()
    }
}

impl Buckets {
    /// Creates the six chains, none of them started.
    pub fn new() -> (r: Self)
        ensures
            r@ == BucketsView::empty(),
            r@.inv(),
    {
        Buckets {
            very_small: None,
            small: None,
            medium: None,
            metadata: None,
            large: None,
            very_large: None,
        }
    }

    /// Takes the chain of the bucket out, and leaves the bucket without one.
    fn take_chain(&mut self, k: Bucket) -> (chain: Option<MetadataBox<SizedAllocator>>)
        ensures
            row_of(chain) == old(self)@.row(k),
            final(self)@ == old(self)@.with_row(k, Row::empty()),
    {
        match k {
            Bucket::VeryLarge => self.very_large.take(),
            Bucket::Metadata => self.metadata.take(),
            Bucket::Large => self.large.take(),
            Bucket::Medium => self.medium.take(),
            Bucket::Small => self.small.take(),
            Bucket::VerySmall => self.very_small.take(),
        }
    }

    /// Makes the chain the chain of the bucket.
    fn put_chain(&mut self, k: Bucket, chain: Option<MetadataBox<SizedAllocator>>)
        ensures
            final(self)@ == old(self)@.with_row(k, row_of(chain)),
    {
        match k {
            Bucket::VeryLarge => {
                self.very_large = chain;
            },
            Bucket::Metadata => {
                self.metadata = chain;
            },
            Bucket::Large => {
                self.large = chain;
            },
            Bucket::Medium => {
                self.medium = chain;
            },
            Bucket::Small => {
                self.small = chain;
            },
            Bucket::VerySmall => {
                self.very_small = chain;
            },
        }
    }

    /// Serves the request from the chain of the bucket as it stands, from
    /// the first node that has room for it.
    fn chain_allocate(&mut self, k: Bucket, size: usize, align: usize) -> (r: Result<
        usize,
        AllocErr,
    >)
        requires
            old(self)@.inv(),
            size > 0,
            is_pow2(align as int),
        ensures
            final(self)@.inv(),
            old(self)@.kept_in(final(self)@),
            r is Ok <==> old(self)@.row(k).can_alloc(size as int, align as int),
            r matches Ok(ptr) ==> {
                &&& ptr == old(self)@.row(k).alloc_addr(size as int, align as int)
                &&& final(self)@ == old(self)@.with_row(
                    k,
                    old(self)@.row(k).allocated(size as int, align as int),
                )
                &&& final(self)@.free_held(k, ptr as int, size as int)
                &&& ptr % align == 0
                &&& forall|q: int, t: int| #[trigger]
                    old(self)@.row(k).holds(q, t) ==> !overlap(ptr as int, size as int, q, t)
                &&& old(self)@.only_from_or(final(self)@, k, ptr as int, size as int)
            },
            r is Err ==> final(self)@ == old(self)@,
            final(self)@.blocks_in(old(self)@),
    {
        let ghost before = self@;
        proof {
            assert(before.row(k).wf(k.chunk()));
        }
        match self.take_chain(k) {
            None => {
                self.put_chain(k, None);
                proof {
                    lemma_with_row(before, k, Row::empty());
                    assert(self@ == before);
                }
                Err(AllocErr::OutOfCapacity)
            },
            Some(mut b) => {
                let ghost chain = b.value()@;
                proof {
                    b.lemma_parts();
                    lemma_row_of(b, k.chunk());
                }
                let r = (&mut *b.data).allocate(size, align);
                proof {
                    b.lemma_parts();
                }
                let ghost row = row_of(Some(b));
                self.put_chain(k, Some(b));
                proof {
                    if r is Ok {
                        assert(row == before.row(k).allocated(size as int, align as int));
                        assert(self@ == before.with_row(k, row));
                        lemma_step_allocated(before, k, size as int, align as int);
                        lemma_allocated_only(before, k, size as int, align as int);
                        lemma_blocks_same_places(before, k, row);
                    } else {
                        assert(row == before.row(k));
                        assert(self@ == before);
                    }
                }
                r
            },
        }
    }

    /// Puts a new node with an empty stack at `memory` in front of the
    /// chain of the bucket, with its metadata at `header`.
    fn push_node(&mut self, k: Bucket, memory: usize, header: usize)
        requires
            old(self)@.inv(),
            k != Bucket::Metadata,
            StackView::valid_geometry(memory as int, k.chunk()),
            k.parent() matches Some(p) ==> old(self)@.free_held(p, memory as int, k.stack_bytes()),
            k == Bucket::VeryLarge ==> memory > 0 && old(self)@.block_apart(memory as int),
            old(self)@.free_held(Bucket::Metadata, header as int, 64),
        ensures
            final(self)@ == old(self)@.with_row(
                k,
                old(self)@.row(k).pushed(StackView::empty(memory as int, k.chunk()), header as int),
            ),
            final(self)@.inv(),
            kept_but_node(old(self)@, final(self)@, k, memory as int, header as int),
            only_from_but_node(old(self)@, final(self)@, k, memory as int, header as int),
            final(self)@.blocks_in_or(old(self)@, memory as int),
            k != Bucket::VeryLarge ==> final(self)@.blocks_in(old(self)@),
    {
        let ghost before = self@;
        proof {
            assert(before.row(k).wf(k.chunk()));
        }
        let old_chain = self.take_chain(k);
        proof {
            if old_chain is Some {
                lemma_row_of(old_chain->Some_0, k.chunk());
            }
        }
        let node = SizedAllocator::from_memory_chunk(k.chunk_size(), memory, old_chain);
        let chain = MetadataBox::from_pointer_data(header, node);
        proof {
            let head = StackView::empty(memory as int, k.chunk());
            let row = before.row(k).pushed(head, header as int);
            assert(row_of(Some(chain)).stacks =~= row.stacks);
            assert(row_of(Some(chain)).spaces =~= row.spaces);
            assert(row_of(Some(chain)).headers =~= row.headers);
            lemma_step_pushed(before, k, memory as int, header as int);
            lemma_step_pushed_only(before, k, memory as int, header as int);
            lemma_blocks_pushed(before, k, head, header as int);
        }
        self.put_chain(k, Some(chain));
        proof {
            lemma_with_row(before, k, Row::empty());
        }
    }

    /// Puts a new node in front of the metadata chain, with its stack at
    /// `memory` and its own metadata in the first chunk of that stack.
    fn push_metadata_node(&mut self, memory: usize)
        requires
            old(self)@.inv(),
            StackView::valid_geometry(memory as int, 64),
            old(self)@.free_held(Bucket::VeryLarge, memory as int, 4096),
        ensures
            final(self)@ == old(self)@.with_row(
                Bucket::Metadata,
                old(self)@.metadata.pushed(metadata_head(memory as int), memory as int),
            ),
            final(self)@.inv(),
            old(self)@.kept_but(final(self)@, Bucket::VeryLarge, memory as int, 4096),
            old(self)@.only_from_but(final(self)@, Bucket::VeryLarge, memory as int, 4096),
            final(self)@.blocks_in(old(self)@),
    {
        let ghost before = self@;
        let k = Bucket::Metadata;
        proof {
            assert(before.row(k).wf(k.chunk()));
            lemma_metadata_heads(memory as int);
            assert(is_pow2(64)) by {
                reveal_with_fuel(is_pow2, 8);
            }
        }
        let old_chain = self.take_chain(k);
        proof {
            if old_chain is Some {
                lemma_row_of(old_chain->Some_0, k.chunk());
            }
        }
        let mut node = SizedAllocator::from_memory_chunk(METADATA_CHUNK_SIZE, memory, old_chain);
        let header = node.allocate(HEADER_SIZE, HEADER_ALIGN).unwrap();
        let chain = MetadataBox::from_pointer_data(header, node);
        proof {
            let row = before.row(k).pushed(metadata_head(memory as int), memory as int);
            assert(row_of(Some(chain)).stacks =~= row.stacks);
            assert(row_of(Some(chain)).spaces =~= row.spaces);
            assert(row_of(Some(chain)).headers =~= row.headers);
            lemma_step_pushed_metadata(before, memory as int);
            lemma_step_pushed_metadata_only(before, memory as int);
            lemma_blocks_pushed(before, k, metadata_head(memory as int), memory as int);
        }
        self.put_chain(k, Some(chain));
        proof {
            lemma_with_row(before, k, Row::empty());
        }
    }

    /// Takes up a block without a free metadata chunk to go with it: puts
    /// a new node over the block in front of the very large chain, makes
    /// the first chunk of the block the stack of a new node in front of the
    /// metadata chain, and stores the metadata of both nodes in the first
    /// two chunks of that stack.
    fn bootstrap(&mut self, block: usize)
        requires
            old(self)@.inv(),
            valid_block(block as int),
            old(self)@.block_apart(block as int),
        ensures
            final(self)@ == old(self)@.bootstrapped(block as int),
            final(self)@.inv(),
            old(self)@.kept_in(final(self)@),
            old(self)@.only_from(final(self)@),
            final(self)@.blocks_in_or(old(self)@, block as int),
    {
        let ghost before = self@;
        proof {
            lemma_blocks_with_block(before, block as int);
            assert(before.row(Bucket::VeryLarge).wf(Bucket::VeryLarge.chunk()));
            assert(before.row(Bucket::Metadata).wf(Bucket::Metadata.chunk()));
            lemma_valid_block(block as int);
            lemma_very_large_head(block as int);
            lemma_metadata_heads(block as int);
            assert(is_pow2(64)) by {
                reveal_with_fuel(is_pow2, 8);
            }
        }
        let old_very_large = self.take_chain(Bucket::VeryLarge);
        proof {
            if old_very_large is Some {
                lemma_row_of(old_very_large->Some_0, 4096);
            }
        }
        let mut new_alloc = SizedAllocator::from_memory_chunk(
            VERY_LARGE_CHUNK_SIZE,
            block,
            old_very_large,
        );
        let metadata_memory = new_alloc.allocate(
            METADATA_CHUNK_SIZE * STACK_SIZE,
            METADATA_CHUNK_SIZE,
        ).unwrap();
        let old_metadata = self.take_chain(Bucket::Metadata);
        proof {
            if old_metadata is Some {
                lemma_row_of(old_metadata->Some_0, 64);
            }
        }
        let mut metadata_alloc = SizedAllocator::from_memory_chunk(
            METADATA_CHUNK_SIZE,
            metadata_memory,
            old_metadata,
        );
        let metadata_alloc_place = metadata_alloc.allocate(HEADER_SIZE, HEADER_ALIGN).unwrap();
        let new_alloc_place = metadata_alloc.allocate(HEADER_SIZE, HEADER_ALIGN).unwrap();
        let metadata_chain = MetadataBox::from_pointer_data(metadata_alloc_place, metadata_alloc);
        let very_large_chain = MetadataBox::from_pointer_data(new_alloc_place, new_alloc);
        proof {
            let row_n = before.very_large.pushed(very_large_head(block as int), block + 64);
            let row_m = before.metadata.pushed(metadata_head_shared(block as int), block as int);
            assert(row_of(Some(very_large_chain)).stacks =~= row_n.stacks);
            assert(row_of(Some(very_large_chain)).spaces =~= row_n.spaces);
            assert(row_of(Some(very_large_chain)).headers =~= row_n.headers);
            assert(row_of(Some(metadata_chain)).stacks =~= row_m.stacks);
            assert(row_of(Some(metadata_chain)).spaces =~= row_m.spaces);
            assert(row_of(Some(metadata_chain)).headers =~= row_m.headers);
            lemma_step_bootstrap(before, block as int);
            lemma_step_bootstrap_only(before, block as int);
        }
        self.put_chain(Bucket::Metadata, Some(metadata_chain));
        self.put_chain(Bucket::VeryLarge, Some(very_large_chain));
    }

    /// Looks at a block that the memory source returned, and takes it only
    /// where it can be the stack of a node of the very large chain: the
    /// address is not null and aligned to 4 KiB, the block ends below the
    /// end of the address space, and it has no byte in common with a block
    /// that the chain holds already.
    pub fn accept_block(&self, block: Option<usize>) -> (r: Option<usize>)
        requires
            self@.inv(),
        ensures
            r == if self@.accepts(block) {
                block
            } else {
                None
            },
    {
        match block {
            None => None,
            Some(b) => {
                if b == 0 || b % BLOCK_ALIGN != 0 || b > usize::MAX - BLOCK_SIZE {
                    None
                } else {
                    proof {
                        assert(self@.row(Bucket::VeryLarge).wf(Bucket::VeryLarge.chunk()));
                    }
                    let clash = match &self.very_large {
                        None => false,
                        Some(chain) => {
                            proof {
                                lemma_row_of(*chain, 4096);
                                lemma_block_clash(chain.value()@.stacks, b as int);
                            }
                            chain.get().owns(b) || chain.get().owns(b + (BLOCK_SIZE - 1))
                        },
                    };
                    if clash {
                        None
                    } else {
                        Some(b)
                    }
                }
            },
        }
    }

    /// Takes up the block that the memory source returned, if it returned
    /// one that can be taken, as the stack of a new node at the head of the
    /// very large chain.
    pub fn install_block(&mut self, block: Option<usize>) -> (r: Result<(), AllocErr>)
        requires
            old(self)@.inv(),
        ensures
            final(self)@.inv(),
            old(self)@.kept_in(final(self)@),
            old(self)@.only_from(final(self)@),
            r is Ok <==> old(self)@.accepts(block),
            r is Ok ==> final(self)@ == old(self)@.with_block(block->Some_0 as int),
            r matches Err(e) ==> e == AllocErr::OutOfMemory && final(self)@ == old(self)@,
            r is Ok ==> final(self)@.blocks_in_or(old(self)@, block->Some_0 as int),
    {
        let ghost before = self@;
        proof {
            if block is Some {
                lemma_blocks_with_block(before, block->Some_0 as int);
            }
        }
        match self.accept_block(block) {
            None => Err(AllocErr::OutOfMemory),
            Some(memory) => {
                proof {
                    lemma_valid_block(memory as int);
                    assert(is_pow2(64)) by {
                        reveal_with_fuel(is_pow2, 8);
                    }
                }
                match self.chain_allocate(Bucket::Metadata, HEADER_SIZE, HEADER_ALIGN) {
                    Ok(header) => {
                        let ghost middle = self@;
                        proof {
                            lemma_with_row(
                                before,
                                Bucket::Metadata,
                                before.metadata.allocated(64, 64),
                            );
                            assert(middle.very_large == before.very_large);
                        }
                        self.push_node(Bucket::VeryLarge, memory, header);
                        proof {
                            assert forall|k: Bucket, q: int, t: int| #[trigger]
                                before.free_held(k, q, t) implies self@.free_held(k, q, t) by {
                                assert(middle.free_held(k, q, t));
                                if k == Bucket::Metadata {
                                    assert(before.row(Bucket::Metadata).holds(q, t));
                                }
                            }
                            assert forall|l: Bucket, a: int| #[trigger]
                                self@.free_held(l, a, 1) implies before.free_held(l, a, 1) by {
                                assert(middle.free_held(l, a, 1));
                            }
                        }
                    },
                    Err(_) => {
                        self.bootstrap(memory);
                    },
                }
                Ok(())
            },
        }
    }

    /// Takes up the block that the memory source returned, if it returned
    /// one that can be taken, with a new node of the metadata chain in its
    /// first chunk.
    pub fn install_metadata_block(&mut self, block: Option<usize>) -> (r: Result<(), AllocErr>)
        requires
            old(self)@.inv(),
        ensures
            final(self)@.inv(),
            old(self)@.kept_in(final(self)@),
            old(self)@.only_from(final(self)@),
            r is Ok <==> old(self)@.accepts(block),
            r is Ok ==> final(self)@ == old(self)@.bootstrapped(block->Some_0 as int),
            r matches Err(e) ==> e == AllocErr::OutOfMemory && final(self)@ == old(self)@,
            r is Ok ==> final(self)@.blocks_in_or(old(self)@, block->Some_0 as int),
    {
        match self.accept_block(block) {
            None => Err(AllocErr::OutOfMemory),
            Some(memory) => {
                self.bootstrap(memory);
                Ok(())
            },
        }
    }

    /// Takes back the `size` bytes at `ptr` from the chain of the bucket,
    /// and says what the chain said.
    fn chain_dealloc(&mut self, k: Bucket, ptr: usize, size: usize) -> (r: DeallocResponse)
        requires
            old(self)@.inv(),
            old(self)@.free_held(k, ptr as int, size as int),
        ensures
            final(self)@ == old(self)@.with_row(
                k,
                old(self)@.row(k).deallocated(ptr as int, size as int),
            ),
            final(self)@.inv(),
            old(self)@.kept_but(final(self)@, k, ptr as int, size as int),
            only_from_or_node(
                old(self)@,
                final(self)@,
                k,
                ptr as int,
                size as int,
                r is FreeAllocator,
                old(self)@.row(k).stacks[old(self)@.row(k).owner(ptr as int)].base,
                old(self)@.row(k).headers[old(self)@.row(k).owner(ptr as int)],
            ),
            r is FreeAllocator <==> old(self)@.row(k).collapses(ptr as int, size as int),
            k == Bucket::Metadata ==> r is Nothing,
            r matches DeallocResponse::FreeAllocator(node) ==> {
                let j = old(self)@.row(k).owner(ptr as int);
                let stack = old(self)@.row(k).stacks[j];
                &&& 0 < j < old(self)@.row(k).len()
                &&& node.addr() == old(self)@.row(k).headers[j]
                &&& node.value()@ == ChainView::single(stack.deallocated(ptr as int, size as int))
                &&& stack.chunk == k.chunk()
                &&& stack.wf()
                &&& k != Bucket::Metadata
                &&& k.parent() matches Some(p) ==> final(self)@.free_held(
                    p,
                    stack.base,
                    k.stack_bytes(),
                )
                &&& final(self)@.free_held(Bucket::Metadata, node.addr(), 64)
            },
    {
        let ghost before = self@;
        proof {
            assert(before.row(k).wf(k.chunk()));
            lemma_step_deallocated(before, k, ptr as int, size as int);
            let after = before.with_row(k, before.row(k).deallocated(ptr as int, size as int));
            assert forall|l: Bucket, a: int| #[trigger] after.free_held(l, a, 1) implies (
            before.free_held(l, a, 1) && !(l == k && overlap(a, 1, ptr as int, size as int))) || (
            before.row(k).collapses(ptr as int, size as int) && ((k.parent() == Some(l) && overlap(
                a,
                1,
                before.row(k).stacks[before.row(k).owner(ptr as int)].base,
                k.stack_bytes(),
            )) || (l == Bucket::Metadata && overlap(
                a,
                1,
                before.row(k).headers[before.row(k).owner(ptr as int)],
                64,
            )))) by {
                lemma_deallocated_only(before, k, ptr as int, size as int, l, a);
            }
        }
        let mut chain = self.take_chain(k).unwrap();
        proof {
            chain.lemma_parts();
            lemma_row_of(chain, k.chunk());
        }
        let ghost links = chain.value()@;
        let r = (&mut *chain.data).dealloc(ptr, size);
        proof {
            chain.lemma_parts();
            let row = before.row(k).deallocated(ptr as int, size as int);
            assert(row_of(Some(chain)).stacks =~= row.stacks);
            assert(row_of(Some(chain)).spaces =~= row.spaces);
            assert(row_of(Some(chain)).headers =~= row.headers);
            let j = before.row(k).owner(ptr as int);
            assert(before.row(k).stacks[j].wf());
        }
        self.put_chain(k, Some(chain));
        proof {
            lemma_with_row(before, k, Row::empty());
        }
        r
    }

    /// Takes back the `size` bytes at `ptr` from the chain of the bucket.
    /// Where that empties a node that is not the head of the chain, the
    /// node's stack goes back to the parent chain and its metadata to the
    /// metadata chain. The stack of a node of the very large chain is a
    /// block of the memory source, which takes nothing back: it is left
    /// alone.
    fn dealloc_in(&mut self, k: Bucket, ptr: usize, size: usize)
        requires
            old(self)@.inv(),
            old(self)@.free_held(k, ptr as int, size as int),
        ensures
            final(self)@ == old(self)@.deallocated(k, ptr as int, size as int),
            final(self)@.inv(),
            old(self)@.kept_but(final(self)@, k, ptr as int, size as int),
            old(self)@.only_from_but(final(self)@, k, ptr as int, size as int),
            final(self)@.blocks_in(old(self)@),
        decreases k.depth(),
    {
        let ghost before = self@;
        proof {
            lemma_blocks_deallocated(before, k, ptr as int, size as int);
        }
        if let DeallocResponse::FreeAllocator(allocator) = self.chain_dealloc(k, ptr, size) {
            let ghost first = self@;
            let ghost j = before.row(k).owner(ptr as int);
            proof {
                assert(before.has(k, j));
                crate::arith::lemma_pow2_positive(k.chunk());
            }
            let stack_size = allocator.get().chunk_size() * STACK_SIZE;
            let stack_ptr = allocator.get().stack_pointer();
            let header = allocator.into_raw();
            if let Some(parent) = k.parent_bucket() {
                self.dealloc_in(parent, stack_ptr, stack_size);
            }
            let ghost second = self@;
            let _ = self.chain_dealloc(Bucket::Metadata, header, HEADER_SIZE);
            proof {
                assert forall|l: Bucket, q: int, t: int| #[trigger]
                    before.free_held(l, q, t) && !(l == k && overlap(
                        ptr as int,
                        size as int,
                        q,
                        t,
                    )) implies self@.free_held(l, q, t) by {
                    assert(first.free_held(l, q, t));
                    assert(!overlap(q, t, before.base(k, j), k.stack_bytes()) || k.parent()
                        != Some(l));
                    assert(second.free_held(l, q, t));
                    if l == Bucket::Metadata {
                        assert(!overlap(q, t, before.header(k, j), 64));
                    }
                }
                assert forall|l: Bucket, a: int| #[trigger]
                    self@.free_held(l, a, 1) implies before.free_held(l, a, 1) && !(l == k
                    && overlap(a, 1, ptr as int, size as int)) by {
                    assert(second.free_held(l, a, 1));
                    assert(first.free_held(l, a, 1));
                }
            }
        }
    }

    /// Cuts the allocation at `ptr` down from `old_size` to `new_size`
    /// bytes, in the chain of the bucket.
    fn chain_shrink(&mut self, k: Bucket, ptr: usize, old_size: usize, new_size: usize)
        requires
            old(self)@.inv(),
            old(self)@.free_held(k, ptr as int, old_size as int),
            0 < new_size <= old_size,
        ensures
            final(self)@ == old(self)@.with_row(
                k,
                old(self)@.row(k).shrunk(ptr as int, old_size as int, new_size as int),
            ),
            final(self)@.inv(),
            old(self)@.kept_but(final(self)@, k, ptr as int, old_size as int),
            old(self)@.only_from_shrunk(
                final(self)@,
                k,
                ptr as int,
                old_size as int,
                new_size as int,
            ),
            final(self)@.free_held(k, ptr as int, new_size as int),
            final(self)@.blocks_in(old(self)@),
    {
        let ghost before = self@;
        proof {
            assert(before.row(k).wf(k.chunk()));
            lemma_step_shrunk(before, k, ptr as int, old_size as int, new_size as int);
            lemma_blocks_same_places(
                before,
                k,
                before.row(k).shrunk(ptr as int, old_size as int, new_size as int),
            );
            let after = before.with_row(
                k,
                before.row(k).shrunk(ptr as int, old_size as int, new_size as int),
            );
            assert forall|l: Bucket, a: int| #[trigger] after.free_held(l, a, 1) implies before.free_held(
                l,
                a,
                1,
            ) && (l == k && overlap(a, 1, ptr as int, old_size as int) ==> overlap(
                a,
                1,
                ptr as int,
                new_size as int,
            )) by {
                lemma_shrunk_only(before, k, ptr as int, old_size as int, new_size as int, l, a);
            }
        }
        let mut chain = self.take_chain(k).unwrap();
        proof {
            chain.lemma_parts();
            lemma_row_of(chain, k.chunk());
        }
        (&mut *chain.data).shrink_in_place(ptr, old_size, new_size);
        proof {
            chain.lemma_parts();
            let row = before.row(k).shrunk(ptr as int, old_size as int, new_size as int);
            assert(row_of(Some(chain)).stacks =~= row.stacks);
            assert(row_of(Some(chain)).spaces =~= row.spaces);
            assert(row_of(Some(chain)).headers =~= row.headers);
        }
        self.put_chain(k, Some(chain));
        proof {
            lemma_with_row(before, k, Row::empty());
        }
    }

    /// Extends the allocation at `ptr` from `old_size` to `new_size` bytes
    /// where it stands, in the chain of the bucket, or fails where the
    /// chunks above it are not free.
    fn chain_grow(&mut self, k: Bucket, ptr: usize, old_size: usize, new_size: usize) -> (r: Result<
        (),
        CannotReallocInPlace,
    >)
        requires
            old(self)@.inv(),
            old(self)@.free_held(k, ptr as int, old_size as int),
            old_size <= new_size,
        ensures
            final(self)@.inv(),
            old(self)@.kept_in(final(self)@),
            r is Ok <==> old(self)@.row(k).can_grow(ptr as int, old_size as int, new_size as int),
            r is Ok ==> {
                &&& final(self)@ == old(self)@.with_row(
                    k,
                    old(self)@.row(k).grown(ptr as int, old_size as int, new_size as int),
                )
                &&& final(self)@.free_held(k, ptr as int, new_size as int)
                &&& forall|q: int, t: int| #[trigger]
                    old(self)@.row(k).holds(q, t) && !overlap(ptr as int, old_size as int, q, t)
                        ==> !overlap(ptr as int, new_size as int, q, t)
                &&& old(self)@.only_from_or(final(self)@, k, ptr as int, new_size as int)
            },
            r is Err ==> final(self)@ == old(self)@,
            final(self)@.blocks_in(old(self)@),
    {
        let ghost before = self@;
        proof {
            assert(before.row(k).wf(k.chunk()));
            if before.row(k).can_grow(ptr as int, old_size as int, new_size as int) {
                lemma_step_grown(before, k, ptr as int, old_size as int, new_size as int);
                lemma_blocks_same_places(
                    before,
                    k,
                    before.row(k).grown(ptr as int, old_size as int, new_size as int),
                );
                let after = before.with_row(
                    k,
                    before.row(k).grown(ptr as int, old_size as int, new_size as int),
                );
                assert forall|l: Bucket, a: int| #[trigger]
                    after.free_held(l, a, 1) implies before.free_held(l, a, 1) || (l == k
                    && overlap(a, 1, ptr as int, new_size as int)) by {
                    lemma_grown_only(
                        before,
                        k,
                        ptr as int,
                        old_size as int,
                        new_size as int,
                        l,
                        a,
                    );
                }
            }
        }
        let mut chain = self.take_chain(k).unwrap();
        proof {
            chain.lemma_parts();
            lemma_row_of(chain, k.chunk());
        }
        let r = (&mut *chain.data).grow_in_place(ptr, old_size, new_size);
        proof {
            chain.lemma_parts();
            let row = if r is Ok {
                before.row(k).grown(ptr as int, old_size as int, new_size as int)
            } else {
                before.row(k)
            };
            assert(row_of(Some(chain)).stacks =~= row.stacks);
            assert(row_of(Some(chain)).spaces =~= row.spaces);
            assert(row_of(Some(chain)).headers =~= row.headers);
        }
        self.put_chain(k, Some(chain));
        proof {
            lemma_with_row(before, k, Row::empty());
            if r is Err {
                assert(self@ == before);
            }
        }
        r
    }

    /// Returns the number of nodes of the chain of the bucket, or
    /// `usize::MAX` where there are more.
    pub fn chain_len(&self, k: Bucket) -> (r: usize)
        ensures
            r == if self@.row(k).len() <= usize::MAX {
                self@.row(k).len()
            } else {
                usize::MAX as int
            },
    {
        match self.chain_ref(k) {
            None => 0,
            Some(b) => b.get().len(),
        }
    }

    /// Returns `true` iff the chain of the bucket has a head whose stack
    /// has handed out nothing.
    pub fn head_is_empty(&self, k: Bucket) -> (r: bool)
        ensures
            r == (self@.row(k).len() > 0 && self@.row(k).stacks[0].height == 0),
    {
        match self.chain_ref(k) {
            None => false,
            Some(b) => {
                proof {
                    b.value().lemma_shape();
                }
                b.get().is_empty()
            },
        }
    }

    /// Returns the cached count of free chunks of the head of the chain of
    /// the bucket, if the chain has a head.
    pub fn head_space(&self, k: Bucket) -> (r: Option<usize>)
        ensures
            r is Some <==> self@.row(k).len() > 0,
            r matches Some(space) ==> space == self@.row(k).spaces[0],
    {
        match self.chain_ref(k) {
            None => None,
            Some(b) => {
                proof {
                    b.value().lemma_shape();
                }
                Some(b.get().largest_space_left())
            },
        }
    }

    /// The chain of the bucket, to look at.
    fn chain_ref(&self, k: Bucket) -> (chain: &Option<MetadataBox<SizedAllocator>>)
        ensures
            row_of(*chain) == self@.row(k),
    {
        match k {
            Bucket::VeryLarge => &self.very_large,
            Bucket::Metadata => &self.metadata,
            Bucket::Large => &self.large,
            Bucket::Medium => &self.medium,
            Bucket::Small => &self.small,
            Bucket::VerySmall => &self.very_small,
        }
    }

    /// Returns whether the `size` bytes at `ptr` have no byte in common
    /// with the stack of a node of the chain of the bucket.
    fn clear_of_chain(&self, k: Bucket, ptr: usize, size: usize) -> (r: bool)
        requires
            self@.inv(),
        ensures
            r == clear_of_all(self@.row(k).stacks, ptr as int, size as int),
    {
        proof {
            assert(self@.row(k).wf(k.chunk()));
        }
        match self.chain_ref(k) {
            None => true,
            Some(chain) => {
                proof {
                    lemma_row_of(*chain, k.chunk());
                }
                chain.get().clear_of(ptr, size)
            },
        }
    }

    /// Returns the owner of the given address for an allocation of the
    /// given size: the bucket of the size's category, if a node of its chain
    /// owns the address; or `None` if no allocator claims to own it.
    pub fn owner_of(&self, ptr: usize, size: usize) -> (r: Option<Bucket>)
        requires
            self@.inv(),
        ensures
            r == self@.owner_of(ptr as int, size as int),
    {
        match SizeCategory::classify(size) {
            None => None,
            Some(category) => {
                let k = category.to_bucket();
                proof {
                    assert(self@.row(k).wf(k.chunk()));
                }
                let owns = match self.chain_ref(k) {
                    None => false,
                    Some(chain) => {
                        proof {
                            lemma_row_of(*chain, k.chunk());
                        }
                        chain.get().owns(ptr)
                    },
                };
                if owns {
                    Some(k)
                } else {
                    None
                }
            },
        }
    }

    /// Returns whether `size` bytes at `ptr` are an allocation that a
    /// caller of the allocator holds: the chain of the size's category
    /// hands them out, and they are no part of the stack of a node.
    pub fn user_holds(&self, ptr: usize, size: usize) -> (r: bool)
        requires
            self@.inv(),
        ensures
            r == self@.user_held(ptr as int, size as int),
    {
        let category = match SizeCategory::classify(size) {
            None => {
                return false;
            },
            Some(category) => category,
        };
        let k = category.to_bucket();
        proof {
            assert(self@.row(k).wf(k.chunk()));
        }
        let held = match self.chain_ref(k) {
            None => false,
            Some(chain) => {
                proof {
                    lemma_row_of(*chain, k.chunk());
                }
                chain.get().holds(ptr, size)
            },
        };
        if !held {
            return false;
        }
        let clear = match k {
            Bucket::VeryLarge => self.clear_of_chain(Bucket::Medium, ptr, size)
                && self.clear_of_chain(Bucket::Metadata, ptr, size) && self.clear_of_chain(
                Bucket::Large,
                ptr,
                size,
            ),
            Bucket::Large => self.clear_of_chain(Bucket::Small, ptr, size),
            Bucket::Medium => self.clear_of_chain(Bucket::VerySmall, ptr, size),
            _ => true,
        };
        proof {
            lemma_clear_of(self@, k, ptr as int, size as int);
        }
        clear
    }
}

/// A valid block is a valid place for a stack of 4 KiB chunks.
pub proof fn lemma_valid_block(block: int)
    ensures
        valid_block(block) ==> StackView::valid_geometry(block, 4096),
        StackView::valid_geometry(block, 4096) && block != 0 ==> valid_block(block),
{
    assert(is_pow2(4096)) by {
        reveal_with_fuel(is_pow2, 14);
    }
}

/// A block has a byte in common with one of the stacks of 4 KiB chunks
/// exactly when its first or its last byte lies in one of them.
pub proof fn lemma_block_clash(stacks: Seq<StackView>, block: int)
    requires
        crate::sized_allocator::all_wf(stacks, 4096),
    ensures
        (first_owner(stacks, block) < stacks.len() || first_owner(stacks, block + 262143)
            < stacks.len()) <==> !(forall|i: int|
            0 <= i < stacks.len() ==> StackView::empty(block, 4096).apart(#[trigger] stacks[i])),
{
    lemma_first_owner(stacks, block);
    lemma_first_owner(stacks, block + 262143);
    let a = first_owner(stacks, block);
    let b = first_owner(stacks, block + 262143);
    if a < stacks.len() {
        assert(!StackView::empty(block, 4096).apart(stacks[a]));
    } else if b < stacks.len() {
        assert(!StackView::empty(block, 4096).apart(stacks[b]));
    } else {
        assert forall|i: int| 0 <= i < stacks.len() implies StackView::empty(block, 4096).apart(
            #[trigger] stacks[i],
        ) by {
            assert(!stacks[i].owns(block));
            assert(!stacks[i].owns(block + 262143));
            assert(stacks[i].wf());
        }
    }
}

/// Whether every stack of the very large chain in `after` lies where one
/// lay in `before`, or at a block that the memory source may give.
pub open spec fn blocks_given<S: MemorySource>(
    source: S,
    before: BucketsView,
    after: BucketsView,
) -> bool {
    forall|base: int| #[trigger]
        after.has_block(base) ==> before.has_block(base) || (0 <= base <= usize::MAX
            && source.may_give(Some(base as usize)))
}

/// Blocks that lie where blocks lay are blocks that were given.
pub proof fn lemma_blocks_given<S: MemorySource>(
    source: S,
    u: BucketsView,
    v: BucketsView,
    w: BucketsView,
)
    requires
        blocks_given(source, u, v),
        w.blocks_in(v) || blocks_given(source, v, w),
    ensures
        blocks_given(source, u, w),
{
    assert forall|base: int| #[trigger] w.has_block(base) implies u.has_block(base) || (0 <= base
        <= usize::MAX && source.may_give(Some(base as usize))) by {
        if v.has_block(base) {
        }
    }
}

/// Every bucket has a chunk size that is a power of two.
pub proof fn lemma_bucket_chunk(k: Bucket)
    ensures
        is_pow2(k.chunk()),
        is_pow2(64),
        1 <= k.chunk() <= 4096,
{
    reveal_with_fuel(is_pow2, 14);
}

/// The `BucketedAllocator` buckets allocations into very small (size < 8 bytes), small (size < 64
/// bytes), medium (size < 512 bytes), large (size < 4 KiB) and very large (up to 256 KiB).
///
/// It holds the six chains and the memory source that the blocks of the
/// very large chain come from.
#[derive(Debug)]
pub struct BucketedAllocator<S: MemorySource> {
    buckets: Buckets,
    source: S,
}

impl<S: MemorySource> View for BucketedAllocator<S> {
    type V = BucketsView;

    closed spec fn view(&self) -> BucketsView {
        self.buckets@
    }
}

impl<S: MemorySource> BucketedAllocator<S> {
    /// The memory source that the blocks of the very large chain come
    /// from.
    pub closed spec fn source(&self) -> S {
        self.source
    }

    /// Creates a new `BucketedAllocator` over the chains, without allocating any memory.
    ///
    /// The first allocation will get a block from the memory source and initialize the necessary
    /// allocators.
    pub fn new(buckets: Buckets, source: S) -> (r: Self)
        ensures
            r@ == buckets@,
            r.source() == source,
    {
        BucketedAllocator { buckets, source }
    }

    /// Returns the number of nodes of the chain of the bucket, or
    /// `usize::MAX` where there are more.
    pub fn chain_len(&self, k: Bucket) -> (r: usize)
        ensures
            r == if self@.row(k).len() <= usize::MAX {
                self@.row(k).len()
            } else {
                usize::MAX as int
            },
    {
        self.buckets.chain_len(k)
    }

    /// Returns `true` iff the chain of the bucket has a head whose stack
    /// has handed out nothing.
    pub fn head_is_empty(&self, k: Bucket) -> (r: bool)
        ensures
            r == (self@.row(k).len() > 0 && self@.row(k).stacks[0].height == 0),
    {
        self.buckets.head_is_empty(k)
    }

    /// Returns the cached count of free chunks of the head of the chain of
    /// the bucket, if the chain has a head.
    pub fn head_space(&self, k: Bucket) -> (r: Option<usize>)
        ensures
            r is Some <==> self@.row(k).len() > 0,
            r matches Some(space) ==> space == self@.row(k).spaces[0],
    {
        self.buckets.head_space(k)
    }

    /// Returns whether `size` bytes at `ptr` are an allocation that a
    /// caller of the allocator holds: the chain of the size's category
    /// hands them out, and they are no part of the stack of a node.
    pub fn user_holds(&self, ptr: usize, size: usize) -> (r: bool)
        requires
            self@.inv(),
        ensures
            r == self@.user_held(ptr as int, size as int),
    {
        self.buckets.user_holds(ptr, size)
    }

    /// Returns the owner of the given address for an allocation of the
    /// given size: the bucket of the size's category, if a node of its chain
    /// owns the address; or `None` if no allocator claims to own it.
    pub fn owner_of(&self, ptr: usize, size: usize) -> (r: Option<Bucket>)
        requires
            self@.inv(),
        ensures
            r == self@.owner_of(ptr as int, size as int),
    {
        self.buckets.owner_of(ptr, size)
    }

    /// Gives the chains back.
    pub fn into_buckets(self) -> (r: Buckets)
        ensures
            r@ == self@,
    {
        self.buckets
    }

    /// Tries to add a new node to the start of the very large chain, over
    /// a block of the memory source.
    fn extend_very_large(&mut self) -> (r: Result<(), AllocErr>)
        requires
            old(self)@.inv(),
        ensures
            final(self)@.inv(),
            old(self)@.kept_in(final(self)@),
            old(self)@.only_from(final(self)@),
            old(self)@.above_unchanged(final(self)@, Bucket::VeryLarge),
            r is Ok ==> old(self)@.grew_by_a_node(final(self)@, Bucket::VeryLarge),
            r matches Err(e) ==> e == AllocErr::OutOfMemory && final(self)@ == old(self)@,
            final(self).source() == old(self).source(),
            exists|block: Option<usize>| #[trigger]
                old(self).source().may_give(block) && (r is Ok <==> old(self)@.accepts(block)) && (r is Ok
                    ==> final(self)@ == old(self)@.with_block(block->Some_0 as int)),
            blocks_given(old(self).source(), old(self)@, final(self)@),
    {
        let ghost before = self@;
        let block = self.source.get_block();
        let r = self.buckets.install_block(block);
        proof {
            assert(old(self).source().may_give(block) && (r is Ok <==> before.accepts(block)) && (
            r is Ok ==> self@ == before.with_block(block->Some_0 as int)));
            if r is Ok {
                assert(block is Some && valid_block(block->Some_0 as int));
            }
            if r is Ok {
                let b = block->Some_0 as int;
                assert(before.row(Bucket::VeryLarge).wf(Bucket::VeryLarge.chunk()));
                lemma_pushed_removed(
                    before.very_large,
                    StackView::empty(b, 4096),
                    before.metadata.alloc_addr(64, 64),
                );
                lemma_pushed_removed(
                    before.very_large,
                    StackView::empty(b, 4096).allocated(4096, 64),
                    b + 64,
                );
            }
        }
        r
    }

    /// Tries to add a new node to the start of the metadata chain. Its
    /// stack is a chunk of the very large chain; where that chain has no
    /// free chunk, a block of the memory source is taken up for it. The
    /// metadata of the new node goes into the first chunk of its own stack.
    fn extend_metadata(&mut self) -> (r: Result<(), AllocErr>)
        requires
            old(self)@.inv(),
        ensures
            final(self)@.inv(),
            old(self)@.kept_in(final(self)@),
            old(self)@.only_from(final(self)@),
            old(self)@.above_unchanged(final(self)@, Bucket::Metadata),
            r is Ok ==> old(self)@.grew_by_a_node(final(self)@, Bucket::Metadata),
            r matches Err(e) ==> e == AllocErr::OutOfMemory && final(self)@ == old(self)@,
            final(self).source() == old(self).source(),
            old(self)@.very_large.can_alloc(4096, 64) ==> {
                &&& r is Ok
                &&& final(self)@ == old(self)@.with_row(
                    Bucket::VeryLarge,
                    old(self)@.very_large.allocated(4096, 64),
                ).with_row(
                    Bucket::Metadata,
                    old(self)@.metadata.pushed(
                        metadata_head(old(self)@.very_large.alloc_addr(4096, 64)),
                        old(self)@.very_large.alloc_addr(4096, 64),
                    ),
                )
            },
            !old(self)@.very_large.can_alloc(4096, 64) ==> exists|block: Option<usize>| #[trigger]
                old(self).source().may_give(block) && (r is Ok <==> old(self)@.accepts(block)) && (r is Ok
                    ==> final(self)@ == old(self)@.bootstrapped(block->Some_0 as int)),
            blocks_given(old(self).source(), old(self)@, final(self)@),
    {
        let ghost before = self@;
        proof {
            lemma_bucket_chunk(Bucket::Metadata);
            assert(before.row(Bucket::Metadata).wf(Bucket::Metadata.chunk()));
        }
        match self.buckets.chain_allocate(
            Bucket::VeryLarge,
            METADATA_CHUNK_SIZE * STACK_SIZE,
            METADATA_CHUNK_SIZE,
        ) {
            Ok(memory) => {
                let ghost middle = self@;
                proof {
                    assert(middle.row(Bucket::VeryLarge).wf(Bucket::VeryLarge.chunk()));
                    crate::chain_steps::lemma_held_inside(
                        middle.row(Bucket::VeryLarge),
                        4096,
                        memory as int,
                        4096,
                    );
                }
                self.buckets.push_metadata_node(memory);
                proof {
                    assert(middle.metadata == before.metadata);
                    assert(self@.blocks_in(before)) by {
                        crate::chain_steps::lemma_blocks_step(self@, middle, before);
                    }
                    lemma_pushed_removed(
                        before.metadata,
                        metadata_head(memory as int),
                        memory as int,
                    );
                    assert forall|k: Bucket, q: int, t: int| #[trigger]
                        before.free_held(k, q, t) implies self@.free_held(k, q, t) by {
                        assert(middle.free_held(k, q, t));
                        if k == Bucket::VeryLarge {
                            assert(before.row(Bucket::VeryLarge).holds(q, t));
                        }
                    }
                    assert forall|l: Bucket, a: int| #[trigger]
                        self@.free_held(l, a, 1) implies before.free_held(l, a, 1) by {
                        assert(middle.free_held(l, a, 1));
                    }
                }
                Ok(())
            },
            Err(_) => {
                let block = self.source.get_block();
                let r = self.buckets.install_metadata_block(block);
                proof {
                    assert(old(self).source().may_give(block) && (r is Ok <==> before.accepts(
                        block,
                    )) && (r is Ok ==> self@ == before.bootstrapped(block->Some_0 as int)));
                    if r is Ok {
                        assert(block is Some && valid_block(block->Some_0 as int));
                    }
                    if r is Ok {
                        let b = block->Some_0 as int;
                        lemma_pushed_removed(
                            before.metadata,
                            StackView::empty(b, 64).allocated(64, 64).allocated(64, 64),
                            b,
                        );
                    }
                }
                r
            },
        }
    }

    /// Tries to add a new node to the start of the chain of a bucket whose
    /// stacks come from another chain. The stack is allocated from the
    /// parent chain and the metadata from the metadata chain. Where no
    /// metadata can be had, the stack goes back to the parent chain, and
    /// the chain stays as it is.
    #[verifier::rlimit(60)]
    fn extend_from_parent(&mut self, k: Bucket) -> (r: Result<(), AllocErr>)
        requires
            old(self)@.inv(),
            k.depth() >= 2,
        ensures
            final(self)@.inv(),
            old(self)@.kept_in(final(self)@),
            old(self)@.only_from(final(self)@),
            old(self)@.above_unchanged(final(self)@, k),
            r is Ok ==> old(self)@.grew_by_a_node(final(self)@, k),
            r matches Err(e) ==> e == AllocErr::OutOfMemory && final(self)@.row(k) == old(self)@.row(
                k,
            ),
            final(self).source() == old(self).source(),
            old(self)@.plan_extend(k) matches Some(planned) ==> (r is Ok <==> planned.ok)
                && final(self)@ == planned.after,
            blocks_given(old(self).source(), old(self)@, final(self)@),
        decreases k.depth(), 0nat,
    {
        let ghost before = self@;
        proof {
            lemma_bucket_chunk(k);
        }
        let parent = k.parent_bucket().unwrap();
        let chunk = k.chunk_size();
        let memory = match self.allocate_in(parent, chunk * STACK_SIZE, chunk) {
            Ok(memory) => memory,
            Err(e) => {
                return Err(e);
            },
        };
        let ghost first = self@;
        proof {
            lemma_blocks_given(self.source(), before, before, first);
        }
        proof {
            assert(first.row(parent).wf(parent.chunk()));
            crate::chain_steps::lemma_held_inside(
                first.row(parent),
                parent.chunk(),
                memory as int,
                k.stack_bytes(),
            );
            let j = first.row(parent).owner(memory as int);
            assert(first.row(parent).stacks[j].wf());
        }
        match self.allocate_in(Bucket::Metadata, HEADER_SIZE, HEADER_ALIGN) {
            Err(e) => {
                let ghost second = self@;
                self.buckets.dealloc_in(parent, memory, chunk * STACK_SIZE);
                proof {
                    lemma_blocks_given(self.source(), before, first, second);
                    lemma_blocks_given(self.source(), before, second, self@);
                    assert forall|l: Bucket|
                        l.depth() >= k.depth() && l != Bucket::Metadata implies #[trigger] self@.row(
                        l,
                    ) == before.row(l) by {
                        lemma_deallocated_rows(
                            second,
                            parent,
                            memory as int,
                            k.stack_bytes(),
                            l,
                        );
                        assert(first.row(l) == before.row(l));
                        assert(second.row(l) == first.row(l));
                    }
                    assert forall|l: Bucket, q: int, t: int| #[trigger]
                        before.free_held(l, q, t) implies self@.free_held(l, q, t) by {
                        assert(first.free_held(l, q, t));
                        assert(second.free_held(l, q, t));
                    }
                    assert forall|l: Bucket, a: int| #[trigger]
                        self@.free_held(l, a, 1) implies before.free_held(l, a, 1) by {
                        assert(second.free_held(l, a, 1));
                        assert(first.free_held(l, a, 1));
                    }
                }
                Err(e)
            },
            Ok(header) => {
                let ghost second = self@;
                self.buckets.push_node(k, memory, header);
                proof {
                    lemma_blocks_given(self.source(), before, first, second);
                    lemma_blocks_given(self.source(), before, second, self@);
                    assert(before.row(k).wf(k.chunk()));
                    assert(first.row(k) == before.row(k));
                    assert(second.row(k) == first.row(k));
                    lemma_pushed_removed(
                        before.row(k),
                        StackView::empty(memory as int, k.chunk()),
                        header as int,
                    );
                    assert forall|l: Bucket|
                        l.depth() > k.depth() && l != Bucket::Metadata implies #[trigger] self@.row(
                        l,
                    ) == before.row(l) by {
                        assert(first.row(l) == before.row(l));
                        assert(second.row(l) == first.row(l));
                    }
                    assert forall|l: Bucket, q: int, t: int| #[trigger]
                        before.free_held(l, q, t) implies self@.free_held(l, q, t) by {
                        assert(first.free_held(l, q, t));
                        assert(second.free_held(l, q, t));
                    }
                    assert forall|l: Bucket, a: int| #[trigger]
                        self@.free_held(l, a, 1) implies before.free_held(l, a, 1) by {
                        assert(second.free_held(l, a, 1));
                        assert(first.free_held(l, a, 1));
                    }
                }
                Ok(())
            },
        }
    }

    /// Tries to add a new node to the start of the chain of the bucket.
    fn extend(&mut self, k: Bucket) -> (r: Result<(), AllocErr>)
        requires
            old(self)@.inv(),
        ensures
            final(self)@.inv(),
            old(self)@.kept_in(final(self)@),
            old(self)@.only_from(final(self)@),
            old(self)@.above_unchanged(final(self)@, k),
            r is Ok ==> old(self)@.grew_by_a_node(final(self)@, k),
            r matches Err(e) ==> e == AllocErr::OutOfMemory && final(self)@.row(k) == old(self)@.row(
                k,
            ),
            final(self).source() == old(self).source(),
            old(self)@.plan_extend(k) matches Some(planned) ==> (r is Ok <==> planned.ok)
                && final(self)@ == planned.after,
            blocks_given(old(self).source(), old(self)@, final(self)@),
        decreases k.depth(), 1nat,
    {
        match k {
            Bucket::VeryLarge => self.extend_very_large(),
            Bucket::Metadata => self.extend_metadata(),
            _ => self.extend_from_parent(k),
        }
    }

    /// Tries to allocate from the chain of the bucket, extending it if
    /// necessary.
    fn allocate_in(&mut self, k: Bucket, size: usize, align: usize) -> (r: Result<usize, AllocErr>)
        requires
            old(self)@.inv(),
            size > 0,
            is_pow2(align as int),
        ensures
            final(self)@.inv(),
            old(self)@.kept_in(final(self)@),
            old(self)@.row(k).can_alloc(size as int, align as int) ==> {
                &&& r is Ok
                &&& r->Ok_0 == old(self)@.row(k).alloc_addr(size as int, align as int)
                &&& final(self)@ == old(self)@.with_row(
                    k,
                    old(self)@.row(k).allocated(size as int, align as int),
                )
            },
            r matches Ok(ptr) ==> {
                &&& final(self)@.free_held(k, ptr as int, size as int)
                &&& ptr % align == 0
                &&& forall|q: int, t: int| #[trigger]
                    old(self)@.free_held(k, q, t) ==> !overlap(ptr as int, size as int, q, t)
                &&& old(self)@.only_from_or(final(self)@, k, ptr as int, size as int)
            },
            r matches Err(e) ==> e == AllocErr::OutOfMemory && !old(self)@.row(k).can_alloc(
                size as int,
                align as int,
            ) && old(self)@.only_from(final(self)@),
            old(self)@.above_unchanged(final(self)@, k),
            !old(self)@.row(k).can_alloc(size as int, align as int) ==> {
                &&& r matches Ok(ptr) ==> old(self)@.grew_by_a_node(final(self)@, k) && final(self)@.row(
                    k,
                ).owner(ptr as int) == 0
                &&& r is Err ==> final(self)@.row(k) == old(self)@.row(k) || old(self)@.grew_by_a_node(
                    final(self)@,
                    k,
                )
            },
            final(self).source() == old(self).source(),
            old(self)@.plan_allocate(k, size as int, align as int) matches Some(planned) ==> {
                &&& r is Ok <==> planned.ok
                &&& r matches Ok(ptr) ==> ptr == planned.addr
                &&& final(self)@ == planned.after
            },
            blocks_given(old(self).source(), old(self)@, final(self)@),
        decreases k.depth(), 2nat,
    {
        let ghost before = self@;
        proof {
            lemma_with_row(before, k, before.row(k).allocated(size as int, align as int));
        }
        match self.buckets.chain_allocate(k, size, align) {
            Ok(ptr) => Ok(ptr),
            Err(_) => {
                match self.extend(k) {
                    Err(e) => Err(e),
                    Ok(()) => {
                        let ghost middle = self@;
                        proof {
                            lemma_blocks_given(self.source(), before, before, middle);
                            lemma_with_row(
                                middle,
                                k,
                                middle.row(k).allocated(size as int, align as int),
                            );
                            assert(middle.row(k).wf(k.chunk()));
                            lemma_new_head_serves(
                                before.row(k),
                                middle.row(k),
                                k.chunk(),
                                size as int,
                                align as int,
                            );
                        }
                        match self.buckets.chain_allocate(k, size, align) {
                            Ok(ptr) => {
                                proof {
                                    assert forall|q: int, t: int| #[trigger]
                                        before.free_held(k, q, t) implies !overlap(
                                        ptr as int,
                                        size as int,
                                        q,
                                        t,
                                    ) by {
                                        assert(middle.free_held(k, q, t));
                                        assert(middle.row(k).holds(q, t));
                                    }
                                    assert forall|l: Bucket, a: int| #[trigger]
                                        self@.free_held(l, a, 1) implies before.free_held(l, a, 1)
                                        || (l == k && overlap(a, 1, ptr as int, size as int)) by {
                                        assert(middle.free_held(l, a, 1) || (l == k && overlap(
                                            a,
                                            1,
                                            ptr as int,
                                            size as int,
                                        )));
                                    }
                                }
                                Ok(ptr)
                            },
                            Err(_) => Err(AllocErr::OutOfMemory),
                        }
                    },
                }
            },
        }
    }

    /// Hands out `size` bytes with the alignment from the chain of the
    /// size's category, extending the chain if necessary.
    ///
    /// A size without a category is refused. A request that the chain can
    /// serve as it stands is served by the first node with room for it.
    /// Otherwise a node is added to the chain, which may take a stack from
    /// the parent chain, a chunk of metadata, or a block of the memory
    /// source; where that fails, the request fails.
    pub fn allocate(&mut self, size: usize, align: usize) -> (r: Result<usize, AllocErr>)
        requires
            old(self)@.inv(),
            is_pow2(align as int),
        ensures
            final(self)@.inv(),
            category_of(size as int) is None <==> r == Err::<usize, AllocErr>(
                AllocErr::OutOfCategory,
            ),
            category_of(size as int) is None ==> final(self)@ == old(self)@,
            old(self)@.serves(size as int, align as int) ==> {
                &&& r is Ok
                &&& r->Ok_0 == old(self)@.served_addr(size as int, align as int)
                &&& final(self)@ == old(self)@.served(size as int, align as int)
            },
            r matches Err(e) ==> !old(self)@.serves(size as int, align as int) && e == if category_of(
                size as int,
            ) is None {
                AllocErr::OutOfCategory
            } else {
                AllocErr::OutOfMemory
            },
            r matches Ok(ptr) ==> {
                &&& final(self)@.user_held(ptr as int, size as int)
                &&& ptr != 0
                &&& ptr % align == 0
                &&& forall|q: int, t: int| #[trigger]
                    old(self)@.user_held(q, t) ==> !overlap(ptr as int, size as int, q, t)
            },
            forall|q: int, t: int| #[trigger]
                old(self)@.user_held(q, t) ==> final(self)@.user_held(q, t),
            r matches Ok(ptr) ==> final(self)@.gained(
                old(self)@,
                category_of(size as int)->Some_0.bucket(),
                ptr as int,
                size as int,
            ) && old(self)@.chunks_out(category_of(size as int)->Some_0.bucket()).disjoint(
                chunks_in(category_of(size as int)->Some_0.bucket(), ptr as int, size as int),
            ),
            r is Err ==> final(self)@.same_out(old(self)@),
            category_of(size as int) is Some && !old(self)@.serves(size as int, align as int) ==> {
                let k = category_of(size as int)->Some_0.bucket();
                &&& r matches Ok(ptr) ==> old(self)@.grew_by_a_node(final(self)@, k) && final(self)@.row(
                    k,
                ).owner(ptr as int) == 0
                &&& r is Err ==> final(self)@.row(k) == old(self)@.row(k) || old(self)@.grew_by_a_node(
                    final(self)@,
                    k,
                )
                &&& old(self)@.above_unchanged(final(self)@, k)
            },
            old(self)@.plan(size as int, align as int) matches Some(planned) ==> {
                &&& r is Ok <==> planned.ok
                &&& r matches Ok(ptr) ==> ptr == planned.addr
                &&& final(self)@ == planned.after
            },
            final(self).source() == old(self).source(),
            blocks_given(old(self).source(), old(self)@, final(self)@),
    {
        let ghost before = self@;
        match SizeCategory::classify(size) {
            None => Err(AllocErr::OutOfCategory),
            Some(category) => {
                let k = category.to_bucket();
                let r = self.allocate_in(k, size, align);
                proof {
                    assert forall|q: int, t: int| #[trigger]
                        before.user_held(q, t) implies self@.user_held(q, t) by {
                        assert(before.free_held(category_of(t)->Some_0.bucket(), q, t));
                    }
                    if r is Err {
                        lemma_same_out(before, self@);
                    }
                    if r is Ok {
                        let ptr = r->Ok_0;
                        lemma_gained(before, self@, k, ptr as int, size as int);
                        assert forall|a: int|
                            !(before.chunks_out(k).contains(a) && chunks_in(
                                k,
                                ptr as int,
                                size as int,
                            ).contains(a)) by {
                            if before.free_held(k, a, 1) {
                                assert(!overlap(ptr as int, size as int, a, 1));
                            }
                        }
                        lemma_held_nonnull(self@, k, ptr as int, size as int);
                        assert forall|q: int, t: int| #[trigger]
                            before.user_held(q, t) implies !overlap(ptr as int, size as int, q, t) by {
                            let l = category_of(t)->Some_0.bucket();
                            assert(before.free_held(l, q, t));
                            if l != k {
                                lemma_buckets_apart(self@, k, ptr as int, size as int, l, q, t);
                            }
                        }
                    }
                }
                r
            },
        }
    }

    /// Takes back the `size` bytes at `ptr`, which a caller of the
    /// allocator holds.
    ///
    /// Where that empties a node that is not the head of its chain, the
    /// node leaves the chain, its stack goes back to the parent chain and
    /// its metadata to the metadata chain.
    pub fn dealloc(&mut self, ptr: usize, size: usize)
        requires
            old(self)@.inv(),
            size != 0 ==> old(self)@.user_held(ptr as int, size as int),
        ensures
            final(self)@.inv(),
            size == 0 ==> final(self)@ == old(self)@,
            size != 0 ==> final(self)@ == old(self)@.deallocated(
                category_of(size as int)->Some_0.bucket(),
                ptr as int,
                size as int,
            ),
            forall|q: int, t: int| #[trigger]
                old(self)@.user_held(q, t) && !overlap(ptr as int, size as int, q, t)
                    ==> final(self)@.user_held(q, t),
            size != 0 ==> final(self)@.lost(
                old(self)@,
                category_of(size as int)->Some_0.bucket(),
                ptr as int,
                size as int,
            ),
            final(self).source() == old(self).source(),
            final(self)@.blocks_in(old(self)@),
    {
        if size == 0 {
            return ;
        }
        let ghost before = self@;
        let k = self.owner_of(ptr, size).unwrap();
        self.buckets.dealloc_in(k, ptr, size);
        proof {
            lemma_lost(before, self@, k, ptr as int, size as int);
            assert forall|q: int, t: int| #[trigger]
                before.user_held(q, t) && !overlap(ptr as int, size as int, q, t)
                implies self@.user_held(q, t) by {
                assert(before.free_held(category_of(t)->Some_0.bucket(), q, t));
            }
        }
    }

    /// Changes the size of the allocation at `ptr` from `old_size` to
    /// `new_size` bytes.
    ///
    /// Where both sizes are of one category the allocation shrinks where it
    /// stands, or grows where it stands if the chunks above it are free,
    /// and the address stays. Otherwise `new_size` bytes are allocated with
    /// the alignment, and the old allocation is taken back: the caller
    /// moves the first `min(old_size, new_size)` bytes from the old address
    /// to the new one, which have no byte in common, before the next call.
    /// Where the new allocation fails the old one stays as it is.
    pub fn realloc(&mut self, ptr: usize, old_size: usize, new_size: usize, align: usize) -> (r:
        Result<usize, AllocErr>)
        requires
            old(self)@.inv(),
            old(self)@.user_held(ptr as int, old_size as int),
            is_pow2(align as int),
        ensures
            final(self)@.inv(),
            old(self)@.resizes_in_place(ptr as int, old_size as int, new_size as int) ==> {
                &&& r is Ok
                &&& r->Ok_0 == ptr
                &&& final(self)@ == old(self)@.resized(
                    ptr as int,
                    old_size as int,
                    new_size as int,
                )
            },
            r matches Ok(moved) ==> {
                &&& final(self)@.user_held(moved as int, new_size as int)
                &&& moved != 0
                &&& moved != ptr ==> {
                    &&& !old(self)@.resizes_in_place(ptr as int, old_size as int, new_size as int)
                    &&& moved % align == 0
                    &&& !overlap(moved as int, new_size as int, ptr as int, old_size as int)
                }
                &&& forall|q: int, t: int| #[trigger]
                    old(self)@.user_held(q, t) && !overlap(ptr as int, old_size as int, q, t)
                        ==> !overlap(moved as int, new_size as int, q, t)
            },
            r matches Err(e) ==> {
                &&& !old(self)@.resizes_in_place(ptr as int, old_size as int, new_size as int)
                &&& final(self)@.user_held(ptr as int, old_size as int)
                &&& e == if category_of(new_size as int) is None {
                    AllocErr::OutOfCategory
                } else {
                    AllocErr::OutOfMemory
                }
            },
            forall|q: int, t: int| #[trigger]
                old(self)@.user_held(q, t) && !overlap(ptr as int, old_size as int, q, t)
                    ==> final(self)@.user_held(q, t),
            r matches Ok(moved) ==> final(self)@.swapped(
                old(self)@,
                category_of(old_size as int)->Some_0.bucket(),
                ptr as int,
                old_size as int,
                category_of(new_size as int)->Some_0.bucket(),
                moved as int,
                new_size as int,
            ),
            r is Err ==> final(self)@.same_out(old(self)@),
            !old(self)@.resizes_in_place(ptr as int, old_size as int, new_size as int) ==> {
                &&& category_of(new_size as int) is None ==> final(self)@ == old(self)@
                &&& old(self)@.plan(new_size as int, align as int) matches Some(planned) ==> {
                    &&& r is Ok <==> planned.ok
                    &&& r matches Ok(moved) ==> moved == planned.addr && final(self)@
                        == planned.after.deallocated(
                        category_of(old_size as int)->Some_0.bucket(),
                        ptr as int,
                        old_size as int,
                    )
                    &&& r is Err ==> final(self)@ == planned.after
                }
            },
            final(self).source() == old(self).source(),
            blocks_given(old(self).source(), old(self)@, final(self)@),
    {
        let ghost before = self@;
        let k = self.owner_of(ptr, old_size).unwrap();
        // Try to change it in place if the size category hasn't changed
        let same_category = match SizeCategory::classify(new_size) {
            Some(new_category) => new_category.to_bucket() == k,
            None => false,
        };
        if same_category {
            if new_size <= old_size {
                self.buckets.chain_shrink(k, ptr, old_size, new_size);
                proof {
                    lemma_held_nonnull(before, k, ptr as int, old_size as int);
                    lemma_swapped_in_place(
                        before,
                        self@,
                        k,
                        ptr as int,
                        old_size as int,
                        new_size as int,
                    );
                    assert forall|q: int, t: int| #[trigger]
                        before.user_held(q, t) && !overlap(ptr as int, old_size as int, q, t)
                        implies self@.user_held(q, t) && !overlap(
                        ptr as int,
                        new_size as int,
                        q,
                        t,
                    ) by {
                        assert(before.free_held(category_of(t)->Some_0.bucket(), q, t));
                    }
                }
                return Ok(ptr);
            } else {
                if self.buckets.chain_grow(k, ptr, old_size, new_size).is_ok() {
                    proof {
                        lemma_held_nonnull(before, k, ptr as int, old_size as int);
                        lemma_swapped_in_place(
                            before,
                            self@,
                            k,
                            ptr as int,
                            old_size as int,
                            new_size as int,
                        );
                        assert forall|q: int, t: int| #[trigger]
                            before.user_held(q, t) && !overlap(ptr as int, old_size as int, q, t)
                            implies self@.user_held(q, t) && !overlap(
                            ptr as int,
                            new_size as int,
                            q,
                            t,
                        ) by {
                            let l = category_of(t)->Some_0.bucket();
                            assert(before.free_held(l, q, t));
                            if l != k {
                                lemma_buckets_apart(self@, k, ptr as int, new_size as int, l, q, t);
                            } else {
                                assert(before.row(k).holds(q, t));
                            }
                        }
                    }
                    return Ok(ptr);
                }
            }
        }
        // Because changing it in place didn't work, just get new memory
        let ghost middle = self@;
        proof {
            assert(middle == before);
        }
        match self.allocate(new_size, align) {
            Ok(new_memory) => {
                proof {
                    assert(self@.user_held(ptr as int, old_size as int));
                }
                let ghost second = self@;
                self.dealloc(ptr, old_size);
                proof {
                    lemma_blocks_given(self.source(), before, second, self@);
                    lemma_swapped_moved(
                        before,
                        second,
                        self@,
                        k,
                        ptr as int,
                        old_size as int,
                        category_of(new_size as int)->Some_0.bucket(),
                        new_memory as int,
                        new_size as int,
                    );
                }
                Ok(new_memory)
            },
            Err(e) => Err(e),
        }
    }
}

/// Bytes have nothing in common with the stack of a node that a chain
/// hands out exactly when they have nothing in common with the stacks of
/// the chains whose stacks come from that chain.
pub proof fn lemma_clear_of(v: BucketsView, k: Bucket, ptr: int, size: int)
    requires
        v.rows_wf(),
        k != Bucket::Metadata,
    ensures
        v.clear_of(k, ptr, size) <==> match k {
            Bucket::VeryLarge => clear_of_all(v.medium.stacks, ptr, size) && clear_of_all(
                v.metadata.stacks,
                ptr,
                size,
            ) && clear_of_all(v.large.stacks, ptr, size),
            Bucket::Large => clear_of_all(v.small.stacks, ptr, size),
            Bucket::Medium => clear_of_all(v.very_small.stacks, ptr, size),
            _ => true,
        },
{
    assert forall|l: Bucket| #[trigger] v.row(l).wf(l.chunk()) implies forall|j: int|
        0 <= j < v.row(l).len() ==> (#[trigger] v.row(l).stacks[j]).chunk == l.chunk() by {}
    if v.clear_of(k, ptr, size) {
        assert forall|l: Bucket| l.parent() == Some(k) implies clear_of_all(
            #[trigger] v.row(l).stacks,
            ptr,
            size,
        ) by {
            assert(v.row(l).wf(l.chunk()));
            assert forall|j: int| #![trigger v.row(l).stacks[j]] 0 <= j < v.row(l).stacks.len()
                implies !overlap(ptr, size, v.row(l).stacks[j].base, 64 * v.row(l).stacks[j].chunk) by {
                assert(v.has(l, j));
            }
        }
        assert(Bucket::Medium.parent() == Some(Bucket::VeryLarge));
        assert(clear_of_all(v.row(Bucket::Medium).stacks, ptr, size) || k != Bucket::VeryLarge);
        assert(clear_of_all(v.row(Bucket::Metadata).stacks, ptr, size) || k != Bucket::VeryLarge);
        assert(clear_of_all(v.row(Bucket::Large).stacks, ptr, size) || k != Bucket::VeryLarge);
        assert(clear_of_all(v.row(Bucket::Small).stacks, ptr, size) || k != Bucket::Large);
        assert(clear_of_all(v.row(Bucket::VerySmall).stacks, ptr, size) || k != Bucket::Medium);
    } else {
        let (l, j) = choose|l: Bucket, j: int|
            #![trigger v.row(l).stacks[j]]
            v.has(l, j) && l.parent() == Some(k) && overlap(
                ptr,
                size,
                v.base(l, j),
                l.stack_bytes(),
            );
        assert(v.row(l).wf(l.chunk()));
        assert(!clear_of_all(v.row(l).stacks, ptr, size));
    }
}

} // verus!
