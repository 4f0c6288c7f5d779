//! The six chains of the allocator as one structure, and what holds of it
//! between any two calls.

use vstd::prelude::*;
use crate::bitmapped_stack::{StackView, overlap};
use crate::bucketed::category_of;
use crate::memory_source::valid_block;
use crate::sized_allocator::{ChainView, all_apart, first_fit, first_owner, held};

verus! {

/// One of the six chains of the allocator.
#[derive(PartialEq, Eq, Clone, Copy, Debug, Structural)]
pub enum Bucket {
    /// 4 KiB chunk size; its stacks are the blocks of the memory source
    VeryLarge,
    /// 64 byte chunk size; holds the metadata of the nodes of all chains
    Metadata,
    /// 512 byte chunk size
    Large,
    /// 64 byte chunk size
    Medium,
    /// 8 byte chunk size
    Small,
    /// 1 byte chunk size
    VerySmall,
}

impl Bucket {
    /// The chunk size of the chain.
    pub open spec fn chunk(self) -> int {
        match self {
            Bucket::VeryLarge => 4096,
            Bucket::Metadata => 64,
            Bucket::Large => 512,
            Bucket::Medium => 64,
            Bucket::Small => 8,
            Bucket::VerySmall => 1,
        }
    }

    /// The chain that the stacks of this chain are allocated from. The
    /// stacks of the very large chain come from the memory source.
    pub open spec fn parent(self) -> Option<Bucket> {
        match self {
            Bucket::VeryLarge => None,
            Bucket::Metadata => Some(Bucket::VeryLarge),
            Bucket::Large => Some(Bucket::VeryLarge),
            Bucket::Medium => Some(Bucket::VeryLarge),
            Bucket::Small => Some(Bucket::Large),
            Bucket::VerySmall => Some(Bucket::Medium),
        }
    }

    /// How far the chain is from the memory source. A chain draws only on
    /// chains of a lower depth.
    pub open spec fn depth(self) -> nat {
        match self {
            Bucket::VeryLarge => 0,
            Bucket::Metadata => 1,
            Bucket::Large => 2,
            Bucket::Medium => 3,
            Bucket::Small => 4,
            Bucket::VerySmall => 5,
        }
    }

    /// The size in bytes of a stack of the chain.
    pub open spec fn stack_bytes(self) -> int {
        64 * self.chunk()
    }
}

/// The addresses of the chunks of chain `k` that the `size` bytes at `ptr`
/// take up, where `ptr` is the address of a chunk.
pub open spec fn chunks_in(k: Bucket, ptr: int, size: int) -> Set<int> {
    Set::new(|a: int| ptr <= a < ptr + size && (a - ptr) % k.chunk() == 0)
}

/// The chunks of chain `k` that the `size` bytes at `ptr` take up, where
/// `k` is the chain `l`, and no chunks where it is another chain.
pub open spec fn chunks_in_of(l: Bucket, k: Bucket, ptr: int, size: int) -> Set<int> {
    if l == k {
        chunks_in(k, ptr, size)
    } else {
        Set::empty()
    }
}

/// What one chain is, as far as the allocator is concerned: its nodes from
/// the head on, each with its stack, its cached count of free chunks and
/// the address of its metadata. A chain without nodes has not been started.
pub struct Row {
    /// The stack of each node.
    pub stacks: Seq<StackView>,
    /// The cached count of free chunks of each node.
    pub spaces: Seq<int>,
    /// The address of the metadata of each node.
    pub headers: Seq<int>,
}

impl Row {
    /// The chain without nodes.
    pub open spec fn empty() -> Row {
        Row { stacks: Seq::empty(), spaces: Seq::empty(), headers: Seq::empty() }
    }

    /// The number of nodes.
    pub open spec fn len(self) -> int {
        self.stacks.len() as int
    }

    /// The invariant of a chain with the given chunk size: one cached count
    /// and one header for each stack, every stack well formed and of that
    /// chunk size, each cached count the number of chunks above the height
    /// of its stack, and no two stacks with a byte in common.
    pub open spec fn wf(self, chunk: int) -> bool {
        &&& self.spaces.len() == self.stacks.len()
        &&& self.headers.len() == self.stacks.len()
        &&& forall|i: int|
            #![trigger self.stacks[i]]
            0 <= i < self.stacks.len() ==> {
                &&& self.stacks[i].wf()
                &&& self.stacks[i].chunk == chunk
                &&& self.spaces[i] == 64 - self.stacks[i].height
            }
        &&& all_apart(self.stacks)
    }

    /// Whether `size` bytes at `ptr` are handed out by a node of the chain.
    pub open spec fn holds(self, ptr: int, size: int) -> bool {
        held(self.stacks, ptr, size)
    }

    /// Whether the nodes of `other` are those of this chain, each at its
    /// place and with its metadata where it was; only the chunks in use may
    /// differ.
    pub open spec fn same_places(self, other: Row) -> bool {
        &&& self.stacks.len() == other.stacks.len()
        &&& self.headers == other.headers
        &&& forall|i: int|
            0 <= i < self.stacks.len() ==> (#[trigger] self.stacks[i]).same_place(other.stacks[i])
    }

    /// The chain as a chain of nodes, without the address of the metadata
    /// of the head.
    pub open spec fn chain(self) -> ChainView {
        ChainView { stacks: self.stacks, spaces: self.spaces, headers: self.headers.skip(1) }
    }

    /// The chain of nodes `chain` whose head has its metadata at `header`.
    pub open spec fn of_chain(header: int, chain: ChainView) -> Row {
        Row { stacks: chain.stacks, spaces: chain.spaces, headers: seq![header] + chain.headers }
    }

    /// Whether some node has room for the request.
    pub open spec fn can_alloc(self, size: int, align: int) -> bool {
        first_fit(self.stacks, size, align) < self.len()
    }

    /// The address that the request is served with.
    pub open spec fn alloc_addr(self, size: int, align: int) -> int {
        self.stacks[first_fit(self.stacks, size, align)].alloc_addr(align)
    }

    /// The chain after the request was served by the first node with room
    /// for it.
    pub open spec fn allocated(self, size: int, align: int) -> Row {
        let j = first_fit(self.stacks, size, align);
        self.with_stack(j, self.stacks[j].allocated(size, align))
    }

    /// The chain with the stack of node `j` replaced.
    pub open spec fn with_stack(self, j: int, stack: StackView) -> Row {
        Row {
            stacks: self.stacks.update(j, stack),
            spaces: self.spaces.update(j, 64 - stack.height),
            headers: self.headers,
        }
    }

    /// The chain without node `j`.
    pub open spec fn removed(self, j: int) -> Row {
        Row {
            stacks: self.stacks.remove(j),
            spaces: self.spaces.remove(j),
            headers: self.headers.remove(j),
        }
    }

    /// The node that owns the address: the first one whose stack holds it.
    pub open spec fn owner(self, ptr: int) -> int {
        first_owner(self.stacks, ptr)
    }

    /// Whether giving back `size` bytes at `ptr` empties a node that is not
    /// the head, so that the node leaves the chain.
    pub open spec fn collapses(self, ptr: int, size: int) -> bool {
        self.owner(ptr) > 0 && self.stacks[self.owner(ptr)].deallocated(ptr, size).height == 0
    }

    /// The chain after `size` bytes at `ptr` were given back.
    pub open spec fn deallocated(self, ptr: int, size: int) -> Row {
        let j = self.owner(ptr);
        if self.collapses(ptr, size) {
            self.removed(j)
        } else {
            self.with_stack(j, self.stacks[j].deallocated(ptr, size))
        }
    }

    /// The chain after the allocation at `ptr` shrank.
    pub open spec fn shrunk(self, ptr: int, old_size: int, new_size: int) -> Row {
        let j = self.owner(ptr);
        self.with_stack(j, self.stacks[j].shrunk(ptr, old_size, new_size))
    }

    /// Whether the allocation at `ptr` can grow where it stands.
    pub open spec fn can_grow(self, ptr: int, old_size: int, new_size: int) -> bool {
        self.stacks[self.owner(ptr)].can_grow(ptr, old_size, new_size)
    }

    /// The chain after the allocation at `ptr` grew where it stands.
    pub open spec fn grown(self, ptr: int, old_size: int, new_size: int) -> Row {
        let j = self.owner(ptr);
        self.with_stack(j, self.stacks[j].grown(ptr, old_size, new_size))
    }

    /// The chain with a node put in front.
    pub open spec fn pushed(self, stack: StackView, header: int) -> Row {
        Row {
            stacks: seq![stack] + self.stacks,
            spaces: seq![64 - stack.height] + self.spaces,
            headers: seq![header] + self.headers,
        }
    }
}

/// What a request comes to that the memory source is not asked for.
pub struct Outcome {
    /// Whether the request is served.
    pub ok: bool,
    /// The address that it is served with; 0 where it is not served, or
    /// where the request was for a node.
    pub addr: int,
    /// The chains afterwards.
    pub after: BucketsView,
}

/// What the six chains are, as far as the callers of the allocator are
/// concerned.
pub struct BucketsView {
    /// The chain of 4 KiB chunks.
    pub very_large: Row,
    /// The chain of 64 byte chunks that holds the metadata of all nodes.
    pub metadata: Row,
    /// The chain of 512 byte chunks.
    pub large: Row,
    /// The chain of 64 byte chunks.
    pub medium: Row,
    /// The chain of 8 byte chunks.
    pub small: Row,
    /// The chain of 1 byte chunks.
    pub very_small: Row,
}

impl BucketsView {
    /// The chain of the bucket.
    pub open spec fn row(self, k: Bucket) -> Row {
        match k {
            Bucket::VeryLarge => self.very_large,
            Bucket::Metadata => self.metadata,
            Bucket::Large => self.large,
            Bucket::Medium => self.medium,
            Bucket::Small => self.small,
            Bucket::VerySmall => self.very_small,
        }
    }

    /// The chains with the chain of one bucket replaced.
    pub open spec fn with_row(self, k: Bucket, row: Row) -> BucketsView {
        match k {
            Bucket::VeryLarge => BucketsView { very_large: row, ..self },
            Bucket::Metadata => BucketsView { metadata: row, ..self },
            Bucket::Large => BucketsView { large: row, ..self },
            Bucket::Medium => BucketsView { medium: row, ..self },
            Bucket::Small => BucketsView { small: row, ..self },
            Bucket::VerySmall => BucketsView { very_small: row, ..self },
        }
    }

    /// No chain has been started.
    pub open spec fn empty() -> BucketsView {
        BucketsView {
            very_large: Row::empty(),
            metadata: Row::empty(),
            large: Row::empty(),
            medium: Row::empty(),
            small: Row::empty(),
            very_small: Row::empty(),
        }
    }

    /// Whether node `i` of chain `k` exists.
    pub open spec fn has(self, k: Bucket, i: int) -> bool {
        0 <= i < self.row(k).len()
    }

    /// The address of the stack of node `i` of chain `k`.
    pub open spec fn base(self, k: Bucket, i: int) -> int {
        self.row(k).stacks[i].base
    }

    /// The address of the metadata of node `i` of chain `k`.
    pub open spec fn header(self, k: Bucket, i: int) -> int {
        self.row(k).headers[i]
    }

    /// The chains after a block at the address was taken up as the stack
    /// of a new node at the head of the very large chain. Where the
    /// metadata chain has a free chunk, the metadata of the node goes there.
    /// Where it has none, the first chunk of the block becomes the stack of
    /// a new node at the head of the metadata chain, whose first two chunks
    /// hold the metadata of the two new nodes.
    pub open spec fn with_block(self, block: int) -> BucketsView {
        if self.metadata.can_alloc(64, 64) {
            self.with_row(Bucket::Metadata, self.metadata.allocated(64, 64)).with_row(
                Bucket::VeryLarge,
                self.very_large.pushed(
                    StackView::empty(block, 4096),
                    self.metadata.alloc_addr(64, 64),
                ),
            )
        } else {
            self.bootstrapped(block)
        }
    }

    /// The chains after a block was taken up without a free metadata chunk
    /// to go with it: a new node of the very large chain over the block,
    /// whose first chunk is the stack of a new node of the metadata chain,
    /// whose first two chunks are the metadata of the two new nodes.
    pub open spec fn bootstrapped(self, block: int) -> BucketsView {
        self.with_row(
            Bucket::VeryLarge,
            self.very_large.pushed(StackView::empty(block, 4096).allocated(4096, 64), block + 64),
        ).with_row(
            Bucket::Metadata,
            self.metadata.pushed(
                StackView::empty(block, 64).allocated(64, 64).allocated(64, 64),
                block,
            ),
        )
    }

    /// What adding a node to the head of chain `k` comes to, where the
    /// memory source need not be asked; `None` where it must be.
    ///
    /// A node of the very large chain is a block of the memory source. A
    /// node of the metadata chain gets its stack from the very large chain,
    /// if that has room as it stands, and keeps its own metadata in the
    /// first chunk of that stack. A node of any other chain gets its stack
    /// from the parent chain and its metadata from the metadata chain, each
    /// of which is extended in the same way if it has no room. Where the
    /// stack is had and the metadata is not, the stack goes back.
    pub open spec fn plan_extend(self, k: Bucket) -> Option<Outcome>
        decreases k.depth(), 0nat,
    {
        match k {
            Bucket::VeryLarge => None,
            Bucket::Metadata => if self.very_large.can_alloc(4096, 64) {
                let memory = self.very_large.alloc_addr(4096, 64);
                Some(
                    Outcome {
                        ok: true,
                        addr: 0,
                        after: self.with_row(
                            Bucket::VeryLarge,
                            self.very_large.allocated(4096, 64),
                        ).with_row(
                            Bucket::Metadata,
                            self.metadata.pushed(
                                StackView::empty(memory, 64).allocated(64, 64),
                                memory,
                            ),
                        ),
                    },
                )
            } else {
                None
            },
            _ => {
                let p = k.parent().unwrap();
                match self.plan_allocate(p, k.stack_bytes(), k.chunk()) {
                    None => None,
                    Some(stack) => if !stack.ok {
                        Some(Outcome { ok: false, addr: 0, after: stack.after })
                    } else {
                        match stack.after.plan_allocate(Bucket::Metadata, 64, 64) {
                            None => None,
                            Some(header) => if !header.ok {
                                Some(
                                    Outcome {
                                        ok: false,
                                        addr: 0,
                                        after: header.after.deallocated(
                                            p,
                                            stack.addr,
                                            k.stack_bytes(),
                                        ),
                                    },
                                )
                            } else {
                                Some(
                                    Outcome {
                                        ok: true,
                                        addr: 0,
                                        after: header.after.with_row(
                                            k,
                                            header.after.row(k).pushed(
                                                StackView::empty(stack.addr, k.chunk()),
                                                header.addr,
                                            ),
                                        ),
                                    },
                                )
                            },
                        }
                    },
                }
            },
        }
    }

    /// What an allocation from chain `k` comes to, where the memory source
    /// need not be asked; `None` where it must be.
    ///
    /// Where the chain has room as it stands, the first node with room
    /// serves. Otherwise a node is added to the head of the chain, and the
    /// chain is asked again.
    pub open spec fn plan_allocate(self, k: Bucket, size: int, align: int) -> Option<Outcome>
        decreases k.depth(), 1nat,
    {
        if self.row(k).can_alloc(size, align) {
            Some(
                Outcome {
                    ok: true,
                    addr: self.row(k).alloc_addr(size, align),
                    after: self.with_row(k, self.row(k).allocated(size, align)),
                },
            )
        } else {
            match self.plan_extend(k) {
                None => None,
                Some(grown) => if grown.ok && grown.after.row(k).can_alloc(size, align) {
                    Some(
                        Outcome {
                            ok: true,
                            addr: grown.after.row(k).alloc_addr(size, align),
                            after: grown.after.with_row(
                                k,
                                grown.after.row(k).allocated(size, align),
                            ),
                        },
                    )
                } else {
                    Some(Outcome { ok: false, addr: 0, after: grown.after })
                },
            }
        }
    }

    /// What an allocation of `size` bytes with the alignment comes to,
    /// where the size has a category and the memory source need not be
    /// asked; `None` where it has none or the source must be asked.
    pub open spec fn plan(self, size: int, align: int) -> Option<Outcome> {
        if category_of(size) is Some {
            self.plan_allocate(category_of(size)->Some_0.bucket(), size, align)
        } else {
            None
        }
    }

    /// Whether a node of the very large chain has its stack at the address.
    pub open spec fn has_block(self, base: int) -> bool {
        exists|j: int|
            #![trigger self.very_large.stacks[j]]
            0 <= j < self.very_large.len() && self.very_large.stacks[j].base == base
    }

    /// Whether every stack of the very large chain lies where one lay in
    /// `before`: no block was taken up.
    pub open spec fn blocks_in(self, before: BucketsView) -> bool {
        forall|base: int| #[trigger] self.has_block(base) ==> before.has_block(base)
    }

    /// Whether every stack of the very large chain lies where one lay in
    /// `before`, or at the address `block`.
    pub open spec fn blocks_in_or(self, before: BucketsView, block: int) -> bool {
        forall|base: int| #[trigger] self.has_block(base) ==> before.has_block(base) || base == block
    }

    /// Whether a block at the address would have no byte in common with
    /// the stacks of the very large chain.
    pub open spec fn block_apart(self, block: int) -> bool {
        forall|i: int|
            0 <= i < self.very_large.len() ==> StackView::empty(block, 4096).apart(
                #[trigger] self.very_large.stacks[i],
            )
    }

    /// Whether the allocator takes what the memory source returned: a
    /// block at an address that is not null and aligned to 4 KiB, that ends
    /// below the end of the address space and has no byte in common with
    /// the stacks of the very large chain.
    pub open spec fn accepts(self, block: Option<usize>) -> bool {
        block matches Some(b) && valid_block(b as int) && self.block_apart(b as int)
    }

    /// Whether every chain is well formed with the chunk size of its bucket.
    pub open spec fn rows_wf(self) -> bool {
        forall|k: Bucket| #[trigger] self.row(k).wf(k.chunk())
    }

    /// Whether the stack of every node, but for those of the very large
    /// chain, is handed out by the parent chain as it stands in `hosts`.
    pub open spec fn hosted_by(self, hosts: BucketsView) -> bool {
        forall|k: Bucket, i: int|
            #![trigger self.row(k).stacks[i]]
            self.has(k, i) && k.parent() is Some ==> hosts.row(k.parent().unwrap()).holds(
                self.base(k, i),
                k.stack_bytes(),
            )
    }

    /// Whether the metadata of every node is handed out by the chain `meta`.
    pub open spec fn headed_by(self, meta: Row) -> bool {
        forall|k: Bucket, i: int|
            #![trigger self.row(k).headers[i]]
            self.has(k, i) ==> meta.holds(self.header(k, i), 64)
    }

    /// Whether no two nodes have their metadata at the same address.
    pub open spec fn headers_distinct(self) -> bool {
        forall|k: Bucket, i: int, l: Bucket, j: int|
            #![trigger self.row(k).headers[i], self.row(l).headers[j]]
            self.has(k, i) && self.has(l, j) && (k != l || i != j) ==> self.header(k, i)
                != self.header(l, j)
    }

    /// Whether the stacks of chains with the same parent have no byte in
    /// common.
    pub open spec fn siblings_apart(self) -> bool {
        forall|k: Bucket, i: int, l: Bucket, j: int|
            #![trigger self.row(k).stacks[i], self.row(l).stacks[j]]
            self.has(k, i) && self.has(l, j) && k != l && k.parent() == l.parent()
                ==> self.row(k).stacks[i].apart(self.row(l).stacks[j])
    }

    /// Whether the metadata of each node of the metadata chain lies in the
    /// node's own stack.
    pub open spec fn self_hosted(self) -> bool {
        forall|i: int|
            #![trigger self.metadata.stacks[i]]
            0 <= i < self.metadata.len() ==> self.metadata.stacks[i].owns(self.metadata.headers[i])
    }

    /// Whether no stack of the very large chain starts at the null address.
    pub open spec fn blocks_nonnull(self) -> bool {
        forall|i: int|
            #![trigger self.very_large.stacks[i]]
            0 <= i < self.very_large.len() ==> self.very_large.stacks[i].base > 0
    }

    /// The invariant of the allocator.
    ///
    /// Every chain is well formed with the chunk size of its bucket. The
    /// stack of every node, but for those of the very large chain, is
    /// handed out by the parent chain, and the metadata of every node is
    /// handed out by the metadata chain. No two of these allocations are the
    /// same or overlap. The metadata of each node of the metadata chain lies
    /// in the node's own stack. No block starts at the null address.
    pub open spec fn inv(self) -> bool {
        &&& self.rows_wf()
        &&& self.hosted_by(self)
        &&& self.headed_by(self.metadata)
        &&& self.headers_distinct()
        &&& self.siblings_apart()
        &&& self.self_hosted()
        &&& self.blocks_nonnull()
    }

    /// Whether the `size` bytes at `ptr` have no byte in common with the
    /// stack of a node that chain `k` hands out, nor, where `k` is the
    /// metadata chain, with the metadata of a node.
    pub open spec fn clear_of(self, k: Bucket, ptr: int, size: int) -> bool {
        &&& forall|l: Bucket, j: int|
            #![trigger self.row(l).stacks[j]]
            self.has(l, j) && l.parent() == Some(k) ==> !overlap(
                ptr,
                size,
                self.base(l, j),
                l.stack_bytes(),
            )
        &&& k == Bucket::Metadata ==> forall|l: Bucket, j: int|
            #![trigger self.row(l).headers[j]]
            self.has(l, j) ==> !overlap(ptr, size, self.header(l, j), 64)
    }

    /// Whether `size` bytes at `ptr` are handed out by chain `k` and are
    /// neither the stack nor the metadata of a node, nor a part of one: an
    /// allocation that someone outside the chains holds.
    pub open spec fn free_held(self, k: Bucket, ptr: int, size: int) -> bool {
        self.row(k).holds(ptr, size) && self.clear_of(k, ptr, size)
    }

    /// The owner of the address for an allocation of the size: the bucket
    /// of the size's category, if a node of its chain owns the address.
    pub open spec fn owner_of(self, ptr: int, size: int) -> Option<Bucket> {
        if category_of(size) is Some && self.row(category_of(size)->Some_0.bucket()).owner(ptr)
            < self.row(category_of(size)->Some_0.bucket()).len() {
            Some(category_of(size)->Some_0.bucket())
        } else {
            None
        }
    }

    /// Whether `size` bytes at `ptr` are an allocation that a caller of the
    /// allocator holds: the chain of the size's category hands them out, and
    /// they are no part of the allocator's own structures.
    pub open spec fn user_held(self, ptr: int, size: int) -> bool {
        category_of(size) matches Some(c) && self.free_held(c.bucket(), ptr, size)
    }

    /// The chains after the `size` bytes at `ptr` were taken back from
    /// chain `k`. Where that empties a node that is not the head of the
    /// chain, the node leaves the chain, its stack is taken back from the
    /// parent chain in the same way, and its metadata from the metadata
    /// chain. The stack of a node of the very large chain stays where it is.
    pub open spec fn deallocated(self, k: Bucket, ptr: int, size: int) -> BucketsView
        decreases k.depth(),
    {
        let row = self.row(k);
        let j = row.owner(ptr);
        let first = self.with_row(k, row.deallocated(ptr, size));
        if row.collapses(ptr, size) {
            let second = match k.parent() {
                Some(p) => first.deallocated(p, row.stacks[j].base, k.stack_bytes()),
                None => first,
            };
            second.with_row(Bucket::Metadata, second.metadata.deallocated(row.headers[j], 64))
        } else {
            first
        }
    }

    /// Whether the chain of the size's category can serve the request as it
    /// stands, without a new node.
    pub open spec fn serves(self, size: int, align: int) -> bool {
        category_of(size) matches Some(c) && self.row(c.bucket()).can_alloc(size, align)
    }

    /// The address that the chain of the size's category serves the request
    /// with: that of the first aligned chunk above the height of the first
    /// node with room for the request.
    pub open spec fn served_addr(self, size: int, align: int) -> int {
        self.row(category_of(size)->Some_0.bucket()).alloc_addr(size, align)
    }

    /// The chains after the chain of the size's category served the request.
    pub open spec fn served(self, size: int, align: int) -> BucketsView {
        let k = category_of(size)->Some_0.bucket();
        self.with_row(k, self.row(k).allocated(size, align))
    }

    /// Whether the allocation at `ptr` changes its size from `old_size` to
    /// `new_size` where it stands: both sizes are of one category, and the
    /// allocation shrinks, or the chunks that it needs to grow are free.
    pub open spec fn resizes_in_place(self, ptr: int, old_size: int, new_size: int) -> bool {
        &&& category_of(old_size) is Some
        &&& category_of(old_size) == category_of(new_size)
        &&& new_size <= old_size || self.row(category_of(old_size)->Some_0.bucket()).can_grow(
            ptr,
            old_size,
            new_size,
        )
    }

    /// The chains after the allocation at `ptr` changed its size where it
    /// stands.
    pub open spec fn resized(self, ptr: int, old_size: int, new_size: int) -> BucketsView {
        let k = category_of(old_size)->Some_0.bucket();
        if new_size <= old_size {
            self.with_row(k, self.row(k).shrunk(ptr, old_size, new_size))
        } else {
            self.with_row(k, self.row(k).grown(ptr, old_size, new_size))
        }
    }

    /// Whether every allocation that is held outside the chains in `self`
    /// still is in `after`.
    pub open spec fn kept_in(self, after: BucketsView) -> bool {
        forall|k: Bucket, q: int, t: int| #[trigger]
            self.free_held(k, q, t) ==> after.free_held(k, q, t)
    }

    /// Whether the chains that lie farther from the memory source than chain
    /// `k` are in `after` as they are in `self`, but for the metadata chain.
    pub open spec fn above_unchanged(self, after: BucketsView, k: Bucket) -> bool {
        forall|l: Bucket|
            l.depth() > k.depth() && l != Bucket::Metadata ==> #[trigger] after.row(l) == self.row(l)
    }

    /// Whether chain `k` is in `after` as it is in `self`, with one new node
    /// at its head.
    pub open spec fn grew_by_a_node(self, after: BucketsView, k: Bucket) -> bool {
        after.row(k).len() == self.row(k).len() + 1 && after.row(k).removed(0) == self.row(k)
    }

    /// The addresses of the chunks of chain `k` that are in use and belong
    /// neither to the stack nor to the metadata of a node: the chunks that
    /// someone outside the chains holds.
    pub open spec fn chunks_out(self, k: Bucket) -> Set<int> {
        Set::new(|a: int| self.free_held(k, a, 1))
    }

    /// Whether every chunk that is held outside the chains in `after` was
    /// so in `self`: nothing went out.
    pub open spec fn only_from(self, after: BucketsView) -> bool {
        forall|l: Bucket, a: int| #[trigger] after.free_held(l, a, 1) ==> self.free_held(l, a, 1)
    }

    /// Whether every chunk that is held outside the chains in `after` was
    /// so in `self`, or lies in the `size` bytes at `ptr` of chain `at`:
    /// nothing else went out.
    pub open spec fn only_from_or(self, after: BucketsView, at: Bucket, ptr: int, size: int) -> bool {
        forall|l: Bucket, a: int| #[trigger]
            after.free_held(l, a, 1) ==> self.free_held(l, a, 1) || (l == at && overlap(
                a,
                1,
                ptr,
                size,
            ))
    }

    /// Whether every chunk that is held outside the chains in `after` was
    /// so in `self`, and is no part of the `size` bytes at `ptr` of chain
    /// `at`: nothing went out, and those bytes came back.
    pub open spec fn only_from_but(self, after: BucketsView, at: Bucket, ptr: int, size: int) -> bool {
        forall|l: Bucket, a: int| #[trigger]
            after.free_held(l, a, 1) ==> self.free_held(l, a, 1) && !(l == at && overlap(
                a,
                1,
                ptr,
                size,
            ))
    }

    /// Whether every chunk that is held outside the chains in `after` was
    /// so in `self`, and where it is a part of the `old_size` bytes at `ptr`
    /// of chain `at` it is a part of the first `new_size` bytes of them.
    pub open spec fn only_from_shrunk(
        self,
        after: BucketsView,
        at: Bucket,
        ptr: int,
        old_size: int,
        new_size: int,
    ) -> bool {
        forall|l: Bucket, a: int| #[trigger]
            after.free_held(l, a, 1) ==> self.free_held(l, a, 1) && (l == at && overlap(
                a,
                1,
                ptr,
                old_size,
            ) ==> overlap(a, 1, ptr, new_size))
    }

    /// Whether the chunks that are held outside the chains are those that
    /// were so in `before`.
    pub open spec fn same_out(self, before: BucketsView) -> bool {
        forall|l: Bucket| #[trigger] self.chunks_out(l) == before.chunks_out(l)
    }

    /// Whether the chunks that are held outside the chains are those that
    /// were so in `before` and those of the `size` bytes at `ptr` of chain
    /// `k`.
    pub open spec fn gained(self, before: BucketsView, k: Bucket, ptr: int, size: int) -> bool {
        forall|l: Bucket| #[trigger]
            self.chunks_out(l) == before.chunks_out(l).union(chunks_in_of(l, k, ptr, size))
    }

    /// Whether the chunks that are held outside the chains are those that
    /// were so in `before` without those of the `size` bytes at `ptr` of
    /// chain `k`.
    pub open spec fn lost(self, before: BucketsView, k: Bucket, ptr: int, size: int) -> bool {
        forall|l: Bucket| #[trigger]
            self.chunks_out(l) == before.chunks_out(l).difference(chunks_in_of(l, k, ptr, size))
    }

    /// Whether the chunks that are held outside the chains are those that
    /// were so in `before`, without those of the `old_size` bytes at `ptr`
    /// of chain `k` and with those of the `new_size` bytes at `moved` of
    /// chain `m`.
    pub open spec fn swapped(
        self,
        before: BucketsView,
        k: Bucket,
        ptr: int,
        old_size: int,
        m: Bucket,
        moved: int,
        new_size: int,
    ) -> bool {
        forall|l: Bucket| #[trigger]
            self.chunks_out(l) == before.chunks_out(l).difference(
                chunks_in_of(l, k, ptr, old_size),
            ).union(chunks_in_of(l, m, moved, new_size))
    }

    /// Whether every allocation that is held outside the chains in `self`,
    /// and has no byte in common with the `size` bytes at `ptr` of chain
    /// `at`, still is held in `after`.
    pub open spec fn kept_but(self, after: BucketsView, at: Bucket, ptr: int, size: int) -> bool {
        forall|k: Bucket, q: int, t: int| #[trigger]
            self.free_held(k, q, t) && !(k == at && overlap(ptr, size, q, t))
                ==> after.free_held(k, q, t)
    }
}

} // verus!
