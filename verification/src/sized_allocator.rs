//! This module implements the method for managing linked lists of stacks of a consistent size.

use vstd::prelude::*;
use vstd::arithmetic::power2::is_pow2;
use crate::arith::{lemma_chunks_for};
use crate::bitmapped_stack::{
    BitmappedStack,
    StackView,
    overlap,
    lemma_chunks_and_bytes,
    lemma_aligned_top,
    lemma_allocated,
    lemma_deallocated,
    lemma_grown,
    lemma_holds,
    lemma_shrunk,
};
use crate::bits::lemma_top_below;
use crate::error::{AllocErr, CannotReallocInPlace};
use crate::metadata_box::MetadataBox;

verus! {

/// The recommended action after deallocating
#[derive(Debug)]
pub enum DeallocResponse {
    /// Do nothing; everything's good
    Nothing,
    /// Remove this allocator and free its stack because it's empty
    ///
    /// It should be replaced by its backup allocator, if any
    Collapse,
    /// The given allocator should be freed; both the metadata and its stack.
    ///
    /// This happens when another allocator down the line was collapsed and its memory needs to be
    /// freed.
    FreeAllocator(MetadataBox<SizedAllocator>),
}

/// The index of the first stack that has room for the request, or the number
/// of stacks where none has.
pub open spec fn first_fit(stacks: Seq<StackView>, size: int, align: int) -> int
    decreases stacks.len(),
{
    if stacks.len() == 0 {
        0
    } else if stacks[0].can_alloc(size, align) {
        0
    } else {
        1 + first_fit(stacks.skip(1), size, align)
    }
}

/// The index of the first stack whose memory holds the address, or the
/// number of stacks where none does.
pub open spec fn first_owner(stacks: Seq<StackView>, ptr: int) -> int
    decreases stacks.len(),
{
    if stacks.len() == 0 {
        0
    } else if stacks[0].owns(ptr) {
        0
    } else {
        1 + first_owner(stacks.skip(1), ptr)
    }
}

/// Whether `size` bytes at `ptr` are handed out by the first stack whose
/// memory holds the address.
pub open spec fn held(stacks: Seq<StackView>, ptr: int, size: int) -> bool {
    first_owner(stacks, ptr) < stacks.len() && stacks[first_owner(stacks, ptr)].holds(ptr, size)
}

/// Whether no two of the stacks have a byte of memory in common.
pub open spec fn all_apart(stacks: Seq<StackView>) -> bool {
    forall|i: int, j: int|
        #![trigger stacks[i], stacks[j]]
        0 <= i < j < stacks.len() ==> stacks[i].apart(stacks[j])
}

/// Whether every stack is well formed and has the given chunk size.
pub open spec fn all_wf(stacks: Seq<StackView>, chunk: int) -> bool {
    forall|i: int| 0 <= i < stacks.len() ==> (#[trigger] stacks[i]).wf() && stacks[i].chunk == chunk
}

/// Whether the `size` bytes at `ptr` have no byte in common with the
/// memory of any of the stacks.
pub open spec fn clear_of_all(stacks: Seq<StackView>, ptr: int, size: int) -> bool {
    forall|i: int|
        #![trigger stacks[i]]
        0 <= i < stacks.len() ==> !overlap(ptr, size, stacks[i].base, 64 * stacks[i].chunk)
}

/// What a chain of stacks is, as far as its callers are concerned. The node
/// at index 0 is the head; each further node is the backup of the one before.
pub struct ChainView {
    /// The stack of each node.
    pub stacks: Seq<StackView>,
    /// The cached count of free chunks of each node.
    pub spaces: Seq<int>,
    /// The addresses of the metadata chunks of the nodes after the head:
    /// `headers[i]` belongs to the node at index `i + 1`.
    pub headers: Seq<int>,
}

impl ChainView {
    /// The chain of one node with an empty stack.
    pub open spec fn single(stack: StackView) -> ChainView {
        ChainView { stacks: seq![stack], spaces: seq![64 - stack.height], headers: seq![] }
    }

    /// The chain with a new head in front, whose former head has its
    /// metadata at `header`.
    pub open spec fn prepended(self, stack: StackView, header: int) -> ChainView {
        ChainView {
            stacks: seq![stack] + self.stacks,
            spaces: seq![64 - stack.height] + self.spaces,
            headers: seq![header] + self.headers,
        }
    }

    /// The invariant of a chain: every stack is well formed, all have the
    /// chunk size of the head, and each cached count is the number of chunks
    /// above the height of its stack.
    pub open spec fn wf(self) -> bool {
        &&& self.stacks.len() >= 1
        &&& self.spaces.len() == self.stacks.len()
        &&& self.headers.len() + 1 == self.stacks.len()
        &&& forall|i: int|
            #![trigger self.stacks[i]]
            0 <= i < self.stacks.len() ==> {
                &&& self.stacks[i].wf()
                &&& self.stacks[i].chunk == self.stacks[0].chunk
                &&& self.spaces[i] == 64 - self.stacks[i].height
            }
    }

    /// The chunk size that the nodes share.
    pub open spec fn chunk(self) -> int {
        self.stacks[0].chunk
    }

    /// The number of nodes.
    pub open spec fn len(self) -> int {
        self.stacks.len() as int
    }

    /// The chain with the stack of node `k` replaced.
    pub open spec fn with_stack(self, k: int, stack: StackView) -> ChainView {
        ChainView {
            stacks: self.stacks.update(k, stack),
            spaces: self.spaces.update(k, 64 - stack.height),
            headers: self.headers,
        }
    }

    /// The chain without node `k`, which is not the head.
    pub open spec fn without(self, k: int) -> ChainView {
        ChainView {
            stacks: self.stacks.remove(k),
            spaces: self.spaces.remove(k),
            headers: self.headers.remove(k - 1),
        }
    }

    /// The node that serves the request: the first one with room for it.
    pub open spec fn server(self, size: int, align: int) -> int {
        first_fit(self.stacks, size, align)
    }

    /// Whether some node has room for the request.
    pub open spec fn can_alloc(self, size: int, align: int) -> bool {
        self.server(size, align) < self.len()
    }

    /// The address that the request is served with.
    pub open spec fn alloc_addr(self, size: int, align: int) -> int {
        self.stacks[self.server(size, align)].alloc_addr(align)
    }

    /// The chain after the request was served.
    pub open spec fn allocated(self, size: int, align: int) -> ChainView {
        let k = self.server(size, align);
        self.with_stack(k, self.stacks[k].allocated(size, align))
    }

    /// The node that owns the address: the first one whose stack holds it.
    pub open spec fn owner(self, ptr: int) -> int {
        first_owner(self.stacks, ptr)
    }

    /// Whether some node owns the address.
    pub open spec fn owns(self, ptr: int) -> bool {
        self.owner(ptr) < self.len()
    }

    /// Whether `size` bytes at `ptr` are handed out by the node that owns
    /// the address.
    pub open spec fn holds(self, ptr: int, size: int) -> bool {
        self.owns(ptr) && self.stacks[self.owner(ptr)].holds(ptr, size)
    }

    /// Whether giving back `size` bytes at `ptr` empties the head, which
    /// stays in the chain.
    pub open spec fn drains_head(self, ptr: int, size: int) -> bool {
        self.owner(ptr) == 0 && self.stacks[0].deallocated(ptr, size).height == 0
    }

    /// Whether giving back `size` bytes at `ptr` empties a node that is not
    /// the head, so that the node leaves the chain.
    pub open spec fn collapses(self, ptr: int, size: int) -> bool {
        let k = self.owner(ptr);
        k > 0 && self.stacks[k].deallocated(ptr, size).height == 0
    }

    /// The chain after `size` bytes at `ptr` were given back.
    pub open spec fn deallocated(self, ptr: int, size: int) -> ChainView {
        let k = self.owner(ptr);
        if self.collapses(ptr, size) {
            self.without(k)
        } else {
            self.with_stack(k, self.stacks[k].deallocated(ptr, size))
        }
    }

    /// The chain after the allocation at `ptr` shrank.
    pub open spec fn shrunk(self, ptr: int, old_size: int, new_size: int) -> ChainView {
        let k = self.owner(ptr);
        self.with_stack(k, self.stacks[k].shrunk(ptr, old_size, new_size))
    }

    /// Whether the allocation at `ptr` can grow where it stands.
    pub open spec fn can_grow(self, ptr: int, old_size: int, new_size: int) -> bool {
        self.stacks[self.owner(ptr)].can_grow(ptr, old_size, new_size)
    }

    /// The chain after the allocation at `ptr` grew where it stands.
    pub open spec fn grown(self, ptr: int, old_size: int, new_size: int) -> ChainView {
        let k = self.owner(ptr);
        self.with_stack(k, self.stacks[k].grown(ptr, old_size, new_size))
    }
}

/// A `SizedAllocator` is a linked list of stacks whose chunk size is the same.
#[derive(Debug)]
pub struct SizedAllocator {
    primary: BitmappedStack,
    /// The backup allocator should have the same size chunk as the primary allocator
    backup: Option<MetadataBox<SizedAllocator>>,
    /// The number of chunks left above the height of the primary
    largest_space_left: usize,
}

impl View for SizedAllocator {
    type V = ChainView;

    closed spec fn view(&self) -> ChainView {
        self.chain()
    }
}

impl SizedAllocator {
    spec fn chain(&self) -> ChainView
        decreases self,
    {
        match self.backup {
            None => ChainView {
                stacks: seq![self.primary@],
                spaces: seq![self.largest_space_left as int],
                headers: seq![],
            },
            Some(b) => {
                let rest = b.data.chain();
                ChainView {
                    stacks: seq![self.primary@] + rest.stacks,
                    spaces: seq![self.largest_space_left as int] + rest.spaces,
                    headers: seq![b.ptr as int] + rest.headers,
                }
            },
        }
    }

    /// Create a new `SizedAllocator` from the given chunk of memory
    ///
    /// The caller must ensure that:
    ///  * The chunk size is a power of 2
    ///  * The memory has alignment `chunk_size` and size `STACK_SIZE * chunk_size`
    pub fn from_memory_chunk(
        chunk_size: usize,
        memory: usize,
        backup: Option<MetadataBox<SizedAllocator>>,
    ) -> (r: Self)
        requires
            StackView::valid_geometry(memory as int, chunk_size as int),
            backup matches Some(b) ==> b.value()@.wf() && b.value()@.chunk() == chunk_size,
        ensures
            r@.wf(),
            r@ == match backup {
                Some(b) => b.value()@.prepended(
                    StackView::empty(memory as int, chunk_size as int),
                    b.addr(),
                ),
                None => ChainView::single(StackView::empty(memory as int, chunk_size as int)),
            },
    {
        let ghost given = backup;
        let r = SizedAllocator {
            primary: BitmappedStack::new(memory, chunk_size),
            backup: backup,
            largest_space_left: 64,
        };
        proof {
            match given {
                Some(b) => {
                    let rest = b.value()@;
                    let whole = rest.prepended(
                        StackView::empty(memory as int, chunk_size as int),
                        b.addr(),
                    );
                    b.lemma_parts();
                    assert(r.chain().stacks =~= whole.stacks);
                    assert(r.chain().spaces =~= whole.spaces);
                    assert(r.chain().headers =~= whole.headers);
                    assert(r@ == whole);
                    assert forall|i: int| 0 <= i < whole.stacks.len() implies {
                        &&& (#[trigger] whole.stacks[i]).wf()
                        &&& whole.stacks[i].chunk == whole.stacks[0].chunk
                        &&& whole.spaces[i] == 64 - whole.stacks[i].height
                    } by {
                        if i > 0 {
                            assert(whole.stacks[i] == rest.stacks[i - 1]);
                        }
                    }
                },
                None => {},
            }
        }
        r
    }

    /// Returns the smallest size allocation possible
    pub fn chunk_size(&self) -> (r: usize)
        ensures
            r == self@.chunk(),
    {
        self.primary.chunk_size()
    }

    /// Returns the address of the bottom of the stack
    pub fn stack_pointer(&self) -> (r: usize)
        ensures
            r == self@.stacks[0].base,
    {
        self.primary.pointer()
    }

    /// Returns `true` if it owns the memory
    pub fn owns(&self, ptr: usize) -> (r: bool)
        requires
            self@.wf(),
        ensures
            r == self@.owns(ptr as int),
        decreases self,
    {
        proof {
            self.lemma_unfold();
            let rest = self@.stacks.skip(1);
            assert(rest.len() == self@.stacks.len() - 1);
            assert(rest.len() == 0 ==> first_owner(rest, ptr as int) == 0);
        }
        if self.primary.owns(ptr) {
            true
        } else if let Some(backup) = &self.backup {
            backup.data.owns(ptr)
        } else {
            false
        }
    }

    /// Returns `true` iff the stack of the head has handed out nothing.
    pub fn is_empty(&self) -> (r: bool)
        ensures
            r == (self@.stacks[0].height == 0),
            self@.wf() ==> r == (self@.stacks[0].used == Set::<int>::empty()),
    {
        proof {
            self.lemma_unfold();
        }
        self.primary.is_empty()
    }

    /// Returns the cached count of free chunks of the head.
    pub fn largest_space_left(&self) -> (r: usize)
        ensures
            r == self@.spaces[0],
    {
        proof {
            self.lemma_unfold();
        }
        self.largest_space_left
    }

    /// Returns the number of nodes of the chain, or `usize::MAX` where
    /// there are more.
    pub fn len(&self) -> (r: usize)
        ensures
            r == if self@.len() <= usize::MAX {
                self@.len()
            } else {
                usize::MAX as int
            },
        decreases self,
    {
        proof {
            self.lemma_unfold();
            self.lemma_shape();
        }
        match &self.backup {
            None => 1,
            Some(backup) => {
                proof {
                    backup.data.lemma_shape();
                    assert(self@.stacks.len() == backup.data@.stacks.len() + 1) by {
                        assert(self@.stacks.skip(1).len() == self@.stacks.len() - 1);
                    }
                }
                let rest = backup.data.len();
                if rest == usize::MAX {
                    usize::MAX
                } else {
                    rest + 1
                }
            },
        }
    }

    /// Returns whether `size` bytes at `ptr` are handed out by the node
    /// that owns the address.
    pub fn holds(&self, ptr: usize, size: usize) -> (r: bool)
        requires
            self@.wf(),
        ensures
            r == self@.holds(ptr as int, size as int),
        decreases self,
    {
        proof {
            self.lemma_unfold();
            let rest = self@.stacks.skip(1);
            assert(rest.len() == self@.stacks.len() - 1);
            assert(rest.len() == 0 ==> first_owner(rest, ptr as int) == 0);
            lemma_first_owner(rest, ptr as int);
        }
        if self.primary.owns(ptr) {
            self.primary.holds(ptr, size)
        } else if let Some(backup) = &self.backup {
            proof {
                let k = first_owner(self@.stacks.skip(1), ptr as int);
                if k < self@.stacks.skip(1).len() {
                    assert(self@.stacks[k + 1] == self@.stacks.skip(1)[k]);
                }
            }
            backup.data.holds(ptr, size)
        } else {
            false
        }
    }

    /// Returns whether the `size` bytes at `ptr` have no byte in common
    /// with the stack of any node.
    pub fn clear_of(&self, ptr: usize, size: usize) -> (r: bool)
        requires
            self@.wf(),
        ensures
            r == clear_of_all(self@.stacks, ptr as int, size as int),
        decreases self,
    {
        proof {
            self.lemma_unfold();
        }
        if self.primary.overlaps(ptr, size) {
            proof {
                assert(self@.stacks[0] == self.primary@);
            }
            false
        } else if let Some(backup) = &self.backup {
            let r = backup.data.clear_of(ptr, size);
            proof {
                let rest = backup.data@.stacks;
                if r {
                    assert forall|i: int|
                        #![trigger self@.stacks[i]]
                        0 <= i < self@.stacks.len() implies !overlap(
                        ptr as int,
                        size as int,
                        self@.stacks[i].base,
                        64 * self@.stacks[i].chunk,
                    ) by {
                        if i > 0 {
                            assert(self@.stacks[i] == rest[i - 1]);
                        }
                    }
                } else {
                    let i = choose|i: int|
                        #![trigger rest[i]]
                        0 <= i < rest.len() && overlap(
                            ptr as int,
                            size as int,
                            rest[i].base,
                            64 * rest[i].chunk,
                        );
                    assert(self@.stacks[i + 1] == rest[i]);
                }
            }
            r
        } else {
            proof {
                assert forall|i: int|
                    #![trigger self@.stacks[i]]
                    0 <= i < self@.stacks.len() implies !overlap(
                    ptr as int,
                    size as int,
                    self@.stacks[i].base,
                    64 * self@.stacks[i].chunk,
                ) by {}
            }
            true
        }
    }

    fn set_largest_space_left(&mut self)
        requires
            old(self).primary@.wf(),
        ensures
            final(self).primary == old(self).primary,
            final(self).backup == old(self).backup,
            final(self).largest_space_left == 64 - old(self).primary@.height,
    {
        self.largest_space_left = self.primary.chunks_left();
    }

    /// Serves the request from the first node that has room for it.
    pub fn allocate(&mut self, size: usize, align: usize) -> (r: Result<usize, AllocErr>)
        requires
            old(self)@.wf(),
            size > 0,
            is_pow2(align as int),
        ensures
            final(self)@.wf(),
            r is Ok <==> old(self)@.can_alloc(size as int, align as int),
            r matches Ok(ptr) ==> {
                &&& ptr == old(self)@.alloc_addr(size as int, align as int)
                &&& final(self)@ == old(self)@.allocated(size as int, align as int)
            },
            r matches Err(e) ==> e == AllocErr::OutOfCapacity && final(self)@ == old(self)@,
        decreases *old(self),
    {
        let ghost before = self@;
        proof {
            self.lemma_unfold();
            lemma_fast_reject(self.primary@, size as int, align as int);
            assert(before.stacks.skip(1).len() == before.stacks.len() - 1);
            assert(before.stacks.skip(1).len() == 0 ==> first_fit(
                before.stacks.skip(1),
                size as int,
                align as int,
            ) == 0);
        }
        let room: usize = self.chunk_size() * self.largest_space_left;
        if size <= room {
            match self.primary.allocate(size, align) {
                Ok(ptr) => {
                    self.set_largest_space_left();
                    proof {
                        self.lemma_unfold();
                        let after = before.allocated(size as int, align as int);
                        assert(self@.stacks =~= after.stacks);
                        assert(self@.spaces =~= after.spaces);
                        assert(self@.headers =~= after.headers);
                        lemma_with_stack(before, 0, self.primary@);
                    }
                    return Ok(ptr);
                },
                Err(_) => {},
            }
        }
        match self.backup.take() {
            None => {
                proof {
                    self.lemma_unfold();
                    assert(self@.stacks =~= before.stacks);
                    assert(self@.spaces =~= before.spaces);
                    assert(self@.headers =~= before.headers);
                }
                Err(AllocErr::OutOfCapacity)
            },
            Some(mut backup) => {
                let ghost rest = backup.data@;
                let r = (&mut *backup.data).allocate(size, align);
                self.backup = Some(backup);
                proof {
                    self.lemma_unfold();
                    let k = first_fit(rest.stacks, size as int, align as int);
                    lemma_first_fit(rest.stacks, size as int, align as int);
                    if r is Ok {
                        let stack = rest.stacks[k].allocated(size as int, align as int);
                        let after = before.allocated(size as int, align as int);
                        assert(before.stacks[k + 1] == rest.stacks[k]);
                        assert(rest.stacks[k].wf());
                        lemma_allocated(rest.stacks[k], size as int, align as int);
                        assert(self@.stacks =~= after.stacks);
                        assert(self@.spaces =~= after.spaces);
                        assert(self@.headers =~= after.headers);
                        lemma_with_stack(before, k + 1, stack);
                    } else {
                        assert(self@.stacks =~= before.stacks);
                        assert(self@.spaces =~= before.spaces);
                        assert(self@.headers =~= before.headers);
                    }
                }
                r
            },
        }
    }

    /// Takes back the `size` bytes at `ptr` from the node that owns them.
    ///
    /// Where that empties the head, the answer is `Collapse` and the chain
    /// stays as it is. Where it empties another node, that node is cut out
    /// of the chain and handed back in `FreeAllocator`, for the caller to
    /// free its stack and its metadata chunk.
    pub fn dealloc(&mut self, ptr: usize, size: usize) -> (r: DeallocResponse)
        requires
            old(self)@.wf(),
            old(self)@.holds(ptr as int, size as int),
        ensures
            final(self)@.wf(),
            final(self)@ == old(self)@.deallocated(ptr as int, size as int),
            final(self)@.chunk() == old(self)@.chunk(),
            r is Collapse <==> old(self)@.drains_head(ptr as int, size as int),
            r is FreeAllocator <==> old(self)@.collapses(ptr as int, size as int),
            r matches DeallocResponse::FreeAllocator(node) ==> {
                let k = old(self)@.owner(ptr as int);
                &&& node.addr() == old(self)@.headers[k - 1]
                &&& node.value()@ == ChainView::single(
                    old(self)@.stacks[k].deallocated(ptr as int, size as int),
                )
            },
        decreases *old(self),
    {
        let ghost before = self@;
        proof {
            self.lemma_unfold();
            lemma_first_owner(before.stacks, ptr as int);
            assert(before.stacks.skip(1).len() == before.stacks.len() - 1);
        }
        if self.primary.owns(ptr) {
            proof {
                lemma_deallocated(self.primary@, ptr as int, size as int);
            }
            self.primary.dealloc(ptr, size);
            self.set_largest_space_left();
            proof {
                self.lemma_unfold();
                let after = before.deallocated(ptr as int, size as int);
                assert(self@.stacks =~= after.stacks);
                assert(self@.spaces =~= after.spaces);
                assert(self@.headers =~= after.headers);
                lemma_with_stack(before, 0, self.primary@);
            }
            if self.primary.is_empty() {
                DeallocResponse::Collapse
            } else {
                DeallocResponse::Nothing
            }
        } else {
            let mut backup = self.backup.take().unwrap();
            let ghost rest = backup.data@;
            let ghost link = backup.ptr as int;
            let ghost k = first_owner(rest.stacks, ptr as int);
            proof {
                lemma_first_owner(rest.stacks, ptr as int);
                assert(before.stacks[k + 1] == rest.stacks[k]);
                assert(rest.stacks[k].wf());
                lemma_deallocated(rest.stacks[k], ptr as int, size as int);
            }
            let ghost stack = rest.stacks[k].deallocated(ptr as int, size as int);
            match (&mut *backup.data).dealloc(ptr, size) {
                DeallocResponse::Collapse => {
                    proof {
                        backup.data.lemma_unfold();
                    }
                    self.backup = backup.data.backup.take();
                    proof {
                        self.lemma_unfold();
                        backup.data.lemma_unfold();
                        backup.lemma_parts();
                        let after = before.without(1);
                        assert(self@.stacks =~= after.stacks);
                        assert(self@.spaces =~= after.spaces);
                        assert(self@.headers =~= after.headers);
                        lemma_without(before, 1);
                        assert(backup.data@.stacks =~= seq![stack]);
                        assert(backup.data@.spaces =~= seq![64int]);
                        assert(backup.data@.headers =~= Seq::<int>::empty());
                    }
                    DeallocResponse::FreeAllocator(backup)
                },
                x => {
                    self.backup = Some(backup);
                    proof {
                        self.lemma_unfold();
                        let after = before.deallocated(ptr as int, size as int);
                        assert(self@.stacks =~= after.stacks);
                        assert(self@.spaces =~= after.spaces);
                        assert(self@.headers =~= after.headers);
                        if before.collapses(ptr as int, size as int) {
                            lemma_without(before, k + 1);
                        } else {
                            lemma_with_stack(before, k + 1, stack);
                        }
                    }
                    x
                },
            }
        }
    }

    /// Cuts the allocation at `ptr` down from `old_size` to `new_size`
    /// bytes, in the node that owns it.
    pub fn shrink_in_place(&mut self, ptr: usize, old_size: usize, new_size: usize)
        requires
            old(self)@.wf(),
            old(self)@.holds(ptr as int, old_size as int),
            new_size <= old_size,
        ensures
            final(self)@.wf(),
            final(self)@ == old(self)@.shrunk(ptr as int, old_size as int, new_size as int),
        decreases *old(self),
    {
        let ghost before = self@;
        proof {
            self.lemma_unfold();
            lemma_first_owner(before.stacks, ptr as int);
            assert(before.stacks.skip(1).len() == before.stacks.len() - 1);
        }
        if self.primary.owns(ptr) {
            proof {
                lemma_shrunk(self.primary@, ptr as int, old_size as int, new_size as int);
            }
            self.primary.shrink_in_place(ptr, old_size, new_size);
            self.set_largest_space_left();
            proof {
                self.lemma_unfold();
                let after = before.shrunk(ptr as int, old_size as int, new_size as int);
                assert(self@.stacks =~= after.stacks);
                assert(self@.spaces =~= after.spaces);
                assert(self@.headers =~= after.headers);
                lemma_with_stack(before, 0, self.primary@);
            }
        } else {
            let mut backup = self.backup.take().unwrap();
            let ghost rest = backup.data@;
            let ghost k = first_owner(rest.stacks, ptr as int);
            proof {
                lemma_first_owner(rest.stacks, ptr as int);
                assert(before.stacks[k + 1] == rest.stacks[k]);
                assert(rest.stacks[k].wf());
                lemma_shrunk(rest.stacks[k], ptr as int, old_size as int, new_size as int);
            }
            (&mut *backup.data).shrink_in_place(ptr, old_size, new_size);
            self.backup = Some(backup);
            proof {
                self.lemma_unfold();
                let after = before.shrunk(ptr as int, old_size as int, new_size as int);
                assert(self@.stacks =~= after.stacks);
                assert(self@.spaces =~= after.spaces);
                assert(self@.headers =~= after.headers);
                lemma_with_stack(
                    before,
                    k + 1,
                    rest.stacks[k].shrunk(ptr as int, old_size as int, new_size as int),
                );
            }
        }
    }

    /// Extends the allocation at `ptr` from `old_size` to `new_size` bytes
    /// where it stands, in the node that owns it, or fails where the chunks
    /// above it are not free.
    pub fn grow_in_place(&mut self, ptr: usize, old_size: usize, new_size: usize) -> (r: Result<
        (),
        CannotReallocInPlace,
    >)
        requires
            old(self)@.wf(),
            old(self)@.holds(ptr as int, old_size as int),
            old_size <= new_size,
        ensures
            final(self)@.wf(),
            r is Ok <==> old(self)@.can_grow(ptr as int, old_size as int, new_size as int),
            r is Ok ==> final(self)@ == old(self)@.grown(
                ptr as int,
                old_size as int,
                new_size as int,
            ),
            r is Err ==> final(self)@ == old(self)@,
        decreases *old(self),
    {
        let ghost before = self@;
        proof {
            self.lemma_unfold();
            lemma_first_owner(before.stacks, ptr as int);
            assert(before.stacks.skip(1).len() == before.stacks.len() - 1);
        }
        if self.primary.owns(ptr) {
            proof {
                lemma_grown(self.primary@, ptr as int, old_size as int, new_size as int);
            }
            match self.primary.grow_in_place(ptr, old_size, new_size) {
                Ok(()) => {
                    self.set_largest_space_left();
                    proof {
                        self.lemma_unfold();
                        let after = before.grown(ptr as int, old_size as int, new_size as int);
                        assert(self@.stacks =~= after.stacks);
                        assert(self@.spaces =~= after.spaces);
                        assert(self@.headers =~= after.headers);
                        lemma_with_stack(before, 0, self.primary@);
                    }
                    Ok(())
                },
                Err(e) => {
                    proof {
                        self.lemma_unfold();
                        assert(self@.stacks =~= before.stacks);
                        assert(self@.spaces =~= before.spaces);
                        assert(self@.headers =~= before.headers);
                    }
                    Err(e)
                },
            }
        } else {
            let mut backup = self.backup.take().unwrap();
            let ghost rest = backup.data@;
            let ghost k = first_owner(rest.stacks, ptr as int);
            proof {
                lemma_first_owner(rest.stacks, ptr as int);
                assert(before.stacks[k + 1] == rest.stacks[k]);
                assert(rest.stacks[k].wf());
                lemma_grown(rest.stacks[k], ptr as int, old_size as int, new_size as int);
            }
            let r = (&mut *backup.data).grow_in_place(ptr, old_size, new_size);
            self.backup = Some(backup);
            proof {
                self.lemma_unfold();
                if r is Ok {
                    let after = before.grown(ptr as int, old_size as int, new_size as int);
                    assert(self@.stacks =~= after.stacks);
                    assert(self@.spaces =~= after.spaces);
                    assert(self@.headers =~= after.headers);
                    lemma_with_stack(
                        before,
                        k + 1,
                        rest.stacks[k].grown(ptr as int, old_size as int, new_size as int),
                    );
                } else {
                    assert(self@.stacks =~= before.stacks);
                    assert(self@.spaces =~= before.spaces);
                    assert(self@.headers =~= before.headers);
                }
            }
            r
        }
    }

    /// A chain has as many cached counts as stacks, one metadata address
    /// less, and at least one stack.
    pub proof fn lemma_shape(&self)
        ensures
            self@.stacks.len() >= 1,
            self@.spaces.len() == self@.stacks.len(),
            self@.headers.len() + 1 == self@.stacks.len(),
        decreases self,
    {
        match self.backup {
            None => {},
            Some(b) => {
                b.data.lemma_shape();
            },
        }
    }

    /// The view of a node is its own stack in front of the view of its
    /// backup, and the parts of a well-formed chain are well formed.
    proof fn lemma_unfold(&self)
        ensures
            self@.stacks.len() >= 1,
            self@.stacks[0] == self.primary@,
            self@.spaces.len() >= 1,
            self@.spaces[0] == self.largest_space_left,
            match self.backup {
                None => self@.stacks.len() == 1 && self@.spaces.len() == 1 && self@.headers.len()
                    == 0,
                Some(b) => {
                    &&& self@.stacks.skip(1) == b.data@.stacks
                    &&& self@.spaces.skip(1) == b.data@.spaces
                    &&& self@.headers.len() >= 1
                    &&& self@.headers[0] == b.ptr
                    &&& self@.headers.skip(1) == b.data@.headers
                    &&& self@.wf() ==> b.data@.wf() && b.data@.chunk() == self@.chunk()
                    &&& b.value() == *b.data
                },
            },
            self@.wf() ==> self.primary@.wf() && self.largest_space_left == 64
                - self.primary@.height,
    {
        match self.backup {
            None => {
                assert(self.chain().stacks =~= seq![self.primary@]);
                assert(self@.stacks.len() == 1);
            },
            Some(b) => {
                let rest = b.data@;
                b.lemma_parts();
                assert(self@.stacks.skip(1) =~= rest.stacks);
                assert(self@.spaces.skip(1) =~= rest.spaces);
                assert(self@.headers.skip(1) =~= rest.headers);
                if self@.wf() {
                    assert(self@.stacks[0].wf());
                    assert forall|i: int| 0 <= i < rest.stacks.len() implies {
                        &&& (#[trigger] rest.stacks[i]).wf()
                        &&& rest.stacks[i].chunk == rest.stacks[0].chunk
                        &&& rest.spaces[i] == 64 - rest.stacks[i].height
                    } by {
                        assert(rest.stacks[i] == self@.stacks[i + 1]);
                        assert(rest.stacks[0] == self@.stacks[1]);
                        assert(rest.spaces[i] == self@.spaces[i + 1]);
                    }
                }
            },
        }
        if self@.wf() {
            assert(self@.stacks[0].wf());
        }
    }
}

/// A request for more bytes than there are above the height of a stack does
/// not fit in the stack.
pub proof fn lemma_fast_reject(v: StackView, size: int, align: int)
    requires
        v.wf(),
        size > 0,
        is_pow2(align),
    ensures
        v.chunk > 0,
        0 <= v.chunk * (64 - v.height) <= 64 * v.chunk,
        size > v.chunk * (64 - v.height) ==> !v.can_alloc(size, align),
{
    lemma_aligned_top(v, align);
    lemma_chunks_for(size, v.chunk);
    let start = v.alloc_start(align);
    let n = v.chunks_for(size);
    assert(0 <= v.chunk * (64 - v.height) <= 64 * v.chunk) by (nonlinear_arith)
        requires
            0 <= v.height <= 64,
            v.chunk > 0,
    ;
    if size > v.chunk * (64 - v.height) {
        assert(start + n > 64) by (nonlinear_arith)
            requires
                size > v.chunk * (64 - v.height),
                size <= n * v.chunk,
                v.height <= start,
                v.chunk > 0,
        ;
    }
}

/// `first_fit` is the least index of a stack with room for the request.
pub proof fn lemma_first_fit(stacks: Seq<StackView>, size: int, align: int)
    ensures
        0 <= first_fit(stacks, size, align) <= stacks.len(),
        first_fit(stacks, size, align) < stacks.len() ==> stacks[first_fit(
            stacks,
            size,
            align,
        )].can_alloc(size, align),
        forall|j: int|
            0 <= j < first_fit(stacks, size, align) ==> !(#[trigger] stacks[j]).can_alloc(
                size,
                align,
            ),
    decreases stacks.len(),
{
    if stacks.len() > 0 && !stacks[0].can_alloc(size, align) {
        let rest = stacks.skip(1);
        lemma_first_fit(rest, size, align);
        assert forall|j: int| 0 <= j < first_fit(stacks, size, align) implies !(
        #[trigger] stacks[j]).can_alloc(size, align) by {
            if j > 0 {
                assert(stacks[j] == rest[j - 1]);
            }
        }
    }
}

/// `first_owner` is the least index of a stack whose memory holds the address.
pub proof fn lemma_first_owner(stacks: Seq<StackView>, ptr: int)
    ensures
        0 <= first_owner(stacks, ptr) <= stacks.len(),
        first_owner(stacks, ptr) < stacks.len() ==> stacks[first_owner(stacks, ptr)].owns(ptr),
        forall|j: int| 0 <= j < first_owner(stacks, ptr) ==> !(#[trigger] stacks[j]).owns(ptr),
    decreases stacks.len(),
{
    if stacks.len() > 0 && !stacks[0].owns(ptr) {
        let rest = stacks.skip(1);
        lemma_first_owner(rest, ptr);
        assert forall|j: int| 0 <= j < first_owner(stacks, ptr) implies !(
        #[trigger] stacks[j]).owns(ptr) by {
            if j > 0 {
                assert(stacks[j] == rest[j - 1]);
            }
        }
    }
}

/// Replacing the stack of a node by a well-formed stack of the same chunk
/// size keeps the chain well formed.
pub proof fn lemma_with_stack(c: ChainView, k: int, stack: StackView)
    requires
        c.wf(),
        0 <= k < c.len(),
        stack.wf(),
        stack.chunk == c.chunk(),
    ensures
        c.with_stack(k, stack).wf(),
        c.with_stack(k, stack).chunk() == c.chunk(),
        c.with_stack(k, stack).len() == c.len(),
{
    let d = c.with_stack(k, stack);
    assert forall|i: int| 0 <= i < d.stacks.len() implies {
        &&& (#[trigger] d.stacks[i]).wf()
        &&& d.stacks[i].chunk == d.stacks[0].chunk
        &&& d.spaces[i] == 64 - d.stacks[i].height
    } by {
        if i != k {
            assert(d.stacks[i] == c.stacks[i]);
        }
        assert(c.stacks[0].wf());
    }
}

/// Taking a node that is not the head out of a chain keeps the chain well
/// formed.
pub proof fn lemma_without(c: ChainView, k: int)
    requires
        c.wf(),
        0 < k < c.len(),
    ensures
        c.without(k).wf(),
        c.without(k).chunk() == c.chunk(),
        c.without(k).len() == c.len() - 1,
{
    let d = c.without(k);
    assert forall|i: int| 0 <= i < d.stacks.len() implies {
        &&& (#[trigger] d.stacks[i]).wf()
        &&& d.stacks[i].chunk == d.stacks[0].chunk
        &&& d.spaces[i] == 64 - d.stacks[i].height
    } by {
        if i < k {
            assert(d.stacks[i] == c.stacks[i]);
        } else {
            assert(d.stacks[i] == c.stacks[i + 1]);
        }
        assert(d.stacks[0] == c.stacks[0]);
    }
}

/// Among stacks that lie apart, the stack whose memory holds an address is
/// the first owner of the address.
pub proof fn lemma_owner_unique(stacks: Seq<StackView>, chunk: int, i: int, ptr: int)
    requires
        all_wf(stacks, chunk),
        all_apart(stacks),
        0 <= i < stacks.len(),
        stacks[i].owns(ptr),
    ensures
        first_owner(stacks, ptr) == i,
{
    lemma_first_owner(stacks, ptr);
    let k = first_owner(stacks, ptr);
    if k < i {
        assert(stacks[k].apart(stacks[i]));
    }
}

/// Who owns an address depends only on where the stacks lie.
pub proof fn lemma_owner_same_place(a: Seq<StackView>, b: Seq<StackView>, ptr: int)
    requires
        a.len() == b.len(),
        forall|i: int| 0 <= i < a.len() ==> (#[trigger] a[i]).same_place(b[i]),
    ensures
        first_owner(a, ptr) == first_owner(b, ptr),
    decreases a.len(),
{
    if a.len() > 0 {
        assert(a[0].same_place(b[0]));
        if !a[0].owns(ptr) {
            assert forall|i: int| 0 <= i < a.skip(1).len() implies (#[trigger] a.skip(1)[i]).same_place(
                b.skip(1)[i],
            ) by {
                assert(a[i + 1].same_place(b[i + 1]));
            }
            lemma_owner_same_place(a.skip(1), b.skip(1), ptr);
        }
    }
}

/// Taking out a stack that does not own an address moves the owner of the
/// address up by one where it stood behind the stack, and not at all where
/// it stood before it.
pub proof fn lemma_owner_remove(stacks: Seq<StackView>, k: int, ptr: int)
    requires
        0 <= k < stacks.len(),
        first_owner(stacks, ptr) != k,
    ensures
        first_owner(stacks.remove(k), ptr) == if first_owner(stacks, ptr) < k {
            first_owner(stacks, ptr)
        } else {
            first_owner(stacks, ptr) - 1
        },
    decreases stacks.len(),
{
    let rest = stacks.skip(1);
    lemma_first_owner(stacks, ptr);
    if k == 0 {
        assert(stacks.remove(0) =~= rest);
    } else {
        assert(stacks.remove(k)[0] == stacks[0]);
        if !stacks[0].owns(ptr) {
            assert(stacks.remove(k).skip(1) =~= rest.remove(k - 1));
            lemma_owner_remove(rest, k - 1, ptr);
        }
    }
}

/// Stacks that change only in which chunks are in use still lie apart.
pub proof fn lemma_apart_same_place(a: Seq<StackView>, b: Seq<StackView>)
    requires
        a.len() == b.len(),
        forall|i: int| 0 <= i < a.len() ==> (#[trigger] a[i]).same_place(b[i]),
        all_apart(a),
    ensures
        all_apart(b),
{
    assert forall|i: int, j: int| 0 <= i < j < b.len() implies (#[trigger] b[i]).apart(
        #[trigger] b[j],
    ) by {
        assert(a[i].same_place(b[i]));
        assert(a[j].same_place(b[j]));
        assert(a[i].apart(a[j]));
    }
}

/// Stacks that lie apart still do after one of them is taken out.
pub proof fn lemma_apart_remove(a: Seq<StackView>, k: int)
    requires
        0 <= k < a.len(),
        all_apart(a),
    ensures
        all_apart(a.remove(k)),
{
    let b = a.remove(k);
    assert forall|i: int, j: int| 0 <= i < j < b.len() implies (#[trigger] b[i]).apart(
        #[trigger] b[j],
    ) by {
        let i0 = if i < k {
            i
        } else {
            i + 1
        };
        let j0 = if j < k {
            j
        } else {
            j + 1
        };
        assert(a[i0].apart(a[j0]));
    }
}

/// An allocation stays handed out while the stacks only gain chunks in use.
pub proof fn lemma_held_grow(a: Seq<StackView>, b: Seq<StackView>, ptr: int, size: int)
    requires
        a.len() == b.len(),
        forall|i: int|
            0 <= i < a.len() ==> (#[trigger] a[i]).same_place(b[i]) && a[i].used.subset_of(
                b[i].used,
            ),
        held(a, ptr, size),
    ensures
        held(b, ptr, size),
{
    lemma_owner_same_place(a, b, ptr);
    lemma_first_owner(a, ptr);
    let k = first_owner(a, ptr);
    assert(a[k].same_place(b[k]));
}

/// What a chain that serves a request hands out was free: it has no byte
/// in common with anything that was handed out before, and all that was
/// handed out before still is.
pub proof fn lemma_allocated_frame(c: ChainView, size: int, align: int)
    requires
        c.wf(),
        all_apart(c.stacks),
        size > 0,
        is_pow2(align),
        c.can_alloc(size, align),
    ensures
        c.allocated(size, align).wf(),
        all_apart(c.allocated(size, align).stacks),
        c.allocated(size, align).holds(c.alloc_addr(size, align), size),
        c.alloc_addr(size, align) % align == 0,
        forall|q: int, t: int| #[trigger]
            held(c.stacks, q, t) ==> held(c.allocated(size, align).stacks, q, t) && !overlap(
                c.alloc_addr(size, align),
                size,
                q,
                t,
            ),
{
    let k = c.server(size, align);
    lemma_first_fit(c.stacks, size, align);
    let v = c.stacks[k];
    let w = v.allocated(size, align);
    let p = c.alloc_addr(size, align);
    let d = c.allocated(size, align);
    assert(v.wf());
    lemma_allocated(v, size, align);
    lemma_with_stack(c, k, w);
    assert forall|i: int| 0 <= i < c.stacks.len() implies (#[trigger] c.stacks[i]).same_place(
        d.stacks[i],
    ) && c.stacks[i].used.subset_of(d.stacks[i].used) by {}
    lemma_apart_same_place(c.stacks, d.stacks);
    assert(all_wf(d.stacks, c.chunk())) by {
        assert forall|i: int| 0 <= i < d.stacks.len() implies (#[trigger] d.stacks[i]).wf()
            && d.stacks[i].chunk == c.chunk() by {}
    }
    assert(d.stacks[k].owns(p));
    lemma_owner_unique(d.stacks, c.chunk(), k, p);
    assert forall|q: int, t: int| #[trigger] held(c.stacks, q, t) implies held(d.stacks, q, t)
        && !overlap(p, size, q, t) by {
        lemma_held_grow(c.stacks, d.stacks, q, t);
        lemma_first_owner(c.stacks, q);
        let j = first_owner(c.stacks, q);
        assert(c.stacks[j].wf());
        lemma_holds(c.stacks[j], q, t);
        if j == k {
            lemma_chunks_and_bytes(v, q, t, p, size);
        } else if j < k {
            assert(c.stacks[j].apart(c.stacks[k]));
        } else {
            assert(c.stacks[k].apart(c.stacks[j]));
        }
    }
}

/// All that is handed out by a chain, and has no byte in common with an
/// allocation that is given back, is still handed out afterwards.
pub proof fn lemma_deallocated_frame(c: ChainView, ptr: int, size: int)
    requires
        c.wf(),
        all_apart(c.stacks),
        c.holds(ptr, size),
    ensures
        c.deallocated(ptr, size).wf(),
        c.deallocated(ptr, size).chunk() == c.chunk(),
        all_apart(c.deallocated(ptr, size).stacks),
        forall|q: int, t: int| #[trigger]
            held(c.stacks, q, t) && !overlap(ptr, size, q, t) ==> held(
                c.deallocated(ptr, size).stacks,
                q,
                t,
            ),
{
    let k = c.owner(ptr);
    lemma_first_owner(c.stacks, ptr);
    let v = c.stacks[k];
    let w = v.deallocated(ptr, size);
    let d = c.deallocated(ptr, size);
    assert(v.wf());
    lemma_deallocated(v, ptr, size);
    lemma_holds(v, ptr, size);
    if c.collapses(ptr, size) {
        lemma_without(c, k);
        lemma_apart_remove(c.stacks, k);
        lemma_top_below(w.used, 64);
    } else {
        lemma_with_stack(c, k, w);
        assert forall|i: int| 0 <= i < c.stacks.len() implies (#[trigger] c.stacks[i]).same_place(
            d.stacks[i],
        ) by {}
        lemma_apart_same_place(c.stacks, d.stacks);
    }
    assert forall|q: int, t: int| #[trigger]
        held(c.stacks, q, t) && !overlap(ptr, size, q, t) implies held(d.stacks, q, t) by {
        lemma_first_owner(c.stacks, q);
        let j = first_owner(c.stacks, q);
        assert(c.stacks[j].wf());
        lemma_holds(c.stacks[j], q, t);
        if j == k {
            lemma_chunks_and_bytes(v, ptr, size, q, t);
            assert(w.chunks_at(q, t).subset_of(w.used));
            assert(w.holds(q, t));
            assert(w.used.contains(w.chunk_of(q)));
            lemma_top_below(w.used, 64);
            assert(w.height != 0);
            assert(!c.collapses(ptr, size));
        }
        if c.collapses(ptr, size) {
            lemma_owner_remove(c.stacks, k, q);
        } else {
            assert forall|i: int| 0 <= i < c.stacks.len() implies (
            #[trigger] c.stacks[i]).same_place(d.stacks[i]) by {}
            lemma_owner_same_place(c.stacks, d.stacks, q);
        }
    }
}

/// All that is handed out by stacks is still handed out after a stack that
/// lies apart from them is put in front.
pub proof fn lemma_prepended_frame(stacks: Seq<StackView>, chunk: int, head: StackView)
    requires
        all_wf(stacks, chunk),
        all_apart(stacks),
        head.wf(),
        head.chunk == chunk,
        forall|i: int| 0 <= i < stacks.len() ==> head.apart(#[trigger] stacks[i]),
    ensures
        all_wf(seq![head] + stacks, chunk),
        all_apart(seq![head] + stacks),
        forall|q: int, t: int| #[trigger]
            held(stacks, q, t) ==> held(seq![head] + stacks, q, t),
        forall|q: int, t: int|
            held(seq![head] + stacks, q, t) ==> #[trigger] held(stacks, q, t) || head.holds(q, t),
{
    let b = seq![head] + stacks;
    assert forall|i: int| 0 <= i < b.len() implies (#[trigger] b[i]).wf() && b[i].chunk
        == chunk by {
        if i > 0 {
            assert(b[i] == stacks[i - 1]);
        }
    }
    assert forall|i: int, j: int| 0 <= i < j < b.len() implies (#[trigger] b[i]).apart(
        #[trigger] b[j],
    ) by {
        assert(b[j] == stacks[j - 1]);
        if i > 0 {
            assert(b[i] == stacks[i - 1]);
            assert(stacks[i - 1].apart(stacks[j - 1]));
        } else {
            assert(head.apart(stacks[j - 1]));
        }
    }
    assert(b.skip(1) =~= stacks);
    assert forall|q: int, t: int| #[trigger] held(stacks, q, t) implies held(b, q, t) by {
        lemma_first_owner(stacks, q);
        let j = first_owner(stacks, q);
        assert(stacks[j].wf());
        lemma_holds(stacks[j], q, t);
        assert(head.apart(stacks[j]));
        assert(b[j + 1] == stacks[j]);
    }
    assert forall|q: int, t: int| held(b, q, t) implies #[trigger] held(stacks, q, t)
        || head.holds(q, t) by {
        lemma_first_owner(stacks, q);
        lemma_first_owner(b, q);
        if !head.owns(q) {
            assert(b[first_owner(b, q)] == stacks[first_owner(stacks, q)]);
        }
    }
}

/// All that is handed out by a chain, and has no byte in common with an
/// allocation that shrinks, is still handed out afterwards, and so is what
/// is left of the allocation.
pub proof fn lemma_shrunk_frame(c: ChainView, ptr: int, old_size: int, new_size: int)
    requires
        c.wf(),
        all_apart(c.stacks),
        c.holds(ptr, old_size),
        0 <= new_size <= old_size,
    ensures
        c.shrunk(ptr, old_size, new_size).wf(),
        c.shrunk(ptr, old_size, new_size).chunk() == c.chunk(),
        all_apart(c.shrunk(ptr, old_size, new_size).stacks),
        c.stacks.len() == c.shrunk(ptr, old_size, new_size).stacks.len(),
        forall|i: int|
            0 <= i < c.stacks.len() ==> (#[trigger] c.stacks[i]).same_place(
                c.shrunk(ptr, old_size, new_size).stacks[i],
            ),
        new_size > 0 ==> c.shrunk(ptr, old_size, new_size).holds(ptr, new_size),
        forall|q: int, t: int| #[trigger]
            held(c.stacks, q, t) && !overlap(ptr, old_size, q, t) ==> held(
                c.shrunk(ptr, old_size, new_size).stacks,
                q,
                t,
            ),
{
    let k = c.owner(ptr);
    lemma_first_owner(c.stacks, ptr);
    let v = c.stacks[k];
    let w = v.shrunk(ptr, old_size, new_size);
    let d = c.shrunk(ptr, old_size, new_size);
    assert(v.wf());
    lemma_shrunk(v, ptr, old_size, new_size);
    lemma_holds(v, ptr, old_size);
    lemma_with_stack(c, k, w);
    assert forall|i: int| 0 <= i < c.stacks.len() implies (#[trigger] c.stacks[i]).same_place(
        d.stacks[i],
    ) by {}
    lemma_apart_same_place(c.stacks, d.stacks);
    lemma_owner_same_place(c.stacks, d.stacks, ptr);
    assert forall|q: int, t: int| #[trigger]
        held(c.stacks, q, t) && !overlap(ptr, old_size, q, t) implies held(d.stacks, q, t) by {
        lemma_first_owner(c.stacks, q);
        lemma_owner_same_place(c.stacks, d.stacks, q);
        let j = first_owner(c.stacks, q);
        assert(c.stacks[j].wf());
        lemma_holds(c.stacks[j], q, t);
        if j == k {
            lemma_chunks_and_bytes(v, ptr, old_size, q, t);
            assert(v.tail_chunks(ptr, new_size, old_size).subset_of(v.chunks_at(ptr, old_size)));
            assert(w.chunks_at(q, t).subset_of(w.used));
        }
    }
}

/// Growing an allocation of a chain where it stands takes only chunks that
/// were free: the grown allocation has no byte in common with anything
/// else that the chain hands out, and all that was handed out still is.
pub proof fn lemma_grown_frame(c: ChainView, ptr: int, old_size: int, new_size: int)
    requires
        c.wf(),
        all_apart(c.stacks),
        c.holds(ptr, old_size),
        old_size <= new_size,
        c.can_grow(ptr, old_size, new_size),
    ensures
        c.grown(ptr, old_size, new_size).wf(),
        c.grown(ptr, old_size, new_size).chunk() == c.chunk(),
        all_apart(c.grown(ptr, old_size, new_size).stacks),
        c.stacks.len() == c.grown(ptr, old_size, new_size).stacks.len(),
        forall|i: int|
            0 <= i < c.stacks.len() ==> (#[trigger] c.stacks[i]).same_place(
                c.grown(ptr, old_size, new_size).stacks[i],
            ),
        c.grown(ptr, old_size, new_size).holds(ptr, new_size),
        forall|q: int, t: int| #[trigger]
            held(c.stacks, q, t) ==> held(c.grown(ptr, old_size, new_size).stacks, q, t),
        forall|q: int, t: int| #[trigger]
            held(c.stacks, q, t) && !overlap(ptr, old_size, q, t) ==> !overlap(
                ptr,
                new_size,
                q,
                t,
            ),
{
    let k = c.owner(ptr);
    lemma_first_owner(c.stacks, ptr);
    let v = c.stacks[k];
    let w = v.grown(ptr, old_size, new_size);
    let d = c.grown(ptr, old_size, new_size);
    assert(v.wf());
    lemma_grown(v, ptr, old_size, new_size);
    lemma_holds(v, ptr, old_size);
    lemma_holds(w, ptr, new_size);
    lemma_with_stack(c, k, w);
    assert forall|i: int| 0 <= i < c.stacks.len() implies (#[trigger] c.stacks[i]).same_place(
        d.stacks[i],
    ) && c.stacks[i].used.subset_of(d.stacks[i].used) by {}
    lemma_apart_same_place(c.stacks, d.stacks);
    lemma_owner_same_place(c.stacks, d.stacks, ptr);
    assert forall|q: int, t: int| #[trigger] held(c.stacks, q, t) implies held(d.stacks, q, t) by {
        lemma_held_grow(c.stacks, d.stacks, q, t);
    }
    assert forall|q: int, t: int| #[trigger]
        held(c.stacks, q, t) && !overlap(ptr, old_size, q, t) implies !overlap(
        ptr,
        new_size,
        q,
        t,
    ) by {
        lemma_first_owner(c.stacks, q);
        let j = first_owner(c.stacks, q);
        assert(c.stacks[j].wf());
        lemma_holds(c.stacks[j], q, t);
        if j == k {
            lemma_chunks_and_bytes(v, ptr, old_size, q, t);
            assert(w.chunks_at(ptr, new_size) =~= v.chunks_at(ptr, old_size).union(
                v.tail_chunks(ptr, old_size, new_size),
            ));
            assert(w.chunks_at(ptr, new_size).disjoint(w.chunks_at(q, t)));
            lemma_chunks_and_bytes(w, ptr, new_size, q, t);
        } else if j < k {
            assert(c.stacks[j].apart(c.stacks[k]));
        } else {
            assert(c.stacks[k].apart(c.stacks[j]));
        }
    }
}

} // verus!
