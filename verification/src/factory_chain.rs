//! This allocator owns its chains and its memory source.
//!
//! It has a chain of `SizedAllocator`s for each size category, with chunk
//! sizes ranging from 1 byte to 4 KiB.

use vstd::prelude::*;
use vstd::arithmetic::power2::is_pow2;
use crate::bitmapped_stack::overlap;
use crate::bucketed::{BucketedAllocator, Buckets, blocks_given, category_of};
use crate::chains::BucketsView;
use crate::error::AllocErr;
use crate::memory_source::MemorySource;

verus! {

/// The `FactoryChain` buckets allocations by size, like the
/// `BucketedAllocator` that it is built on, and starts with chains of its
/// own that hold nothing.
#[derive(Debug)]
pub struct FactoryChain<T: MemorySource> {
    chains: BucketedAllocator<T>,
}

impl<T: MemorySource> View for FactoryChain<T> {
    type V = BucketsView;

    closed spec fn view(&self) -> BucketsView {
        self.chains@
    }
}

impl<T: MemorySource> FactoryChain<T> {
    /// The memory source that the blocks of the very large chain come
    /// from.
    pub closed spec fn source(&self) -> T {
        self.chains.source()
    }

    /// Creates a new `FactoryChain<T>`, without allocating any memory.
    ///
    /// The first allocation will get a block from the memory source and initialize the necessary
    /// allocators.
    pub fn new(source: T) -> (r: Self)
        ensures
            r@ == BucketsView::empty(),
            r@.inv(),
            r.source() == source,
    {
        FactoryChain { chains: BucketedAllocator::new(Buckets::new(), source) }
    }

    /// Hands out `size` bytes with the alignment, as
    /// `BucketedAllocator::allocate` does.
    pub fn allocate(&mut self, size: usize, align: usize) -> (r: Result<usize, AllocErr>)
        requires
            old(self)@.inv(),
            is_pow2(align as int),
        ensures
            final(self)@.inv(),
            category_of(size as int) is None <==> r == Err::<usize, AllocErr>(
                AllocErr::OutOfCategory,
            ),
            category_of(size as int) is None ==> final(self)@ == old(self)@,
            old(self)@.serves(size as int, align as int) ==> {
                &&& r is Ok
                &&& r->Ok_0 == old(self)@.served_addr(size as int, align as int)
                &&& final(self)@ == old(self)@.served(size as int, align as int)
            },
            r matches Err(e) ==> !old(self)@.serves(size as int, align as int) && e == if category_of(
                size as int,
            ) is None {
                AllocErr::OutOfCategory
            } else {
                AllocErr::OutOfMemory
            },
            r matches Ok(ptr) ==> {
                &&& final(self)@.user_held(ptr as int, size as int)
                &&& ptr != 0
                &&& ptr % align == 0
                &&& forall|q: int, t: int| #[trigger]
                    old(self)@.user_held(q, t) ==> !overlap(ptr as int, size as int, q, t)
            },
            forall|q: int, t: int| #[trigger]
                old(self)@.user_held(q, t) ==> final(self)@.user_held(q, t),
            r matches Ok(ptr) ==> final(self)@.gained(
                old(self)@,
                category_of(size as int)->Some_0.bucket(),
                ptr as int,
                size as int,
            ),
            r is Err ==> final(self)@.same_out(old(self)@),
            category_of(size as int) is Some && !old(self)@.serves(size as int, align as int) ==> {
                let k = category_of(size as int)->Some_0.bucket();
                &&& r matches Ok(ptr) ==> old(self)@.grew_by_a_node(final(self)@, k) && final(self)@.row(
                    k,
                ).owner(ptr as int) == 0
                &&& r is Err ==> final(self)@.row(k) == old(self)@.row(k) || old(self)@.grew_by_a_node(
                    final(self)@,
                    k,
                )
                &&& old(self)@.above_unchanged(final(self)@, k)
            },
            old(self)@.plan(size as int, align as int) matches Some(planned) ==> {
                &&& r is Ok <==> planned.ok
                &&& r matches Ok(ptr) ==> ptr == planned.addr
                &&& final(self)@ == planned.after
            },
            final(self).source() == old(self).source(),
            blocks_given(old(self).source(), old(self)@, final(self)@),
    {
        self.chains.allocate(size, align)
    }

    /// Takes back the `size` bytes at `ptr`, as `BucketedAllocator::dealloc`
    /// does. A size of 0 is no allocation, and nothing happens.
    pub fn dealloc(&mut self, ptr: usize, size: usize)
        requires
            old(self)@.inv(),
            size != 0 ==> old(self)@.user_held(ptr as int, size as int),
        ensures
            final(self)@.inv(),
            size == 0 ==> final(self)@ == old(self)@,
            size != 0 ==> final(self)@ == old(self)@.deallocated(
                category_of(size as int)->Some_0.bucket(),
                ptr as int,
                size as int,
            ),
            forall|q: int, t: int| #[trigger]
                old(self)@.user_held(q, t) && !overlap(ptr as int, size as int, q, t)
                    ==> final(self)@.user_held(q, t),
            size != 0 ==> final(self)@.lost(
                old(self)@,
                category_of(size as int)->Some_0.bucket(),
                ptr as int,
                size as int,
            ),
            final(self).source() == old(self).source(),
            final(self)@.blocks_in(old(self)@),
    {
        self.chains.dealloc(ptr, size);
    }

    /// Changes the size of the allocation at `ptr` from `old_size` to
    /// `new_size` bytes.
    ///
    /// As `BucketedAllocator::realloc` does: where both sizes are of one
    /// category the allocation shrinks where it
    /// stands, or grows where it stands if the chunks above it are free,
    /// and the address stays. Otherwise `new_size` bytes are allocated with
    /// the alignment, and the old allocation is taken back: the caller
    /// moves the first `min(old_size, new_size)` bytes from the old address
    /// to the new one, which have no byte in common, before the next call.
    /// Where the new allocation fails the old one stays as it is.
    pub fn realloc(&mut self, ptr: usize, old_size: usize, new_size: usize, align: usize) -> (r:
        Result<usize, AllocErr>)
        requires
            old(self)@.inv(),
            old(self)@.user_held(ptr as int, old_size as int),
            is_pow2(align as int),
        ensures
            final(self)@.inv(),
            old(self)@.resizes_in_place(ptr as int, old_size as int, new_size as int) ==> {
                &&& r is Ok
                &&& r->Ok_0 == ptr
                &&& final(self)@ == old(self)@.resized(
                    ptr as int,
                    old_size as int,
                    new_size as int,
                )
            },
            r matches Ok(moved) ==> {
                &&& final(self)@.user_held(moved as int, new_size as int)
                &&& moved != 0
                &&& moved != ptr ==> {
                    &&& !old(self)@.resizes_in_place(ptr as int, old_size as int, new_size as int)
                    &&& moved % align == 0
                    &&& !overlap(moved as int, new_size as int, ptr as int, old_size as int)
                }
                &&& forall|q: int, t: int| #[trigger]
                    old(self)@.user_held(q, t) && !overlap(ptr as int, old_size as int, q, t)
                        ==> !overlap(moved as int, new_size as int, q, t)
            },
            r matches Err(e) ==> {
                &&& !old(self)@.resizes_in_place(ptr as int, old_size as int, new_size as int)
                &&& final(self)@.user_held(ptr as int, old_size as int)
                &&& e == if category_of(new_size as int) is None {
                    AllocErr::OutOfCategory
                } else {
                    AllocErr::OutOfMemory
                }
            },
            forall|q: int, t: int| #[trigger]
                old(self)@.user_held(q, t) && !overlap(ptr as int, old_size as int, q, t)
                    ==> final(self)@.user_held(q, t),
            r matches Ok(moved) ==> final(self)@.swapped(
                old(self)@,
                category_of(old_size as int)->Some_0.bucket(),
                ptr as int,
                old_size as int,
                category_of(new_size as int)->Some_0.bucket(),
                moved as int,
                new_size as int,
            ),
            r is Err ==> final(self)@.same_out(old(self)@),
            !old(self)@.resizes_in_place(ptr as int, old_size as int, new_size as int) ==> {
                &&& category_of(new_size as int) is None ==> final(self)@ == old(self)@
                &&& old(self)@.plan(new_size as int, align as int) matches Some(planned) ==> {
                    &&& r is Ok <==> planned.ok
                    &&& r matches Ok(moved) ==> moved == planned.addr && final(self)@
                        == planned.after.deallocated(
                        category_of(old_size as int)->Some_0.bucket(),
                        ptr as int,
                        old_size as int,
                    )
                    &&& r is Err ==> final(self)@ == planned.after
                }
            },
            final(self).source() == old(self).source(),
            blocks_given(old(self).source(), old(self)@, final(self)@),
    {
        self.chains.realloc(ptr, old_size, new_size, align)
    }
}

} // verus!
