//! The `Allocator` type

use vstd::prelude::*;
use vstd::arithmetic::power2::is_pow2;
use crate::bitmapped_stack::overlap;
use crate::bucketed::{BucketedAllocator, Buckets, blocks_given, category_of};
use crate::chains::{Bucket, BucketsView};
use crate::error::AllocErr;
use crate::memory_source::MemorySource;

verus! {

/// The `Allocator` type is the allocator as the host sees it: it answers
/// with an address, or with the null address where it has nothing to give.
///
/// It keeps the six chains and the memory source. Entry is not serialized
/// here: a caller that shares the allocator puts it behind a latch.
#[derive(Debug)]
pub struct Allocator<T: MemorySource> {
    alloc: BucketedAllocator<T>,
}

impl<T: MemorySource> View for Allocator<T> {
    type V = BucketsView;

    closed spec fn view(&self) -> BucketsView {
        self.alloc@
    }
}

/// The address of a successful allocation, or the null address.
pub fn to_raw(ptr: Result<usize, AllocErr>) -> (r: usize)
    ensures
        r == match ptr {
            Ok(address) => address,
            Err(_) => 0,
        },
{
    match ptr {
        Ok(nonnull) => nonnull,
        _ => 0,
    }
}

impl<T: MemorySource> Allocator<T> {
    /// The memory source that the blocks of the very large chain come
    /// from.
    pub closed spec fn source(&self) -> T {
        self.alloc.source()
    }

    /// Creates an allocator over the memory source, without allocating any
    /// memory.
    pub fn new(source: T) -> (r: Self)
        ensures
            r@ == BucketsView::empty(),
            r@.inv(),
            r.source() == source,
    {
        Allocator { alloc: BucketedAllocator::new(Buckets::new(), source) }
    }

    /// Returns the number of nodes of the chain of the bucket, or
    /// `usize::MAX` where there are more.
    pub fn chain_len(&self, k: Bucket) -> (r: usize)
        ensures
            r == if self@.row(k).len() <= usize::MAX {
                self@.row(k).len()
            } else {
                usize::MAX as int
            },
    {
        self.alloc.chain_len(k)
    }

    /// Returns `true` iff the chain of the bucket has a head whose stack
    /// has handed out nothing.
    pub fn head_is_empty(&self, k: Bucket) -> (r: bool)
        ensures
            r == (self@.row(k).len() > 0 && self@.row(k).stacks[0].height == 0),
    {
        self.alloc.head_is_empty(k)
    }

    /// Returns whether `size` bytes at `ptr` are an allocation that a
    /// caller of the allocator holds: the chain of the size's category
    /// hands them out, and they are no part of the stack of a node.
    pub fn user_holds(&self, ptr: usize, size: usize) -> (r: bool)
        requires
            self@.inv(),
        ensures
            r == self@.user_held(ptr as int, size as int),
    {
        self.alloc.user_holds(ptr, size)
    }

    /// Hands out `size` bytes with the alignment, and returns their
    /// address, or the null address where the size is 0 or has no category,
    /// or where no memory is left.
    pub fn allocate(&mut self, size: usize, align: usize) -> (r: usize)
        requires
            old(self)@.inv(),
            is_pow2(align as int),
        ensures
            final(self)@.inv(),
            category_of(size as int) is None ==> r == 0 && final(self)@ == old(self)@,
            old(self)@.serves(size as int, align as int) ==> {
                &&& r == old(self)@.served_addr(size as int, align as int)
                &&& r != 0
                &&& final(self)@ == old(self)@.served(size as int, align as int)
            },
            r != 0 ==> {
                &&& final(self)@.user_held(r as int, size as int)
                &&& r % align == 0
                &&& forall|q: int, t: int| #[trigger]
                    old(self)@.user_held(q, t) ==> !overlap(r as int, size as int, q, t)
            },
            forall|q: int, t: int| #[trigger]
                old(self)@.user_held(q, t) ==> final(self)@.user_held(q, t),
            r != 0 ==> final(self)@.gained(
                old(self)@,
                category_of(size as int)->Some_0.bucket(),
                r as int,
                size as int,
            ),
            r == 0 ==> final(self)@.same_out(old(self)@),
            category_of(size as int) is Some && !old(self)@.serves(size as int, align as int) ==> {
                let k = category_of(size as int)->Some_0.bucket();
                &&& r != 0 ==> old(self)@.grew_by_a_node(final(self)@, k) && final(self)@.row(
                    k,
                ).owner(r as int) == 0
                &&& r == 0 ==> final(self)@.row(k) == old(self)@.row(k) || old(self)@.grew_by_a_node(
                    final(self)@,
                    k,
                )
                &&& old(self)@.above_unchanged(final(self)@, k)
            },
            old(self)@.plan(size as int, align as int) matches Some(planned) ==> {
                &&& r != 0 <==> planned.ok
                &&& r != 0 ==> r == planned.addr
                &&& final(self)@ == planned.after
            },
            final(self).source() == old(self).source(),
            blocks_given(old(self).source(), old(self)@, final(self)@),
    {
        if size == 0 {
            0
        } else {
            to_raw(self.alloc.allocate(size, align))
        }
    }

    /// Takes back the `size` bytes at `ptr`. A size of 0 is no allocation,
    /// and nothing happens.
    pub fn dealloc(&mut self, ptr: usize, size: usize, align: usize)
        requires
            old(self)@.inv(),
            ptr != 0,
            size != 0 ==> old(self)@.user_held(ptr as int, size as int),
        ensures
            final(self)@.inv(),
            size == 0 ==> final(self)@ == old(self)@,
            size != 0 ==> final(self)@ == old(self)@.deallocated(
                category_of(size as int)->Some_0.bucket(),
                ptr as int,
                size as int,
            ),
            forall|q: int, t: int| #[trigger]
                old(self)@.user_held(q, t) && !overlap(ptr as int, size as int, q, t)
                    ==> final(self)@.user_held(q, t),
            size != 0 ==> final(self)@.lost(
                old(self)@,
                category_of(size as int)->Some_0.bucket(),
                ptr as int,
                size as int,
            ),
            final(self).source() == old(self).source(),
            final(self)@.blocks_in(old(self)@),
    {
        if size != 0 {
            self.alloc.dealloc(ptr, size);
        }
    }

    /// Changes the size of the allocation at `ptr` from `old_size` to
    /// `new_size` bytes and returns its address, or the null address where
    /// that cannot be done; the allocation then stays as it is. With the
    /// null address for `ptr` this is an allocation of `new_size` bytes.
    ///
    /// Where the address changes, the caller moves the first
    /// `min(old_size, new_size)` bytes from the old address to the new one
    /// before the next call.
    pub fn realloc(&mut self, ptr: usize, old_size: usize, align: usize, new_size: usize) -> (r:
        usize)
        requires
            old(self)@.inv(),
            is_pow2(align as int),
            ptr != 0 ==> old(self)@.user_held(ptr as int, old_size as int),
        ensures
            final(self)@.inv(),
            ptr != 0 && old(self)@.resizes_in_place(ptr as int, old_size as int, new_size as int)
                ==> r == ptr && final(self)@ == old(self)@.resized(
                ptr as int,
                old_size as int,
                new_size as int,
            ),
            r != 0 ==> {
                &&& final(self)@.user_held(r as int, new_size as int)
                &&& r != ptr ==> r % align == 0 && (ptr != 0 ==> !overlap(
                    r as int,
                    new_size as int,
                    ptr as int,
                    old_size as int,
                ))
                &&& forall|q: int, t: int| #[trigger]
                    old(self)@.user_held(q, t) && (ptr != 0 ==> !overlap(
                        ptr as int,
                        old_size as int,
                        q,
                        t,
                    )) ==> !overlap(r as int, new_size as int, q, t)
            },
            r == 0 && ptr != 0 ==> final(self)@.user_held(ptr as int, old_size as int),
            r == 0 ==> final(self)@.same_out(old(self)@),
            r != 0 && ptr != 0 ==> final(self)@.swapped(
                old(self)@,
                category_of(old_size as int)->Some_0.bucket(),
                ptr as int,
                old_size as int,
                category_of(new_size as int)->Some_0.bucket(),
                r as int,
                new_size as int,
            ),
            r != 0 && ptr == 0 ==> final(self)@.gained(
                old(self)@,
                category_of(new_size as int)->Some_0.bucket(),
                r as int,
                new_size as int,
            ),
            ptr == 0 ==> {
                &&& category_of(new_size as int) is None ==> r == 0 && final(self)@ == old(self)@
                &&& old(self)@.serves(new_size as int, align as int) ==> {
                    &&& r == old(self)@.served_addr(new_size as int, align as int)
                    &&& r != 0
                    &&& final(self)@ == old(self)@.served(new_size as int, align as int)
                }
                &&& old(self)@.plan(new_size as int, align as int) matches Some(planned) ==> {
                    &&& r != 0 <==> planned.ok
                    &&& r != 0 ==> r == planned.addr
                    &&& final(self)@ == planned.after
                }
            },
            ptr != 0 && !old(self)@.resizes_in_place(ptr as int, old_size as int, new_size as int)
                ==> {
                &&& category_of(new_size as int) is None ==> r == 0 && final(self)@ == old(self)@
                &&& old(self)@.plan(new_size as int, align as int) matches Some(planned) ==> {
                    &&& r != 0 <==> planned.ok
                    &&& r != 0 ==> r == planned.addr && final(self)@ == planned.after.deallocated(
                        category_of(old_size as int)->Some_0.bucket(),
                        ptr as int,
                        old_size as int,
                    )
                    &&& r == 0 ==> final(self)@ == planned.after
                }
            },
            final(self).source() == old(self).source(),
            blocks_given(old(self).source(), old(self)@, final(self)@),
            forall|q: int, t: int| #[trigger]
                old(self)@.user_held(q, t) && (ptr != 0 ==> !overlap(
                    ptr as int,
                    old_size as int,
                    q,
                    t,
                )) ==> final(self)@.user_held(q, t),
    {
        if ptr != 0 {
            to_raw(self.alloc.realloc(ptr, old_size, new_size, align))
        } else {
            to_raw(self.alloc.allocate(new_size, align))
        }
    }
}

} // verus!
