//! A stack allocator with a bitmap, so that it can give chunks back.

use vstd::prelude::*;
use vstd::arithmetic::power2::is_pow2;
use vstd::arithmetic::div_mod::*;
use crate::arith::{
    chunks_for,
    round_up,
    lemma_round_up,
    lemma_chunks_for,
    lemma_chunks_for_monotone,
    lemma_multiple_of_multiple,
    lemma_pow2_divides,
    lemma_pow2_positive,
};
use crate::bits::{
    bits_of,
    span,
    top_below,
    range_mask,
    lemma_top_below,
    lemma_top_below_unique,
    lemma_bits_of_zero,
    lemma_bits_of_or,
    lemma_bits_of_and_not,
    lemma_bits_of_disjoint,
    lemma_bits_of_subset,
    lemma_bits_of_height,
};
use crate::error::{AllocErr, CannotReallocInPlace};

verus! {

/// The size, in chunks, of each bitmapped stack.
pub const STACK_SIZE: usize = 64;

/// Rounds the given number up to fit the alignment, or returns `None` where
/// the rounded number does not fit in a `usize`.
pub fn round_up_to_alignment(x: usize, alignment: usize) -> (r: Option<usize>)
    requires
        alignment > 0,
    ensures
        r matches Some(y) ==> y == round_up(x as int, alignment as int),
        r is None <==> round_up(x as int, alignment as int) > usize::MAX,
{
    let rest: usize = x % alignment;
    if rest == 0 {
        Some(x)
    } else {
        x.checked_add(alignment - rest)
    }
}

/// Whether the `s` bytes at `p` and the `t` bytes at `q` have a byte in
/// common.
pub open spec fn overlap(p: int, s: int, q: int, t: int) -> bool {
    p < q + t && q < p + s
}

/// What a bitmapped stack is, as far as its callers are concerned.
pub struct StackView {
    /// The address of the first chunk.
    pub base: int,
    /// The size of a chunk in bytes.
    pub chunk: int,
    /// The number of chunks below the high-water mark.
    pub height: int,
    /// The numbers of the chunks that are handed out.
    pub used: Set<int>,
}

impl StackView {
    /// A stack of 64 chunks of `chunk` bytes at `base` can exist: the chunk
    /// size is a power of two, the base is aligned to it, and the last byte
    /// has an address.
    pub open spec fn valid_geometry(base: int, chunk: int) -> bool {
        &&& is_pow2(chunk)
        &&& 0 <= base
        &&& base % chunk == 0
        &&& base + 64 * chunk <= usize::MAX
    }

    /// The stack at `base` with nothing handed out.
    pub open spec fn empty(base: int, chunk: int) -> StackView {
        StackView { base, chunk, height: 0, used: Set::empty() }
    }

    /// The invariant of a stack: a valid geometry, chunk numbers below 64,
    /// and a height that sits right on top of the highest chunk in use.
    pub open spec fn wf(self) -> bool {
        &&& Self::valid_geometry(self.base, self.chunk)
        &&& self.used.subset_of(span(0, 64))
        &&& self.height == top_below(self.used, 64)
    }

    /// Whether the address lies in the stack's memory.
    pub open spec fn owns(self, ptr: int) -> bool {
        self.base <= ptr < self.base + 64 * self.chunk
    }

    /// The number of chunks that `bytes` bytes take up.
    pub open spec fn chunks_for(self, bytes: int) -> int {
        chunks_for(bytes, self.chunk)
    }

    /// The number of the chunk that holds the address.
    pub open spec fn chunk_of(self, ptr: int) -> int {
        (ptr - self.base) / self.chunk
    }

    /// The address of the chunk with the given number.
    pub open spec fn addr_of(self, chunk: int) -> int {
        self.base + chunk * self.chunk
    }

    /// The chunk at which an allocation with this alignment would start:
    /// the first chunk at or above the height whose address is aligned.
    pub open spec fn alloc_start(self, align: int) -> int {
        self.chunk_of(round_up(self.addr_of(self.height), align))
    }

    /// Whether an allocation of `size` bytes with this alignment fits below
    /// the end of the stack.
    pub open spec fn can_alloc(self, size: int, align: int) -> bool {
        self.alloc_start(align) + self.chunks_for(size) <= 64
    }

    /// The address that an allocation with this alignment returns.
    pub open spec fn alloc_addr(self, align: int) -> int {
        self.addr_of(self.alloc_start(align))
    }

    /// Whether the memory of this stack and the memory of `other` have no
    /// byte in common.
    pub open spec fn apart(self, other: StackView) -> bool {
        self.base + 64 * self.chunk <= other.base || other.base + 64 * other.chunk <= self.base
    }

    /// Whether the two stacks lie at the same place and have the same chunk
    /// size.
    pub open spec fn same_place(self, other: StackView) -> bool {
        self.base == other.base && self.chunk == other.chunk
    }

    /// The stack after an allocation of `size` bytes with this alignment.
    pub open spec fn allocated(self, size: int, align: int) -> StackView {
        let start = self.alloc_start(align);
        let end = start + self.chunks_for(size);
        StackView { height: end, used: self.used.union(span(start, end)), ..self }
    }

    /// The chunks that `size` bytes at `ptr` take up.
    pub open spec fn chunks_at(self, ptr: int, size: int) -> Set<int> {
        span(self.chunk_of(ptr), self.chunk_of(ptr) + self.chunks_for(size))
    }

    /// Whether `size` bytes at `ptr` are handed out: the address is that of
    /// a chunk of this stack, the size is not zero, and every chunk of the
    /// range is in use.
    pub open spec fn holds(self, ptr: int, size: int) -> bool {
        &&& self.owns(ptr)
        &&& (ptr - self.base) % self.chunk == 0
        &&& size > 0
        &&& self.chunks_at(ptr, size).subset_of(self.used)
    }

    /// The stack with the given chunks in use and the height that goes
    /// with them.
    pub open spec fn with_used(self, used: Set<int>) -> StackView {
        StackView { height: top_below(used, 64), used, ..self }
    }

    /// The stack after `size` bytes at `ptr` were given back.
    pub open spec fn deallocated(self, ptr: int, size: int) -> StackView {
        self.with_used(self.used.difference(self.chunks_at(ptr, size)))
    }

    /// The chunks between the end of `less` bytes at `ptr` and the end of
    /// `more` bytes at `ptr`.
    pub open spec fn tail_chunks(self, ptr: int, less: int, more: int) -> Set<int> {
        span(
            self.chunk_of(ptr) + self.chunks_for(less),
            self.chunk_of(ptr) + self.chunks_for(more),
        )
    }

    /// The stack after the allocation at `ptr` shrank from `old_size` to
    /// `new_size` bytes.
    pub open spec fn shrunk(self, ptr: int, old_size: int, new_size: int) -> StackView {
        self.with_used(self.used.difference(self.tail_chunks(ptr, new_size, old_size)))
    }

    /// Whether the allocation at `ptr` can grow from `old_size` to
    /// `new_size` bytes where it stands: the chunks it would add lie in the
    /// stack and are free.
    pub open spec fn can_grow(self, ptr: int, old_size: int, new_size: int) -> bool {
        &&& self.chunk_of(ptr) + self.chunks_for(new_size) <= 64
        &&& self.tail_chunks(ptr, old_size, new_size).disjoint(self.used)
    }

    /// The stack after the allocation at `ptr` grew from `old_size` to
    /// `new_size` bytes.
    pub open spec fn grown(self, ptr: int, old_size: int, new_size: int) -> StackView {
        self.with_used(self.used.union(self.tail_chunks(ptr, old_size, new_size)))
    }
}

/// An upwards-growing stack of 64 chunks with a bitmap of the chunks in use.
#[derive(Debug)]
pub struct BitmappedStack {
    /// The bottom of the stack
    bottom: usize,
    /// Measured in units of `chunk_size`
    current_height: usize,
    /// Measured in bytes
    chunk_size: usize,
    /// Each bit is one chunk
    bitmap: u64,
}

impl View for BitmappedStack {
    type V = StackView;

    closed spec fn view(&self) -> StackView {
        StackView {
            base: self.bottom as int,
            chunk: self.chunk_size as int,
            height: self.current_height as int,
            used: bits_of(self.bitmap),
        }
    }
}

impl BitmappedStack {
    /// Returns a new, empty `BitmappedStack` over the 64 chunks of
    /// `chunk_size` bytes that start at `pointer`.
    pub fn new(pointer: usize, chunk_size: usize) -> (stack: Self)
        requires
            StackView::valid_geometry(pointer as int, chunk_size as int),
        ensures
            stack@ == StackView::empty(pointer as int, chunk_size as int),
            stack@.wf(),
    {
        proof {
            lemma_bits_of_zero();
            lemma_top_below_unique(Set::<int>::empty(), 64, 0);
        }
        BitmappedStack { bottom: pointer, current_height: 0, chunk_size, bitmap: 0 }
    }

    /// Returns whether or not this allocator owns this memory
    pub fn owns(&self, pointer: usize) -> (r: bool)
        requires
            self@.wf(),
        ensures
            r == self@.owns(pointer as int),
    {
        let end: usize = self.chunk_to_ptr(STACK_SIZE);
        self.bottom <= pointer && pointer < end
    }

    /// Returns the smallest allocation size of the stack
    pub fn chunk_size(&self) -> (r: usize)
        ensures
            r == self@.chunk,
    {
        self.chunk_size
    }

    /// Returns the address of the bottom of the stack
    pub fn pointer(&self) -> (r: usize)
        ensures
            r == self@.base,
    {
        self.bottom
    }

    /// Returns true iff there are no allocations on the stack
    pub fn is_empty(&self) -> (r: bool)
        ensures
            r == (self@.height == 0),
            self@.wf() ==> r == (self@.used == Set::<int>::empty()),
    {
        proof {
            if self@.wf() {
                lemma_top_below(self@.used, 64);
                if self@.height == 0 {
                    assert(self@.used =~= Set::<int>::empty());
                }
            }
        }
        self.current_height == 0
    }

    /// Returns the bitmap: bit `i` is set where chunk `i` is handed out.
    pub fn bitmap(&self) -> (r: u64)
        ensures
            bits_of(r) == self@.used,
    {
        self.bitmap
    }

    /// Returns the height: the number of chunks below the high-water mark.
    pub fn height(&self) -> (r: usize)
        ensures
            r == self@.height,
    {
        self.current_height
    }

    /// Returns the number of chunks above the height.
    pub fn chunks_left(&self) -> (r: usize)
        requires
            self@.wf(),
        ensures
            r == 64 - self@.height,
    {
        proof {
            lemma_top_below(self@.used, 64);
        }
        STACK_SIZE - self.current_height
    }

    /// States that the stack has handed out nothing. There is nothing to do
    /// at run time: a caller that cannot show it does not verify.
    pub fn debug_assert_empty(&self)
        requires
            self@.wf(),
            self@.used =~= Set::<int>::empty(),
        ensures
            self@.height == 0,
    {
        proof {
            lemma_top_below(self@.used, 64);
        }
    }

    /// States that the stack has handed out something. There is nothing to
    /// do at run time: a caller that cannot show it does not verify.
    pub fn debug_assert_nonempty(&self)
        requires
            self@.wf(),
            !(self@.used =~= Set::<int>::empty()),
        ensures
            self@.height != 0,
    {
        proof {
            lemma_top_below(self@.used, 64);
            if self@.height == 0 {
                assert(self@.used =~= Set::<int>::empty());
            }
        }
    }

    /// Returns the number of chunks required for the given number of bytes
    fn chunks_for(&self, bytes: usize) -> (r: usize)
        requires
            self@.chunk > 0,
        ensures
            r == self@.chunks_for(bytes as int),
    {
        proof {
            lemma_chunks_for(bytes as int, self@.chunk);
        }
        // Divide by chunk size, rounding up
        let mut res: usize = bytes / self.chunk_size;
        if bytes % self.chunk_size != 0 {
            res += 1;
        }
        res
    }

    /// Mark the chunks as allocated in the bitmap
    fn bitmap_allocate(&mut self, start: usize, end: usize)
        requires
            start <= end <= STACK_SIZE,
        ensures
            final(self)@ == (StackView {
                used: old(self)@.used.union(span(start as int, end as int)),
                ..old(self)@
            }),
    {
        let mask: u64 = range_mask(start, end);
        proof {
            lemma_bits_of_or(self.bitmap, mask);
        }
        self.bitmap |= mask;
    }

    /// Mark the chunks as deallocated in the bitmap
    fn bitmap_deallocate(&mut self, start: usize, end: usize)
        requires
            start <= end <= STACK_SIZE,
        ensures
            final(self)@ == (StackView {
                used: old(self)@.used.difference(span(start as int, end as int)),
                ..old(self)@
            }),
    {
        let mask: u64 = range_mask(start, end);
        proof {
            lemma_bits_of_and_not(self.bitmap, mask);
        }
        self.bitmap &= !mask;
    }

    /// Returns `true` iff the chunk is marked as allocated by the bitmap
    fn is_chunk_allocated(&self, chunk: usize) -> (r: bool)
        requires
            chunk < STACK_SIZE,
        ensures
            r == self@.used.contains(chunk as int),
    {
        let k: u64 = chunk as u64;
        let bitmap: u64 = self.bitmap;
        assert((bitmap & (1u64 << k) != 0) == ((bitmap >> k) & 1 == 1)) by (bit_vector)
            requires
                k < 64,
        ;
        bitmap & (1u64 << k) != 0
    }

    /// Returns `true` if all the chunks in the range are marked as allocated in the bitmap
    fn all_allocated(&self, start: usize, end: usize) -> (r: bool)
        requires
            start <= end <= STACK_SIZE,
        ensures
            r == span(start as int, end as int).subset_of(self@.used),
    {
        let mask: u64 = range_mask(start, end);
        proof {
            lemma_bits_of_subset(self.bitmap, mask);
        }
        self.bitmap | (!mask) == !0
    }

    /// Returns `true` if all the chunks in the range are marked as deallocated in the bitmap
    fn all_deallocated(&self, start: usize, end: usize) -> (r: bool)
        requires
            start <= end <= STACK_SIZE,
        ensures
            r == span(start as int, end as int).disjoint(self@.used),
    {
        let mask: u64 = range_mask(start, end);
        proof {
            lemma_bits_of_disjoint(self.bitmap, mask);
        }
        self.bitmap & mask == 0
    }

    /// Returns the chunk number associated with the address.
    fn ptr_to_chunk(&self, ptr: usize) -> (r: usize)
        requires
            self@.chunk > 0,
            self@.base <= ptr,
        ensures
            r == self@.chunk_of(ptr as int),
    {
        (ptr - self.bottom) / self.chunk_size
    }

    /// Returns the address of the chunk at that number.
    fn chunk_to_ptr(&self, chunk: usize) -> (r: usize)
        requires
            self@.wf(),
            chunk <= STACK_SIZE,
        ensures
            r == self@.addr_of(chunk as int),
    {
        proof {
            lemma_pow2_positive(self@.chunk);
            assert(0 <= chunk * self.chunk_size <= 64 * self.chunk_size) by (nonlinear_arith)
                requires
                    0 <= chunk <= 64,
                    self.chunk_size > 0,
            ;
        }
        let byte_offset: usize = chunk * self.chunk_size;
        self.bottom + byte_offset
    }

    /// Lowers the height past as many deallocated chunks as possible
    fn shrink_height(&mut self)
        ensures
            final(self)@ == old(self)@.with_used(old(self)@.used),
    {
        proof {
            vstd::std_specs::bits::axiom_u64_leading_zeros(self.bitmap);
            lemma_bits_of_height(self.bitmap);
        }
        self.current_height = 64 - self.bitmap.leading_zeros() as usize;
    }

    /// Returns whether `size` bytes at `ptr` are handed out: the address is
    /// that of a chunk of this stack, the size is not zero, and every chunk
    /// of the range is in use.
    pub fn holds(&self, ptr: usize, size: usize) -> (r: bool)
        requires
            self@.wf(),
        ensures
            r == self@.holds(ptr as int, size as int),
    {
        proof {
            lemma_pow2_positive(self@.chunk);
            lemma_chunks_for(size as int, self@.chunk);
        }
        if size == 0 || !self.owns(ptr) || (ptr - self.bottom) % self.chunk_size != 0 {
            return false;
        }
        let start: usize = self.ptr_to_chunk(ptr);
        let needed: usize = self.chunks_for(size);
        proof {
            lemma_fundamental_div_mod(ptr - self@.base, self@.chunk);
            assert(0 <= start < 64) by (nonlinear_arith)
                requires
                    ptr - self@.base == self@.chunk * start,
                    0 <= ptr - self@.base < 64 * self@.chunk,
                    self@.chunk > 0,
            ;
            if needed > 64 - start {
                assert(self@.chunks_at(ptr as int, size as int).contains(64));
            }
        }
        if needed > STACK_SIZE - start {
            return false;
        }
        self.all_allocated(start, start + needed)
    }

    /// Returns whether the `size` bytes at `ptr` have a byte in common with
    /// the memory of the stack.
    pub fn overlaps(&self, ptr: usize, size: usize) -> (r: bool)
        requires
            self@.wf(),
        ensures
            r == overlap(ptr as int, size as int, self@.base, 64 * self@.chunk),
    {
        let end: usize = self.chunk_to_ptr(STACK_SIZE);
        ptr < end && (self.bottom < ptr || self.bottom - ptr < size)
    }

    /// Hands out `size` bytes at the first aligned chunk at or above the
    /// height, or fails where they do not fit below the end of the stack.
    pub fn allocate(&mut self, size: usize, align: usize) -> (r: Result<usize, AllocErr>)
        requires
            old(self)@.wf(),
            size > 0,
            is_pow2(align as int),
        ensures
            final(self)@.wf(),
            r is Ok <==> old(self)@.can_alloc(size as int, align as int),
            r matches Ok(ptr) ==> {
                &&& ptr == old(self)@.alloc_addr(align as int)
                &&& final(self)@ == old(self)@.allocated(size as int, align as int)
                &&& ptr % align == 0
                &&& final(self)@.holds(ptr as int, size as int)
                &&& old(self)@.chunks_at(ptr as int, size as int).disjoint(old(self)@.used)
            },
            r matches Err(e) ==> e == AllocErr::OutOfCapacity && *final(self) == *old(self),
    {
        proof {
            lemma_aligned_top(self@, align as int);
            lemma_chunks_for(size as int, self@.chunk);
            if self@.can_alloc(size as int, align as int) {
                lemma_allocated(self@, size as int, align as int);
            }
        }
        let stack_ptr: usize = self.chunk_to_ptr(self.current_height);
        let aligned_stack_ptr: usize = match round_up_to_alignment(stack_ptr, align) {
            Some(aligned) => aligned,
            None => {
                proof {
                    let r = round_up(stack_ptr as int, align as int);
                    assert(self@.alloc_start(align as int) >= 64) by (nonlinear_arith)
                        requires
                            r - self@.base == self@.alloc_start(align as int) * self@.chunk,
                            r > self@.base + 64 * self@.chunk,
                            self@.chunk > 0,
                    ;
                }
                return Err(AllocErr::OutOfCapacity);
            },
        };
        let bottom_of_alloc: usize = self.ptr_to_chunk(aligned_stack_ptr);
        let needed: usize = self.chunks_for(size);
        if bottom_of_alloc > STACK_SIZE || needed > STACK_SIZE - bottom_of_alloc {
            return Err(AllocErr::OutOfCapacity);
        }
        let new_height: usize = bottom_of_alloc + needed;
        self.bitmap_allocate(bottom_of_alloc, new_height);
        self.current_height = new_height;
        Ok(self.chunk_to_ptr(bottom_of_alloc))
    }

    /// Takes back the `size` bytes at `ptr`.
    pub fn dealloc(&mut self, ptr: usize, size: usize)
        requires
            old(self)@.wf(),
            old(self)@.holds(ptr as int, size as int),
        ensures
            final(self)@.wf(),
            final(self)@ == old(self)@.deallocated(ptr as int, size as int),
    {
        proof {
            lemma_holds(self@, ptr as int, size as int);
            lemma_deallocated(self@, ptr as int, size as int);
        }
        let start_chunk: usize = self.ptr_to_chunk(ptr);
        let end_chunk: usize = start_chunk + self.chunks_for(size);
        self.bitmap_deallocate(start_chunk, end_chunk);
        if self.current_height == end_chunk {
            self.current_height = start_chunk;
            self.shrink_height();
        }
    }

    /// Cuts the allocation at `ptr` down from `old_size` to `new_size`
    /// bytes. Shrinking to nothing gives the allocation back.
    pub fn shrink_in_place(&mut self, ptr: usize, old_size: usize, new_size: usize)
        requires
            old(self)@.wf(),
            old(self)@.holds(ptr as int, old_size as int),
            new_size <= old_size,
        ensures
            final(self)@.wf(),
            final(self)@ == old(self)@.shrunk(ptr as int, old_size as int, new_size as int),
    {
        proof {
            lemma_holds(self@, ptr as int, old_size as int);
            lemma_shrunk(self@, ptr as int, old_size as int, new_size as int);
            lemma_chunks_for(new_size as int, self@.chunk);
        }
        let new_chunks: usize = self.chunks_for(new_size);
        let old_chunks: usize = self.chunks_for(old_size);
        let new_end: usize = self.ptr_to_chunk(ptr) + new_chunks;
        let old_end: usize = self.ptr_to_chunk(ptr) + old_chunks;
        self.bitmap_deallocate(new_end, old_end);
        if self.current_height == old_end {
            self.current_height = new_end;
            if new_size == 0 {
                self.shrink_height();
            }
        }
    }

    /// Extends the allocation at `ptr` from `old_size` to `new_size` bytes
    /// where it stands, or fails where the chunks above it are not free.
    pub fn grow_in_place(&mut self, ptr: usize, old_size: usize, new_size: usize) -> (r: Result<
        (),
        CannotReallocInPlace,
    >)
        requires
            old(self)@.wf(),
            old(self)@.holds(ptr as int, old_size as int),
            old_size <= new_size,
        ensures
            final(self)@.wf(),
            r is Ok <==> old(self)@.can_grow(ptr as int, old_size as int, new_size as int),
            r is Ok ==> final(self)@ == old(self)@.grown(
                ptr as int,
                old_size as int,
                new_size as int,
            ),
            r is Err ==> *final(self) == *old(self),
    {
        proof {
            lemma_holds(self@, ptr as int, old_size as int);
            lemma_grown(self@, ptr as int, old_size as int, new_size as int);
            lemma_chunks_for(new_size as int, self@.chunk);
        }
        let new_chunks: usize = self.chunks_for(new_size);
        let old_chunks: usize = self.chunks_for(old_size);
        let start: usize = self.ptr_to_chunk(ptr);
        let old_end: usize = start + old_chunks;
        if new_chunks == old_chunks {
            return Ok(());
        }
        if new_chunks > STACK_SIZE - start {
            return Err(CannotReallocInPlace);
        }
        let new_end: usize = start + new_chunks;
        if old_end == self.current_height {
            self.current_height = new_end;
            self.bitmap_allocate(old_end, new_end);
            Ok(())
        } else {
            if self.all_deallocated(old_end, new_end) {
                self.bitmap_allocate(old_end, new_end);
                Ok(())
            } else {
                Err(CannotReallocInPlace)
            }
        }
    }
}

/// An allocation that fits is aligned, lies in the stack, takes only chunks
/// that were free, and is handed out afterwards.
pub proof fn lemma_allocated(v: StackView, size: int, align: int)
    requires
        v.wf(),
        size > 0,
        is_pow2(align),
        v.can_alloc(size, align),
    ensures
        v.allocated(size, align).wf(),
        v.alloc_addr(align) == round_up(v.addr_of(v.height), align),
        v.alloc_addr(align) % align == 0,
        0 <= v.height <= v.alloc_start(align),
        v.chunk_of(v.alloc_addr(align)) == v.alloc_start(align),
        v.owns(v.alloc_addr(align)),
        v.alloc_addr(align) + size <= v.base + 64 * v.chunk,
        v.chunks_at(v.alloc_addr(align), size).disjoint(v.used),
        v.allocated(size, align).holds(v.alloc_addr(align), size),
        v.allocated(size, align).used == v.used.union(v.chunks_at(v.alloc_addr(align), size)),
{
    lemma_aligned_top(v, align);
    let start = v.alloc_start(align);
    let n = v.chunks_for(size);
    let end = start + n;
    let addr = v.alloc_addr(align);
    lemma_chunks_for(size, v.chunk);
    lemma_top_below(v.used, 64);
    assert(addr + size <= v.base + 64 * v.chunk) by (nonlinear_arith)
        requires
            addr == v.base + start * v.chunk,
            size <= n * v.chunk,
            start + n <= 64,
            v.chunk > 0,
    ;
    assert(v.owns(addr)) by (nonlinear_arith)
        requires
            addr == v.base + start * v.chunk,
            0 <= start < 64,
            v.chunk > 0,
            v.owns(addr) == (v.base <= addr < v.base + 64 * v.chunk),
    ;
    let after = v.allocated(size, align);
    assert(after.used.subset_of(span(0, 64)));
    lemma_top_below_unique(after.used, 64, end);
    assert(after.chunks_at(addr, size) =~= span(start, end));
    assert(v.chunks_at(addr, size) =~= span(start, end));
    assert((addr - v.base) % v.chunk == 0) by {
        lemma_mod_multiples_basic(start, v.chunk);
    }
}

/// The first aligned address at or above the top of the stack is the
/// address of a chunk at or above the height.
pub proof fn lemma_aligned_top(v: StackView, align: int)
    requires
        v.wf(),
        is_pow2(align),
    ensures
        v.chunk > 0,
        align > 0,
        0 <= v.height <= 64,
        v.height <= v.alloc_start(align),
        v.alloc_addr(align) == round_up(v.addr_of(v.height), align),
        v.alloc_addr(align) % align == 0,
        v.chunk_of(v.alloc_addr(align)) == v.alloc_start(align),
{
    lemma_pow2_positive(v.chunk);
    lemma_pow2_positive(align);
    lemma_top_below(v.used, 64);
    let top = v.addr_of(v.height);
    let r = round_up(top, align);
    lemma_round_up(top, align);
    lemma_mod_multiples_vanish(v.height, v.base, v.chunk);
    assert(top == v.chunk * v.height + v.base) by (nonlinear_arith)
        requires
            top == v.base + v.height * v.chunk,
    ;
    assert(top % v.chunk == 0);
    if align <= v.chunk {
        lemma_pow2_divides(align, v.chunk);
        lemma_multiple_of_multiple(top, align, v.chunk);
        assert(r == top);
    } else {
        lemma_pow2_divides(v.chunk, align);
        lemma_multiple_of_multiple(r, v.chunk, align);
    }
    assert(r % v.chunk == 0);
    lemma_fundamental_div_mod(r, v.chunk);
    lemma_fundamental_div_mod(v.base, v.chunk);
    let qr = r / v.chunk;
    let qb = v.base / v.chunk;
    assert(r - v.base == (qr - qb) * v.chunk) by (nonlinear_arith)
        requires
            r == v.chunk * qr,
            v.base == v.chunk * qb,
    ;
    lemma_div_multiples_vanish(qr - qb, v.chunk);
    let start = v.alloc_start(align);
    assert(start == qr - qb);
    assert(v.addr_of(start) == r);
    assert(start >= v.height) by (nonlinear_arith)
        requires
            r - v.base == start * v.chunk,
            r >= v.base + v.height * v.chunk,
            v.chunk > 0,
    ;
    lemma_div_multiples_vanish(start, v.chunk);
    assert(v.alloc_addr(align) - v.base == start * v.chunk);
}

/// Facts about the chunks of an allocation that is handed out.
pub proof fn lemma_holds(v: StackView, ptr: int, size: int)
    requires
        v.wf(),
        v.holds(ptr, size),
    ensures
        v.chunk > 0,
        0 <= v.chunk_of(ptr) < 64,
        v.addr_of(v.chunk_of(ptr)) == ptr,
        1 <= v.chunks_for(size),
        v.chunk_of(ptr) + v.chunks_for(size) <= v.height <= 64,
        ptr + size <= v.base + 64 * v.chunk,
{
    lemma_pow2_positive(v.chunk);
    lemma_chunks_for(size, v.chunk);
    lemma_top_below(v.used, 64);
    lemma_fundamental_div_mod(ptr - v.base, v.chunk);
    let start = v.chunk_of(ptr);
    let n = v.chunks_for(size);
    assert(0 <= start < 64) by (nonlinear_arith)
        requires
            ptr - v.base == v.chunk * start,
            0 <= ptr - v.base < 64 * v.chunk,
            v.chunk > 0,
    ;
    assert(v.chunks_at(ptr, size).contains(start + n - 1));
    assert(v.used.contains(start + n - 1));
    assert(ptr + size <= v.base + 64 * v.chunk) by (nonlinear_arith)
        requires
            ptr - v.base == v.chunk * start,
            size <= n * v.chunk,
            start + n <= 64,
            v.chunk > 0,
    ;
}

/// Giving an allocation back keeps the stack well formed, and leaves the
/// height alone unless the allocation was the topmost one.
pub proof fn lemma_deallocated(v: StackView, ptr: int, size: int)
    requires
        v.wf(),
        v.holds(ptr, size),
    ensures
        v.deallocated(ptr, size).wf(),
        v.chunk_of(ptr) + v.chunks_for(size) != v.height ==> v.deallocated(ptr, size).height
            == v.height,
        v.deallocated(ptr, size).height <= v.height,
{
    lemma_holds(v, ptr, size);
    lemma_top_below(v.used, 64);
    let after = v.deallocated(ptr, size);
    lemma_top_below(after.used, 64);
    if v.chunk_of(ptr) + v.chunks_for(size) != v.height {
        lemma_top_below_unique(after.used, 64, v.height);
    }
}

/// Shrinking an allocation keeps the stack well formed. Where the allocation
/// was the topmost one and keeps a chunk, the height drops to its new end;
/// where it was not the topmost one, the height stays.
pub proof fn lemma_shrunk(v: StackView, ptr: int, old_size: int, new_size: int)
    requires
        v.wf(),
        v.holds(ptr, old_size),
        0 <= new_size <= old_size,
    ensures
        v.shrunk(ptr, old_size, new_size).wf(),
        v.chunks_for(new_size) <= v.chunks_for(old_size),
        v.chunk_of(ptr) + v.chunks_for(old_size) != v.height ==> v.shrunk(
            ptr,
            old_size,
            new_size,
        ).height == v.height,
        v.chunk_of(ptr) + v.chunks_for(old_size) == v.height && new_size > 0 ==> v.shrunk(
            ptr,
            old_size,
            new_size,
        ).height == v.chunk_of(ptr) + v.chunks_for(new_size),
        new_size > 0 ==> v.shrunk(ptr, old_size, new_size).holds(ptr, new_size),
        new_size == 0 ==> v.shrunk(ptr, old_size, new_size) == v.deallocated(ptr, old_size),
{
    lemma_holds(v, ptr, old_size);
    lemma_top_below(v.used, 64);
    lemma_chunks_for(new_size, v.chunk);
    lemma_chunks_for_monotone(new_size, old_size, v.chunk);
    let after = v.shrunk(ptr, old_size, new_size);
    let start = v.chunk_of(ptr);
    let new_end = start + v.chunks_for(new_size);
    let old_end = start + v.chunks_for(old_size);
    lemma_top_below(after.used, 64);
    if old_end != v.height {
        lemma_top_below_unique(after.used, 64, v.height);
    } else if new_size > 0 {
        assert(v.chunks_at(ptr, old_size).contains(new_end - 1));
        lemma_top_below_unique(after.used, 64, new_end);
    }
    if new_size == 0 {
        assert(v.tail_chunks(ptr, new_size, old_size) =~= v.chunks_at(ptr, old_size));
    } else {
        assert forall|i: int| after.chunks_at(ptr, new_size).contains(i) implies after.used.contains(
            i,
        ) by {
            assert(v.chunks_at(ptr, old_size).contains(i));
        }
    }
}

/// Growing an allocation where it stands keeps the stack well formed. Where
/// the allocation was the topmost one it can always grow up to the end of
/// the stack, and the height rises to its new end; where it was not, the
/// height stays.
pub proof fn lemma_grown(v: StackView, ptr: int, old_size: int, new_size: int)
    requires
        v.wf(),
        v.holds(ptr, old_size),
        old_size <= new_size,
    ensures
        v.chunks_for(old_size) <= v.chunks_for(new_size),
        v.chunks_for(old_size) == v.chunks_for(new_size) ==> v.can_grow(ptr, old_size, new_size)
            && v.grown(ptr, old_size, new_size) == v,
        v.chunk_of(ptr) + v.chunks_for(old_size) == v.height && v.chunk_of(ptr) + v.chunks_for(
            new_size,
        ) <= 64 ==> v.can_grow(ptr, old_size, new_size) && v.grown(ptr, old_size, new_size).height
            == v.chunk_of(ptr) + v.chunks_for(new_size),
        v.can_grow(ptr, old_size, new_size) && v.chunk_of(ptr) + v.chunks_for(old_size)
            != v.height ==> v.grown(ptr, old_size, new_size).height == v.height,
        v.can_grow(ptr, old_size, new_size) ==> v.grown(ptr, old_size, new_size).wf() && v.grown(
            ptr,
            old_size,
            new_size,
        ).holds(ptr, new_size),
{
    lemma_holds(v, ptr, old_size);
    lemma_top_below(v.used, 64);
    lemma_chunks_for(new_size, v.chunk);
    lemma_chunks_for_monotone(old_size, new_size, v.chunk);
    let after = v.grown(ptr, old_size, new_size);
    let start = v.chunk_of(ptr);
    let old_end = start + v.chunks_for(old_size);
    let new_end = start + v.chunks_for(new_size);
    let tail = v.tail_chunks(ptr, old_size, new_size);
    if old_end == new_end {
        assert(tail =~= Set::<int>::empty());
        assert(v.used.union(tail) =~= v.used);
    }
    if old_end == v.height && new_end <= 64 {
        assert(tail.disjoint(v.used));
        if old_end < new_end {
            assert(tail.contains(new_end - 1));
        }
        lemma_top_below_unique(after.used, 64, new_end);
    }
    if v.can_grow(ptr, old_size, new_size) {
        if old_end != v.height {
            assert(v.used.contains(v.height - 1));
            assert(!tail.contains(v.height - 1));
            lemma_top_below_unique(after.used, 64, v.height);
        }
        assert(after.used.subset_of(span(0, 64)));
        assert forall|i: int| after.chunks_at(ptr, new_size).contains(i) implies after.used.contains(
            i,
        ) by {
            if i < old_end {
                assert(v.chunks_at(ptr, old_size).contains(i));
            } else {
                assert(tail.contains(i));
            }
        }
    }
}

/// Two allocations of one stack have a chunk in common exactly when they
/// have a byte in common.
pub proof fn lemma_chunks_and_bytes(v: StackView, p: int, s: int, q: int, t: int)
    requires
        v.wf(),
        v.holds(p, s),
        v.owns(q),
        (q - v.base) % v.chunk == 0,
        t > 0,
    ensures
        v.chunks_at(p, s).disjoint(v.chunks_at(q, t)) <==> !overlap(p, s, q, t),
{
    lemma_holds(v, p, s);
    lemma_chunks_for(s, v.chunk);
    lemma_chunks_for(t, v.chunk);
    lemma_fundamental_div_mod(q - v.base, v.chunk);
    let a = v.chunk_of(p);
    let n = v.chunks_for(s);
    let b = v.chunk_of(q);
    let m = v.chunks_for(t);
    let c = v.chunk;
    assert(p - v.base == a * c && q - v.base == b * c) by (nonlinear_arith)
        requires
            p == v.base + a * c,
            q - v.base == c * b,
    ;
    if a + n <= b || b + m <= a {
        assert(!overlap(p, s, q, t)) by (nonlinear_arith)
            requires
                a + n <= b || b + m <= a,
                p - v.base == a * c,
                q - v.base == b * c,
                s <= n * c,
                t <= m * c,
                c > 0,
        ;
        assert(v.chunks_at(p, s).disjoint(v.chunks_at(q, t)));
    } else {
        let x = if a <= b {
            b
        } else {
            a
        };
        assert(v.chunks_at(p, s).contains(x) && v.chunks_at(q, t).contains(x));
        assert(overlap(p, s, q, t)) by (nonlinear_arith)
            requires
                a + n > b,
                b + m > a,
                p - v.base == a * c,
                q - v.base == b * c,
                (n - 1) * c < s,
                (m - 1) * c < t,
                c > 0,
        ;
    }
}

} // verus!
