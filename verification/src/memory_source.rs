//! Where the allocator gets its memory blocks.

use vstd::prelude::*;

verus! {

/// The size, in bytes, of a returned block
///
/// A returned block needs to have a size of 256 KiB and an alignment of 4 KiB.
pub const BLOCK_SIZE: usize = 262144;

/// The alignment, in bytes, of a returned block
///
/// A returned block needs to have a size of 256 KiB and an alignment of 4 KiB.
pub const BLOCK_ALIGN: usize = 4096;

/// Whether a block of `BLOCK_SIZE` bytes can start at the address: the
/// address is not null, it is aligned to `BLOCK_ALIGN`, and the last byte of
/// the block has an address.
pub open spec fn valid_block(block: int) -> bool {
    &&& 0 < block
    &&& block % 4096 == 0
    &&& block + 262144 <= usize::MAX
}

/// The `MemorySource` trait is used to allow for different backends for obtaining memory.
///
/// For example, in web assembly, the way to get memory is different from on Linux, and in a
/// bare-metal situation you'd have to make your own stack or something.
pub trait MemorySource {
    /// What the source says of itself: whether a call of `get_block` may
    /// give this answer. A source that knows nothing of its answers says
    /// `true` of every one.
    open spec fn may_give(&self, block: Option<usize>) -> bool {
        true
    }

    /// Potentially returns the address of a block of memory.
    ///
    /// This memory needs to fulfill layout requirements:
    ///  * It should be 256 KiB (262144 bytes) large
    ///  * It should be aligned to 4 KiB (4096 bytes)
    ///
    /// If it returns `Some(thing)`, then ownership of the block of memory that starts at
    /// `thing` is transferred to the caller. Nothing is promised of the
    /// address here: the allocator looks at each block before it takes it.
    /// The answer is one that the source says it may give.
    fn get_block(&self) -> (r: Option<usize>)
        ensures
            self.may_give(r),
    ;
}

/// A memory source that is never successful in returning memory.
///
/// `NoMemory` is the unit source with respect to `Fallback`.
#[derive(Clone, Copy, PartialEq, Eq, Hash, Debug)]
pub struct NoMemory;

impl MemorySource for NoMemory {
    /// The only answer is that there is no block.
    open spec fn may_give(&self, block: Option<usize>) -> bool {
        block is None
    }

    fn get_block(&self) -> (r: Option<usize>)
        ensures
            r is None,
    {
        None
    }
}

/// `Fallback<T, U>` first tries to get memory from `T`, but gets it from `U` if that is
/// unsuccessful.
#[derive(Debug)]
pub struct Fallback<T, U> {
    /// The source that is asked first.
    pub first: T,
    /// The source that is asked where the first has no block.
    pub second: U,
}

impl<T: MemorySource, U: MemorySource> MemorySource for Fallback<T, U> {
    /// The answer is a block that the first source may give, or, where the
    /// first source may have none, what the second source may give.
    open spec fn may_give(&self, block: Option<usize>) -> bool {
        ||| block is Some && self.first.may_give(block)
        ||| self.first.may_give(None) && self.second.may_give(block)
    }

    fn get_block(&self) -> (r: Option<usize>)
        ensures
            (r is Some && self.first.may_give(r)) || (self.first.may_give(None)
                && self.second.may_give(r)),
    {
        match self.first.get_block() {
            Some(block) => Some(block),
            None => self.second.get_block(),
        }
    }
}

} // verus!
