//! A size-bucketed heap allocator built from bitmapped chunk stacks.
//!
//! The crate keeps the books of the allocator: which chunk of which stack is
//! handed out, which stacks form the chain of one size category, and which
//! chain serves a request. Addresses are plain `usize` values; touching the
//! memory behind them is left to the caller.
//!
//! # How to use it
//!
//! Make a memory source: a type with [`MemorySource`], which hands out the
//! addresses of blocks of 256 KiB, aligned to 4 KiB. Give it to an
//! [`Allocator`], and ask that for memory.
//!
//! # How it is built
//!
//! A [`bitmapped_stack::BitmappedStack`] hands out runs of its 64 chunks.
//! A [`sized_allocator::SizedAllocator`] is a chain of such stacks with one
//! chunk size. The [`bucketed::BucketedAllocator`] has one chain for each
//! size category, and one for the metadata of the nodes of all chains; the
//! stacks of a chain are allocations of the chain with the next larger
//! chunks, and the stacks of the chain with the largest chunks are the
//! blocks of the memory source. What holds of the six chains between any
//! two calls is written down in [`chains`], and so is what an allocation
//! comes to while the memory source need not be asked; [`chain_steps`],
//! [`plans`], [`books`] and [`runs`] hold the proofs.

pub mod arith;
pub mod bits;
pub mod error;
pub mod bitmapped_stack;
pub mod runs;
pub mod metadata_box;
pub mod sized_allocator;
pub mod memory_source;
pub mod chains;
pub mod chain_steps;
pub mod plans;
pub mod books;
pub mod bucketed;
pub mod factory_chain;
pub mod global_allocator;

pub use global_allocator::Allocator;
pub use memory_source::MemorySource;
