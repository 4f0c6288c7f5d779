//! The `SizedAllocator`s are in linked lists of allocators.
//!
//! This is the indirection between them: a value together with the address
//! of the metadata chunk that is reserved for it.

use vstd::prelude::*;

verus! {

/// A value that lives in a chunk of the metadata chain.
#[derive(Debug)]
pub struct MetadataBox<T> {
    pub(crate) ptr: usize,
    pub(crate) data: Box<T>,
}

impl<T> MetadataBox<T> {
    /// The address of the chunk that is reserved for the value.
    pub closed spec fn addr(&self) -> int {
        self.ptr as int
    }

    /// The value in the box.
    pub closed spec fn value(&self) -> T {
        *self.data
    }

    /// What `addr` and `value` stand for.
    pub(crate) proof fn lemma_parts(&self)
        ensures
            self.addr() == self.ptr,
            self.value() == *self.data,
    {
    }

    /// Create a `MetadataBox` from the address of the chunk and the value.
    pub fn from_pointer_data(ptr: usize, data: T) -> (b: Self)
        ensures
            b.addr() == ptr,
            b.value() == data,
    {
        MetadataBox { ptr, data: Box::new(data) }
    }

    /// The value in the box.
    pub fn get(&self) -> (r: &T)
        ensures
            *r == self.value(),
    {
        &*self.data
    }

    /// The value in the box, to change it where it is.
    pub fn get_mut(&mut self) -> (r: &mut T)
        ensures
            *r == old(self).value(),
            final(self).addr() == old(self).addr(),
            final(self).value() == *final(r),
    {
        &mut *self.data
    }

    /// Returns the address of the chunk that the box stood for.
    pub fn into_raw(self) -> (ptr: usize)
        ensures
            ptr == self.addr(),
    {
        self.ptr
    }
}

} // verus!
