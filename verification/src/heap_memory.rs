//! A store kept in the process's own memory.

use vstd::prelude::*;
use vstd::std_specs::iter::IteratorSpec;
use crate::error::Error;
use crate::memory::{filled_from, overwrite, zeros, Memory};

verus! {

/// The number of bytes in a page of a `HeapMemory`.
pub const HEAP_PAGE_SIZE: usize = 1024;

/// The largest number of pages a `HeapMemory` holds.
pub const HEAP_MAX_PAGES: usize = 256;

/// A store kept in the process's own memory.
#[derive(Debug)]
pub struct HeapMemory {
    data: Vec<u8>,
}

impl HeapMemory {
    #[verifier::type_invariant]
    spec fn whole_pages(self) -> bool {
        &&& self.data@.len() % (HEAP_PAGE_SIZE as nat) == 0
        &&& self.data@.len() <= HEAP_PAGE_SIZE * HEAP_MAX_PAGES
    }

    /// The bytes of the store, page after page.
    pub fn iter(&self) -> (it: core::slice::Iter<'_, u8>)
        ensures
            it.remaining() == self.bytes().as_ref(),
    {
        broadcast use vstd::std_specs::slice::axiom_spec_slice_iter;

        self.data.as_slice().iter()
    }
}

impl Default for HeapMemory {
    /// A store without pages.
    fn default() -> (memory: Self)
        ensures
            memory.bytes() == Seq::<u8>::empty(),
    {
        HeapMemory { data: Vec::new() }
    }
}

/// The sizes of a heap store: pages of 1024 bytes, at most 256 of them, and
/// so at most 262144 bytes.
pub proof fn lemma_heap_sizes()
    ensures
        HeapMemory::PAGE_SIZE == 1024,
        HeapMemory::MAX_PAGES == 256,
        HeapMemory::MAX_SIZE == 262144,
{
}

impl Memory for HeapMemory {
    const PAGE_SIZE: usize = HEAP_PAGE_SIZE;

    const MAX_PAGES: usize = HEAP_MAX_PAGES;

    const MAX_SIZE: usize = HEAP_PAGE_SIZE * HEAP_MAX_PAGES;

    closed spec fn bytes(&self) -> Seq<u8> {
        self.data@
    }

    /// A store in the process's own memory does not fail by itself.
    open spec fn steady(&self) -> bool {
        true
    }

    /// Never fails.
    fn page_count(&self) -> (r: Result<usize, Error>)
        ensures
            r is Ok,
    {
        proof {
            use_type_invariant(self);
            assert(Self::PAGE_SIZE == HEAP_PAGE_SIZE);
        }
        Ok(self.data.len() / HEAP_PAGE_SIZE)
    }

    /// Fails with `OutOfMemory` where the store would come to hold more than
    /// `MAX_PAGES` pages, and on nothing else.
    fn grow(&mut self, num_pages: usize) -> (r: Result<(), Error>)
        ensures
            r is Ok <==> (*old(self)).bytes().len() + num_pages * HEAP_PAGE_SIZE <= HEAP_PAGE_SIZE
                * HEAP_MAX_PAGES,
            r is Err ==> r == Err::<(), Error>(Error::OutOfMemory),
    {
        proof {
            use_type_invariant(&*self);
        }
        let pages = self.data.len() / HEAP_PAGE_SIZE;
        if num_pages > HEAP_MAX_PAGES - pages {
            return Err(Error::OutOfMemory);
        }
        let ghost before = self.data@;
        let len = self.data.len() + num_pages * HEAP_PAGE_SIZE;
        let mut data: Vec<u8> = Vec::new();
        core::mem::swap(&mut data, &mut self.data);
        data.resize(len, 0u8);
        proof {
            assert(data@ =~= before + zeros(num_pages * HEAP_PAGE_SIZE));
        }
        core::mem::swap(&mut data, &mut self.data);
        Ok(())
    }

    /// Never fails, and stops short only at the end of the store.
    fn read(&self, offset: usize, buf: &mut [u8]) -> (r: Result<usize, Error>)
        ensures
            r matches Ok(n) && (n == old(buf)@.len() || offset + n == self.bytes().len() || (n == 0
                && offset > self.bytes().len())),
    {
        if offset >= self.data.len() {
            return Ok(0);
        }
        let room = self.data.len() - offset;
        let count = if buf.len() < room {
            buf.len()
        } else {
            room
        };
        let mut i: usize = 0;
        while i < count
            invariant
                i <= count,
                count <= buf@.len(),
                offset + count <= self.data@.len() <= usize::MAX,
                filled_from(self.data@, offset as int, old(buf)@, buf@, i as int),
            decreases count - i,
        {
            buf[i] = self.data[offset + i];
            i = i + 1;
        }
        Ok(count)
    }

    /// Never fails, and stops short only at the end of the store.
    fn write(&mut self, offset: usize, buf: &[u8]) -> (r: Result<usize, Error>)
        ensures
            r matches Ok(n) && (n == buf@.len() || offset + n == (*old(self)).bytes().len() || (n == 0
                && offset > (*old(self)).bytes().len())),
    {
        proof {
            use_type_invariant(&*self);
        }
        if offset >= self.data.len() {
            proof {
                assert(self.data@ =~= overwrite(self.data@, offset as int, buf@.take(0)));
            }
            return Ok(0);
        }
        let room = self.data.len() - offset;
        let count = if buf.len() < room {
            buf.len()
        } else {
            room
        };
        let ghost before = self.data@;
        let mut data: Vec<u8> = Vec::new();
        core::mem::swap(&mut data, &mut self.data);
        let mut i: usize = 0;
        while i < count
            invariant
                i <= count,
                count <= buf@.len(),
                offset + count <= before.len() <= usize::MAX,
                data@ == overwrite(before, offset as int, buf@.take(i as int)),
            decreases count - i,
        {
            data[offset + i] = buf[i];
            proof {
                assert(data@ =~= overwrite(before, offset as int, buf@.take(i + 1)));
            }
            i = i + 1;
        }
        core::mem::swap(&mut data, &mut self.data);
        Ok(count)
    }
}

} // verus!
