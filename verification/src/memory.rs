//! The store: a growable sequence of bytes made of pages, and the seekable
//! readers and writers over it.

use vstd::prelude::*;
use crate::error::Error;

verus! {

/// `n` bytes of value zero.
pub open spec fn zeros(n: int) -> Seq<u8> {
    Seq::new(n as nat, |i: int| 0u8)
}

/// `zeros` gives as many bytes as it is asked for.
pub proof fn lemma_zeros_len(n: int)
    requires
        n >= 0,
    ensures
        zeros(n).len() == n,
{
}

/// `base` with the bytes of `data` laid over it from offset `at` on.
pub open spec fn overwrite(base: Seq<u8>, at: int, data: Seq<u8>) -> Seq<u8> {
    Seq::new(
        base.len(),
        |i: int|
            if at <= i < at + data.len() {
                data[i - at]
            } else {
                base[i]
            },
    )
}

/// Whether `after` is `before` with its first `n` bytes replaced by the `n`
/// bytes that `source` holds from offset `at` on.
pub open spec fn filled_from(
    source: Seq<u8>,
    at: int,
    before: Seq<u8>,
    after: Seq<u8>,
    n: int,
) -> bool {
    &&& 0 <= n <= before.len()
    &&& after.len() == before.len()
    &&& n == 0 || at + n <= source.len()
    &&& forall|i: int|
        0 <= i < after.len() ==> after[i] == if i < n {
            source[at + i]
        } else {
            before[i]
        }
}

/// The bytes that a read of `wanted` bytes at offset `at` finds in `mem`: as
/// many as are asked for, or as `mem` has left where those are fewer.
pub open spec fn window(mem: Seq<u8>, at: int, wanted: int) -> Seq<u8> {
    let len = if at >= mem.len() {
        0
    } else if mem.len() - at < wanted {
        mem.len() - at
    } else {
        wanted
    };
    Seq::new(len as nat, |i: int| mem[at + i])
}

/// The number of pages of `page` bytes each that a store of `len` bytes lacks
/// to hold `required` bytes.
pub open spec fn missing_pages(len: int, required: int, page: int) -> int {
    if required > len && page > 0 {
        (required - len + page - 1) / page
    } else {
        0
    }
}

/// Whether a store of `len` bytes, of pages of `page` bytes each and with
/// room for `max_pages` pages, can come to hold `required` bytes.
pub open spec fn can_hold(len: int, required: int, page: int, max_pages: int) -> bool {
    required <= len || (page > 0 && len + missing_pages(len, required, page) * page <= page
        * max_pages)
}

/// `bytes` with as many zeroed pages appended as it lacks to hold `required` bytes.
pub open spec fn grown(bytes: Seq<u8>, required: int, page: int) -> Seq<u8> {
    bytes + zeros(missing_pages(bytes.len() as int, required, page) * page)
}

/// A position to seek to, given from the start of a stream, from the current
/// position, or from the end.
#[derive(Clone, Copy, Debug, PartialEq, Eq)]
pub enum SeekFrom {
    Start(u64),
    Current(i64),
    End(i64),
}

impl SeekFrom {
    /// The offset that the position names, in a stream of `len` bytes whose
    /// cursor stands at `current`.
    pub open spec fn target(self, current: int, len: int) -> int {
        match self {
            SeekFrom::Start(offset) => offset as int,
            SeekFrom::Current(delta) => current + delta,
            SeekFrom::End(delta) => len + delta,
        }
    }

    /// Whether the position names an offset that a cursor can take: one that
    /// is not negative and that a `usize` holds.
    pub open spec fn lands(self, current: int, len: int) -> bool {
        0 <= self.target(current, len) <= usize::MAX
    }

    /// Computes the offset a seek leads to. An offset below zero, or one that
    /// a `usize` cannot hold, is refused as `InvalidInput`.
    pub fn resolve(self, current: usize, len: usize) -> (r: Result<usize, Error>)
        ensures
            self.lands(current as int, len as int) ==> r == Ok::<usize, Error>(
                self.target(current as int, len as int) as usize,
            ),
            !self.lands(current as int, len as int) ==> r == Err::<usize, Error>(
                Error::InvalidInput,
            ),
    {
        let target: i128 = match self {
            SeekFrom::Start(offset) => offset as i128,
            SeekFrom::Current(delta) => current as i128 + delta as i128,
            SeekFrom::End(delta) => len as i128 + delta as i128,
        };
        if target < 0 || target > usize::MAX as i128 {
            Err(Error::InvalidInput)
        } else {
            Ok(target as usize)
        }
    }
}

/// A growable store of bytes, made of pages of a fixed size.
///
/// A store starts empty and grows by whole pages, which come zeroed. Reads and
/// writes address it by byte offset and never reach past its end: they may
/// stop short, but make progress wherever a byte is in reach.
pub trait Memory: Sized {
    /// The number of bytes in a page.
    const PAGE_SIZE: usize;

    /// The largest number of pages the store can hold.
    const MAX_PAGES: usize;

    /// The largest number of bytes the store can hold.
    const MAX_SIZE: usize = Self::PAGE_SIZE * Self::MAX_PAGES;

    /// The bytes the store holds now. A store that does not say what it
    /// holds is known by what its operations promise alone.
    open spec fn bytes(&self) -> Seq<u8> {
        arbitrary()
    }

    /// Whether the store does not fail by itself: reading and writing it
    /// succeed, and growing it fails only where it would come to hold more
    /// than `MAX_PAGES` pages, with `OutOfMemory`. A store that does not say
    /// so is not taken to be steady.
    open spec fn steady(&self) -> bool {
        false
    }

    /// The number of pages the store holds now.
    fn page_count(&self) -> (r: Result<usize, Error>)
        ensures
            r matches Ok(n) ==> n * Self::PAGE_SIZE == self.bytes().len() && self.bytes().len()
                <= usize::MAX,
            self.steady() ==> r is Ok,
    ;

    /// Appends `num_pages` zeroed pages, or fails and leaves the store as it was.
    fn grow(&mut self, num_pages: usize) -> (r: Result<(), Error>)
        ensures
            r is Ok ==> (*final(self)).bytes() == (*old(self)).bytes() + zeros(
                num_pages * Self::PAGE_SIZE,
            ),
            r is Err ==> (*final(self)).bytes() == (*old(self)).bytes(),
            (*final(self)).steady() == (*old(self)).steady(),
            (*old(self)).steady() ==> (r is Ok <==> (*old(self)).bytes().len() + num_pages
                * Self::PAGE_SIZE <= Self::PAGE_SIZE * Self::MAX_PAGES),
            (*old(self)).steady() ==> (r matches Err(e) ==> e == Error::OutOfMemory),
    ;

    /// Reads bytes from `offset` on into the front of `buf` and returns how many.
    fn read(&self, offset: usize, buf: &mut [u8]) -> (r: Result<usize, Error>)
        ensures
            final(buf)@.len() == old(buf)@.len(),
            r matches Ok(n) ==> {
                &&& filled_from(self.bytes(), offset as int, old(buf)@, final(buf)@, n as int)
                &&& n == 0 ==> old(buf)@.len() == 0 || offset >= self.bytes().len()
            },
            r is Err ==> final(buf)@ == old(buf)@,
            self.steady() ==> r is Ok,
    ;

    /// Writes bytes from the front of `buf` at `offset` and returns how many.
    fn write(&mut self, offset: usize, buf: &[u8]) -> (r: Result<usize, Error>)
        ensures
            r matches Ok(n) ==> {
                &&& n <= buf@.len()
                &&& n == 0 || offset + n <= (*old(self)).bytes().len()
                &&& (*final(self)).bytes() == overwrite(
                    (*old(self)).bytes(),
                    offset as int,
                    buf@.take(n as int),
                )
                &&& n == 0 ==> buf@.len() == 0 || offset >= (*old(self)).bytes().len()
            },
            r is Err ==> (*final(self)).bytes() == (*old(self)).bytes(),
            (*final(self)).steady() == (*old(self)).steady(),
            (*old(self)).steady() ==> r is Ok,
    ;

    /// The number of bytes the store holds now.
    fn len(&self) -> (r: Result<usize, Error>)
        ensures
            r matches Ok(n) ==> n == self.bytes().len(),
            self.steady() ==> r is Ok,
    {
        let pages = self.page_count()?;
        assert(pages * Self::PAGE_SIZE <= usize::MAX);
        Ok(pages * Self::PAGE_SIZE)
    }

    /// A reader over the store, with its cursor at offset zero.
    fn reader(&self) -> (r: MemoryReader<'_, Self>)
        ensures
            *r.memory == *self,
            r.offset == 0,
    {
        MemoryReader { memory: self, offset: 0 }
    }

    /// A writer over the store, with its cursor at offset zero.
    fn writer(&mut self) -> (w: MemoryWriter<'_, Self>)
        ensures
            *w.memory == *old(self),
            *final(w.memory) == *final(self),
            w.offset == 0,
    {
        MemoryWriter { memory: self, offset: 0 }
    }
}

impl<'a, M: Memory> Memory for &'a mut M {
    const PAGE_SIZE: usize = M::PAGE_SIZE;

    const MAX_PAGES: usize = M::MAX_PAGES;

    const MAX_SIZE: usize = M::MAX_SIZE;

    open spec fn bytes(&self) -> Seq<u8> {
        (**self).bytes()
    }

    open spec fn steady(&self) -> bool {
        (**self).steady()
    }

    fn page_count(&self) -> (r: Result<usize, Error>) {
        proof {
            assert(Self::PAGE_SIZE == M::PAGE_SIZE);
        }
        M::page_count(self)
    }

    fn grow(&mut self, num_pages: usize) -> (r: Result<(), Error>) {
        M::grow(self, num_pages)
    }

    fn read(&self, offset: usize, buf: &mut [u8]) -> (r: Result<usize, Error>) {
        M::read(self, offset, buf)
    }

    fn write(&mut self, offset: usize, buf: &[u8]) -> (r: Result<usize, Error>) {
        M::write(self, offset, buf)
    }
}

/// A store that is borrowed has the sizes of the store itself.
pub proof fn lemma_borrowed_sizes<'a, M: Memory>()
    ensures
        <&'a mut M>::PAGE_SIZE == M::PAGE_SIZE,
        <&'a mut M>::MAX_PAGES == M::MAX_PAGES,
        <&'a mut M>::MAX_SIZE == M::MAX_SIZE,
{
}

/// A seekable reader over a store.
pub struct MemoryReader<'a, M: Sized> {
    pub memory: &'a M,
    /// The offset in the store at which the next read starts.
    pub offset: usize,
}

/// A seekable writer over a store, which grows the store where a write
/// reaches past its end.
pub struct MemoryWriter<'a, M: Sized> {
    pub memory: &'a mut M,
    /// The offset in the store at which the next write starts.
    pub offset: usize,
}

impl<'a, M: Memory> MemoryReader<'a, M> {
    /// Moves the cursor. A seek from the end asks the store for its length.
    pub fn seek(&mut self, pos: SeekFrom) -> (r: Result<u64, Error>)
        ensures
            final(self).memory == old(self).memory,
            r matches Ok(p) ==> p == pos.target(
                old(self).offset as int,
                old(self).memory.bytes().len() as int,
            ) && final(self).offset == p,
            r is Err ==> final(self).offset == old(self).offset,
            !(pos is End) || old(self).memory.steady() ==> (r is Ok <==> pos.lands(
                old(self).offset as int,
                old(self).memory.bytes().len() as int,
            )),
            (!(pos is End) || old(self).memory.steady()) && r is Err ==> r == Err::<u64, Error>(
                Error::InvalidInput,
            ),
            !pos.lands(old(self).offset as int, old(self).memory.bytes().len() as int) ==> r is Err,
    {
        let len = match pos {
            SeekFrom::End(_) => self.memory.len()?,
            _ => 0,
        };
        let target = pos.resolve(self.offset, len)?;
        self.offset = target;
        Ok(target as u64)
    }

    /// Reads bytes at the cursor into the front of `buf`, moves the cursor past
    /// them and returns how many. A read never reaches past the end of the store.
    pub fn read(&mut self, buf: &mut [u8]) -> (r: Result<usize, Error>)
        ensures
            final(self).memory == old(self).memory,
            final(buf)@.len() == old(buf)@.len(),
            r matches Ok(n) ==> {
                &&& filled_from(
                    old(self).memory.bytes(),
                    old(self).offset as int,
                    old(buf)@,
                    final(buf)@,
                    n as int,
                )
                &&& final(self).offset == old(self).offset + n
                &&& n == 0 ==> old(buf)@.len() == 0 || old(self).memory.bytes().len() <= old(self).offset
            },
            r is Err ==> final(self).offset == old(self).offset && final(buf)@ == old(buf)@,
            old(self).memory.steady() ==> r is Ok,
    {
        let current_len = self.memory.len()?;
        if self.offset > current_len {
            return Ok(0);
        }
        let room = current_len - self.offset;
        let acceptable = if buf.len() < room {
            buf.len()
        } else {
            room
        };
        let (head, tail) = buf.split_at_mut(acceptable);
        let read = self.memory.read(self.offset, head)?;
        self.offset = self.offset + read;
        Ok(read)
    }

    /// Reads `len` bytes from the cursor on, or as many as the store has left
    /// where those are fewer, and moves the cursor past them.
    pub fn read_up_to(&mut self, len: usize) -> (r: Result<Vec<u8>, Error>)
        ensures
            final(self).memory == old(self).memory,
            r matches Ok(bytes) ==> {
                &&& bytes@ == window(old(self).memory.bytes(), old(self).offset as int, len as int)
                &&& final(self).offset == old(self).offset + bytes@.len()
            },
            r is Err ==> old(self).offset <= final(self).offset <= old(self).offset + len,
            old(self).memory.steady() ==> r is Ok,
    {
        let current_len = self.memory.len()?;
        let mut count = len;
        if self.offset >= current_len {
            count = 0;
        } else if current_len - self.offset < len {
            count = current_len - self.offset;
        }
        let mut bytes: Vec<u8> = vec![0u8; count];
        self.read_exact(bytes.as_mut_slice())?;
        proof {
            assert(bytes@ =~= window(
                old(self).memory.bytes(),
                old(self).offset as int,
                len as int,
            ));
        }
        Ok(bytes)
    }

    /// Fills `buf` from the cursor on. Where the store ends before `buf` is
    /// full, the read fails with `InvalidInput`.
    pub fn read_exact(&mut self, buf: &mut [u8]) -> (r: Result<(), Error>)
        ensures
            final(self).memory == old(self).memory,
            final(buf)@.len() == old(buf)@.len(),
            old(self).offset <= final(self).offset <= old(self).offset + old(buf)@.len(),
            r is Ok ==> {
                &&& filled_from(
                    old(self).memory.bytes(),
                    old(self).offset as int,
                    old(buf)@,
                    final(buf)@,
                    old(buf)@.len() as int,
                )
                &&& final(self).offset == old(self).offset + old(buf)@.len()
            },
            old(buf)@.len() == 0 ==> r is Ok,
            old(buf)@.len() > 0 && old(self).memory.bytes().len() < old(self).offset + old(buf)@.len()
                ==> r is Err,
            old(self).memory.steady() && r is Err ==> r == Err::<(), Error>(Error::InvalidInput)
                && old(buf)@.len() > 0
                && old(self).memory.bytes().len() < old(self).offset + old(buf)@.len(),
    {
        let ghost start = self.offset;
        let ghost bytes = self.memory.bytes();
        let total = buf.len();
        let mut filled: usize = 0;
        while filled < total
            invariant
                self.memory == old(self).memory,
                bytes == self.memory.bytes(),
                start == old(self).offset,
                total == buf@.len(),
                total == old(buf)@.len(),
                filled <= total,
                self.offset == start + filled,
                filled_from(bytes, start as int, old(buf)@, buf@, filled as int),
            decreases total - filled,
        {
            let (done, rest) = buf.split_at_mut(filled);
            let n = self.read(rest)?;
            if n == 0 {
                return Err(Error::InvalidInput);
            }
            filled = filled + n;
        }
        Ok(())
    }
}

/// A store of `len` bytes that grows by pages of `page` bytes to hold `required`
/// bytes holds them afterwards.
pub proof fn lemma_missing_pages(len: int, required: int, page: int)
    requires
        0 <= len,
        page > 0,
    ensures
        missing_pages(len, required, page) >= 0,
        len + missing_pages(len, required, page) * page >= required,
        required <= len ==> missing_pages(len, required, page) == 0,
        required > len ==> missing_pages(len, required, page) == (required - len) / page + (if (
        required - len) % page > 0 {
            1int
        } else {
            0
        }),
{
    if required > len {
        let m = required - len;
        assert(missing_pages(len, required, page) == (m + page - 1) / page);
        assert((m + page - 1) / page == m / page + (if m % page > 0 {
            1int
        } else {
            0
        }) && ((m + page - 1) / page) * page >= m) by (nonlinear_arith)
            requires
                m > 0,
                page > 0,
        ;
    }
}

/// A store that holds `required` bytes does not grow to hold them.
pub proof fn lemma_grown_enough(bytes: Seq<u8>, required: int, page: int)
    requires
        required <= bytes.len(),
    ensures
        grown(bytes, required, page) == bytes,
{
    assert(missing_pages(bytes.len() as int, required, page) == 0);
    assert(missing_pages(bytes.len() as int, required, page) * page == 0);
    assert(bytes + zeros(0) =~= bytes);
}

impl<'a, M: Memory> MemoryWriter<'a, M> {
    /// Moves the cursor. A seek from the end asks the store for its length.
    pub fn seek(&mut self, pos: SeekFrom) -> (r: Result<u64, Error>)
        ensures
            *final(final(self).memory) == *final(old(self).memory),
            *final(self).memory == *old(self).memory,
            r matches Ok(p) ==> p == pos.target(
                old(self).offset as int,
                old(self).memory.bytes().len() as int,
            ) && final(self).offset == p,
            r is Err ==> final(self).offset == old(self).offset,
            !(pos is End) || old(self).memory.steady() ==> (r is Ok <==> pos.lands(
                old(self).offset as int,
                old(self).memory.bytes().len() as int,
            )),
            (!(pos is End) || old(self).memory.steady()) && r is Err ==> r == Err::<u64, Error>(
                Error::InvalidInput,
            ),
            !pos.lands(old(self).offset as int, old(self).memory.bytes().len() as int) ==> r is Err,
    {
        let len = match pos {
            SeekFrom::End(_) => self.memory.len()?,
            _ => 0,
        };
        let target = pos.resolve(self.offset, len)?;
        self.offset = target;
        Ok(target as u64)
    }

    /// Writes bytes from the front of `buf` at the cursor, moves the cursor
    /// past them and returns how many. Where the write would end past the end
    /// of the store, the store first grows by the pages it lacks.
    pub fn write(&mut self, buf: &[u8]) -> (r: Result<usize, Error>)
        ensures
            *final(final(self).memory) == *final(old(self).memory),
            final(self).memory.steady() == old(self).memory.steady(),
            r matches Ok(n) ==> {
                &&& n <= buf@.len()
                &&& n == 0 ==> buf@.len() == 0
                &&& final(self).offset == old(self).offset + n
                &&& final(self).memory.bytes().len() >= old(self).offset + buf@.len()
                &&& final(self).memory.bytes() == overwrite(
                    grown(
                        old(self).memory.bytes(),
                        old(self).offset + buf@.len(),
                        M::PAGE_SIZE as int,
                    ),
                    old(self).offset as int,
                    buf@.take(n as int),
                )
            },
            r is Err ==> {
                &&& final(self).offset == old(self).offset
                &&& {
                    ||| final(self).memory.bytes() == old(self).memory.bytes()
                    ||| final(self).memory.bytes() == grown(
                        old(self).memory.bytes(),
                        old(self).offset + buf@.len(),
                        M::PAGE_SIZE as int,
                    )
                }
            },
            old(self).offset + buf@.len() > usize::MAX ==> r == Err::<usize, Error>(
                Error::OutOfMemory,
            ),
            old(self).memory.steady() ==> (r is Ok <==> old(self).offset + buf@.len() <= usize::MAX
                && can_hold(
                old(self).memory.bytes().len() as int,
                old(self).offset + buf@.len(),
                M::PAGE_SIZE as int,
                M::MAX_PAGES as int,
            )),
            old(self).memory.steady() ==> (r matches Err(e) ==> e == Error::OutOfMemory
                && final(self).memory.bytes() == old(self).memory.bytes()),
    {
        let required = match self.offset.checked_add(buf.len()) {
            Some(required) => required,
            None => {
                return Err(Error::OutOfMemory);
            },
        };
        let current = self.memory.len()?;
        let ghost before = self.memory.bytes();
        if required > current {
            if M::PAGE_SIZE == 0 {
                return Err(Error::OutOfMemory);
            }
            let missing = required - current;
            let mut pages = missing / M::PAGE_SIZE;
            if missing % M::PAGE_SIZE > 0 {
                assert(missing / (M::PAGE_SIZE as usize) < usize::MAX) by (nonlinear_arith)
                    requires
                        missing % (M::PAGE_SIZE as usize) > 0,
                        M::PAGE_SIZE > 0,
                        missing <= usize::MAX,
                ;
                pages = pages + 1;
            }
            proof {
                lemma_missing_pages(current as int, required as int, M::PAGE_SIZE as int);
            }
            assert(pages == missing_pages(before.len() as int, required as int, M::PAGE_SIZE as int));
            self.memory.grow(pages)?;
            assert(self.memory.bytes() == before + zeros(pages * M::PAGE_SIZE));
            assert(self.memory.bytes() == grown(before, required as int, M::PAGE_SIZE as int));
        } else {
            proof {
                lemma_grown_enough(before, required as int, M::PAGE_SIZE as int);
            }
        }
        let ghost base = self.memory.bytes();
        let written = self.memory.write(self.offset, buf)?;
        self.offset = self.offset + written;
        Ok(written)
    }

    /// Writes all of `buf` at the cursor and moves the cursor past it.
    pub fn write_all(&mut self, buf: &[u8]) -> (r: Result<(), Error>)
        ensures
            *final(final(self).memory) == *final(old(self).memory),
            final(self).memory.steady() == old(self).memory.steady(),
            old(self).offset <= final(self).offset <= old(self).offset + buf@.len(),
            final(self).memory.bytes().len() >= old(self).memory.bytes().len(),
            r is Ok ==> {
                &&& final(self).offset == old(self).offset + buf@.len()
                &&& buf@.len() > 0 ==> final(self).memory.bytes().len() >= old(self).offset
                    + buf@.len()
                &&& final(self).memory.bytes() == if buf@.len() == 0 {
                    old(self).memory.bytes()
                } else {
                    overwrite(
                        grown(
                            old(self).memory.bytes(),
                            old(self).offset + buf@.len(),
                            M::PAGE_SIZE as int,
                        ),
                        old(self).offset as int,
                        buf@,
                    )
                }
            },
            old(self).offset + buf@.len() > usize::MAX ==> r is Err,
            old(self).memory.steady() ==> (r is Ok <==> buf@.len() == 0 || (old(self).offset
                + buf@.len() <= usize::MAX && can_hold(
                old(self).memory.bytes().len() as int,
                old(self).offset + buf@.len(),
                M::PAGE_SIZE as int,
                M::MAX_PAGES as int,
            ))),
            old(self).memory.steady() ==> (r matches Err(e) ==> e == Error::OutOfMemory
                && final(self).offset == old(self).offset
                && final(self).memory.bytes() == old(self).memory.bytes()),
    {
        let ghost start = self.offset;
        let ghost before = self.memory.bytes();
        let ghost base = grown(before, start + buf@.len(), M::PAGE_SIZE as int);
        let total = buf.len();
        let mut written: usize = 0;
        while written < total
            invariant
                *final(self.memory) == *final(old(self).memory),
                self.memory.steady() == old(self).memory.steady(),
                start == old(self).offset,
                before == old(self).memory.bytes(),
                base == grown(before, start + buf@.len(), M::PAGE_SIZE as int),
                total == buf@.len(),
                written <= total,
                self.offset == start + written,
                written == 0 ==> self.memory.bytes() == before,
                written > 0 ==> self.memory.bytes() == overwrite(
                    base,
                    start as int,
                    buf@.take(written as int),
                ) && base.len() >= start + total,
                written > 0 ==> start + total <= usize::MAX && can_hold(
                    before.len() as int,
                    start + total,
                    M::PAGE_SIZE as int,
                    M::MAX_PAGES as int,
                ) || !old(self).memory.steady(),
            decreases total - written,
        {
            let rest = vstd::slice::slice_subrange(buf, written, total);
            let ghost current = self.memory.bytes();
            let n = match self.write(rest) {
                Ok(n) => n,
                Err(e) => {
                    proof {
                        if M::PAGE_SIZE > 0 {
                            lemma_missing_pages(
                                current.len() as int,
                                start + total,
                                M::PAGE_SIZE as int,
                            );
                        }
                    }
                    return Err(e);
                },
            };
            proof {
                if written > 0 {
                    lemma_grown_enough(current, start + total, M::PAGE_SIZE as int);
                }
                assert(self.memory.bytes() =~= overwrite(
                    base,
                    start as int,
                    buf@.take(written + n),
                ));
            }
            written = written + n;
        }
        proof {
            assert(buf@.take(total as int) =~= buf@);
        }
        Ok(())
    }

    /// Does nothing: a write reaches the store at once.
    pub fn flush(&mut self) -> (r: Result<(), Error>)
        ensures
            *final(self) == *old(self),
            r is Ok,
    {
        Ok(())
    }
}

} // verus!
