//! The operations that requests from outside come to: opening, listing,
//! reading, creating and writing along a path.

use vstd::prelude::*;
use crate::cluster::{all_fit, keeps, stream_bytes, stream_holds, Disk, Stream};
use crate::directory::{
    directory_encodable, directory_encoding, lemma_directory_encoding, names, position_of,
    refused, resolve, touched, updated, write_of, Directory, EntryKind, EntryView,
};
use crate::error::Error;
use crate::file_system::FileSystem;
use crate::memory::{Memory, SeekFrom};

verus! {

/// Where an offset of a request lies in a file of `size` bytes: an offset
/// below zero counts from the end of the file.
pub open spec fn offset_of(size: int, offset: i64) -> int {
    if offset < 0 {
        size + offset
    } else {
        offset as int
    }
}

/// The range of bytes that a request names in a file of `size` bytes, from
/// its first byte to the byte behind its last. The range starts at the start
/// of the file where no start is given, and ends at its end where no end is
/// given. A range that starts behind its end, or before the start of the
/// file, or ends behind the end of the file, is `InvalidInput`.
pub open spec fn range_of(size: int, start: Option<i64>, end: Option<i64>) -> Result<
    (int, int),
    Error,
> {
    let first = match start {
        None => 0,
        Some(offset) => offset_of(size, offset),
    };
    let behind = match end {
        None => size,
        Some(offset) => offset_of(size, offset),
    };
    if 0 <= first <= behind <= size {
        Ok((first, behind))
    } else {
        Err(Error::InvalidInput)
    }
}

/// A range given from the end of a file: where `start` and `end` are below
/// zero, `start` is below `end`, and `start` does not reach back before the
/// start of the file, the request names the bytes from `size + start` to
/// `size + end`.
pub proof fn lemma_range_from_end(size: int, start: i64, end: i64)
    requires
        start < end < 0,
        0 <= size + start,
    ensures
        range_of(size, Some(start), Some(end)) == Ok::<(int, int), Error>(
            (size + start, size + end),
        ),
{
}

/// Computes the range of bytes that a request names in a file of `size`
/// bytes.
pub fn resolve_range(size: usize, start: Option<i64>, end: Option<i64>) -> (r: Result<
    (usize, usize),
    Error,
>)
    ensures
        match range_of(size as int, start, end) {
            Ok((first, behind)) => r == Ok::<(usize, usize), Error>(
                (first as usize, behind as usize),
            ),
            Err(e) => r == Err::<(usize, usize), Error>(e),
        },
{
    let first: i128 = match start {
        None => 0,
        Some(offset) => if offset < 0 {
            size as i128 + offset as i128
        } else {
            offset as i128
        },
    };
    let behind: i128 = match end {
        None => size as i128,
        Some(offset) => if offset < 0 {
            size as i128 + offset as i128
        } else {
            offset as i128
        },
    };
    if first < 0 || first > behind || behind > size as i128 {
        return Err(Error::InvalidInput);
    }
    Ok((first as usize, behind as usize))
}

/// The file that `path` leads to from the directory of the entries `root` in
/// a store of bytes `mem`: the first entry of the last name of the path in
/// the directory that the names before it lead to. An empty path is
/// `InvalidInput`, a name that no entry has `NotFound`, a directory in the
/// place of the file `Other`.
pub open spec fn file_at(mem: Seq<u8>, root: Seq<EntryView>, path: Seq<Seq<char>>) -> Result<
    EntryView,
    Error,
> {
    if path.len() == 0 {
        Err(Error::InvalidInput)
    } else {
        match resolve(mem, root, path.drop_last()) {
            Err(e) => Err(e),
            Ok(dir) => match position_of(dir, path.last()) {
                None => Err(Error::NotFound),
                Some(i) => if dir[i].kind == EntryKind::Directory {
                    Err(Error::Other)
                } else {
                    Ok(dir[i])
                },
            },
        }
    }
}

/// The names of `entries`.
pub open spec fn names_of(entries: Seq<EntryView>) -> Seq<Seq<char>> {
    Seq::new(entries.len(), |i: int| entries[i].name)
}

impl<M: Memory> FileSystem<M> {
    /// The file that `path` leads to from the root directory. A root
    /// directory that does not decode is `InvalidInput`.
    pub open spec fn file_of(&self, path: Seq<Seq<char>>) -> Result<EntryView, Error> {
        match self.root_entries() {
            None => Err(Error::InvalidInput),
            Some(root) => file_at(self.memory.bytes(), root, path),
        }
    }

    /// The bytes of the range that `start` and `end` name in the file that
    /// `path` leads to. A range that the stream of the file does not hold is
    /// `InvalidInput`.
    pub open spec fn bytes_of(&self, path: Seq<Seq<char>>, start: Option<i64>, end: Option<i64>)
        -> Result<Seq<u8>, Error> {
        match self.file_of(path) {
            Err(e) => Err(e),
            Ok(file) => match range_of(file.size as int, start, end) {
                Err(e) => Err(e),
                Ok((first, behind)) => if first == behind {
                    Ok(Seq::empty())
                } else if 512 * file.blocks.len() <= usize::MAX && stream_holds(
                    self.memory.bytes(),
                    file.blocks,
                    first,
                    behind - first,
                ) {
                    Ok(stream_bytes(self.memory.bytes(), file.blocks, first, behind - first))
                } else {
                    Err(Error::InvalidInput)
                },
            },
        }
    }

    /// The directory that `path` leads to from the root directory.
    pub fn open_directory(&self, path: &[&str]) -> (r: Result<Directory, Error>)
        ensures
            r matches Ok(directory) ==> self.root_entries() matches Some(root) && resolve(
                self.memory.bytes(),
                root,
                names(path@),
            ) == Ok::<Seq<EntryView>, Error>(directory@),
            self.root_entries() is None ==> r is Err,
            self.root_entries() matches Some(root) && resolve(
                self.memory.bytes(),
                root,
                names(path@),
            ) is Err ==> r is Err,
            self.memory.steady() ==> (r matches Err(e) ==> self.directory_at(names(path@))
                == Err::<Seq<EntryView>, Error>(e)),
    {
        let mut dir = self.read_root_directory()?;
        let ghost root = dir@;
        let ghost mem = self.memory.bytes();
        let mut i: usize = 0;
        proof {
            assert(names(path@).skip(0) =~= names(path@));
        }
        while i < path.len()
            invariant
                i <= path@.len(),
                mem == self.memory.bytes(),
                self.root_entries() == Some(root),
                resolve(mem, root, names(path@)) == resolve(mem, dir@, names(path@).skip(i as int)),
            decreases path@.len() - i,
        {
            proof {
                assert(names(path@).skip(i as int).drop_first() =~= names(path@).skip(i + 1));
                assert(names(path@).skip(i as int)[0] == path@[i as int]@);
            }
            let next = dir.enter(self, path[i])?;
            dir = next;
            i = i + 1;
        }
        Ok(dir)
    }

    /// The names of the entries of the directory that `path` leads to, in
    /// order.
    pub fn list(&self, path: &[&str]) -> (r: Result<Vec<String>, Error>)
        ensures
            r matches Ok(found) ==> self.root_entries() matches Some(root) && resolve(
                self.memory.bytes(),
                root,
                names(path@),
            ) matches Ok(entries) && found.deep_view() == names_of(entries),
            self.root_entries() is None ==> r is Err,
            self.root_entries() matches Some(root) && resolve(
                self.memory.bytes(),
                root,
                names(path@),
            ) is Err ==> r is Err,
            self.memory.steady() ==> (r matches Err(e) ==> self.directory_at(names(path@))
                == Err::<Seq<EntryView>, Error>(e)),
    {
        let dir = self.open_directory(path)?;
        let mut found: Vec<String> = Vec::new();
        let mut i: usize = 0;
        while i < dir.entries.len()
            invariant
                i <= dir.entries@.len(),
                found@.len() == i,
                forall|k: int| 0 <= k < i ==> (#[trigger] found@[k])@ == dir.entries@[k].name@,
            decreases dir.entries@.len() - i,
        {
            found.push(dir.entries[i].name.clone());
            i = i + 1;
        }
        proof {
            assert(found.deep_view() =~= names_of(dir@));
        }
        Ok(found)
    }

    /// The size of the file that `path` leads to. An empty path is refused
    /// as `InvalidInput` before the store is read.
    pub fn open_file(&self, path: &[&str]) -> (r: Result<usize, Error>)
        ensures
            path@.len() == 0 ==> r == Err::<usize, Error>(Error::InvalidInput),
            r matches Ok(size) ==> self.file_of(names(path@)) matches Ok(file) && file.size == size,
            self.file_of(names(path@)) is Err ==> r is Err,
            self.memory.steady() ==> (r matches Err(e) ==> self.file_of(names(path@)) == Err::<
                EntryView,
                Error,
            >(e)),
    {
        if path.len() == 0 {
            return Err(Error::InvalidInput);
        }
        let last = path.len() - 1;
        proof {
            assert(names(path@.take(last as int)) =~= names(path@).drop_last());
        }
        let dir = self.open_directory(vstd::slice::slice_subrange(path, 0, last))?;
        match dir.entry_with_name(path[last]) {
            None => Err(Error::NotFound),
            Some(entry) => {
                proof {
                    let k = position_of(dir@, path@[last as int]@).unwrap();
                    assert(dir@[k] == entry@);
                }
                match entry.kind {
                    EntryKind::Directory => Err(Error::Other),
                    EntryKind::File => Ok(entry.size),
                }
            },
        }
    }

    /// The bytes of the range that `start` and `end` name in the file that
    /// `path` leads to. An empty path is refused as `InvalidInput` before the
    /// store is read.
    pub fn read_file(&self, path: &[&str], start: Option<i64>, end: Option<i64>) -> (r: Result<
        Vec<u8>,
        Error,
    >)
        ensures
            path@.len() == 0 ==> r == Err::<Vec<u8>, Error>(Error::InvalidInput),
            r matches Ok(bytes) ==> self.bytes_of(names(path@), start, end) == Ok::<
                Seq<u8>,
                Error,
            >(bytes@),
            self.bytes_of(names(path@), start, end) is Err ==> r is Err,
            self.memory.steady() ==> (r matches Err(e) ==> self.bytes_of(
                names(path@),
                start,
                end,
            ) == Err::<Seq<u8>, Error>(e)),
    {
        if path.len() == 0 {
            return Err(Error::InvalidInput);
        }
        let last = path.len() - 1;
        proof {
            assert(names(path@.take(last as int)) =~= names(path@).drop_last());
        }
        let dir = self.open_directory(vstd::slice::slice_subrange(path, 0, last))?;
        match dir.entry_with_name(path[last]) {
            None => Err(Error::NotFound),
            Some(entry) => {
                proof {
                    let k = position_of(dir@, path@[last as int]@).unwrap();
                    assert(dir@[k] == entry@);
                }
                match entry.kind {
                    EntryKind::Directory => Err(Error::Other),
                    EntryKind::File => {
                        let (first, behind) = resolve_range(entry.size, start, end)?;
                        let count = behind - first;
                        let mut data: Vec<u8> = vec![0u8; count];
                        let mut reader = entry.read_from_file_system(self);
                        if first > 0 {
                            let _ = reader.seek(SeekFrom::Start(first as u64))?;
                        }
                        reader.read_exact(data.as_mut_slice())?;
                        proof {
                            if first == behind {
                                assert(data@ =~= Seq::<u8>::empty());
                            } else {
                                assert(data@ =~= stream_bytes(
                                    self.memory.bytes(),
                                    entry@.blocks,
                                    first as int,
                                    behind - first,
                                ));
                            }
                        }
                        Ok(data)
                    },
                }
            },
        }
    }

    /// Makes the directories of `path` below the root directory, as
    /// `make_directory_recursive` does.
    pub fn create_directory(&mut self, path: &[&str]) -> (r: Result<(), Error>)
        ensures
            old(self).preamble_reserved() ==> final(self).preamble_reserved(),
            r is Ok ==> exists|middle: Self, root: Seq<EntryView>|
                {
                    &&& old(self).root_entries() matches Some(start) && crate::directory::made(
                        old(self).disk(),
                        start,
                        names(path@),
                        M::PAGE_SIZE as int,
                        None,
                    ) == Ok::<(Disk, Seq<EntryView>), Error>((middle.disk(), root))
                    &&& middle.root_cluster == old(self).root_cluster
                    &&& #[trigger] Self::root_written(middle, root, *final(self))
                },
            old(self).root_entries() is None ==> r is Err && *final(self) == *old(self),
            old(self).root_entries() matches Some(start) && crate::directory::made(
                old(self).disk(),
                start,
                names(path@),
                M::PAGE_SIZE as int,
                None,
            ) is Err ==> r is Err,
            final(self).memory.steady() == old(self).memory.steady(),
            old(self).memory.steady() ==> (r is Ok <==> Self::makes(*old(self), names(path@))),
            old(self).memory.steady() ==> Self::make_outcome(
                *old(self),
                names(path@),
                *final(self),
                r,
            ),
    {
        self.make_directory_recursive(path)
    }

    /// Whether a change to the file of the name `name` in the directory that
    /// `path` leads to goes through on a steady store: the root directory
    /// decodes, the change is made and the directories on the path are
    /// written back, and the root directory that comes of it can be written
    /// back.
    pub open spec fn updates(
        before: Self,
        path: Seq<Seq<char>>,
        name: Seq<char>,
        write: Option<(int, Seq<u8>)>,
    ) -> bool {
        match before.root_entries() {
            None => false,
            Some(start) => match updated(
                before.disk(),
                start,
                path,
                name,
                write,
                M::PAGE_SIZE as int,
                Some(M::MAX_PAGES as int),
            ) {
                Err(_) => false,
                Ok((disk, root)) => directory_encodable(root) && all_fit(
                    Stream { disk, blocks: before.root_cluster@, offset: 0 },
                    directory_encoding(root),
                    M::PAGE_SIZE as int,
                    M::MAX_PAGES as int,
                ),
            },
        }
    }

    /// Whether a change to the file of the name `name` in the directory that
    /// `path` leads to from a directory of the entries `start` has left of
    /// the file system `before` the file system `middle`, of the directory
    /// the entries `root`, and has returned `rd`, as `Directory::update`
    /// does: on a steady store the outcome is what `updated` says; a change
    /// that is refused changes nothing; and whatever fails, no block is
    /// freed and every entry but the one that the change goes through is as
    /// it was.
    pub open spec fn updated_as(
        before: Self,
        start: Seq<EntryView>,
        path: Seq<Seq<char>>,
        name: Seq<char>,
        write: Option<(int, Seq<u8>)>,
        middle: Self,
        root: Seq<EntryView>,
        rd: Result<(), Error>,
    ) -> bool {
        &&& middle.root_cluster == before.root_cluster
        &&& middle.memory.steady() == before.memory.steady()
        &&& middle.memory.bytes().len() >= before.memory.bytes().len()
        &&& keeps(before.bitmap@, middle.bitmap@)
        &&& refused(before.memory.bytes(), start, path, name, write) ==> rd is Err && middle
            == before && root == start
        &&& path.len() > 0 ==> touched(start, root, path[0], EntryKind::Directory)
        &&& path.len() == 0 && write is Some ==> touched(start, root, name, EntryKind::File)
        &&& rd is Ok ==> updated(
            before.disk(),
            start,
            path,
            name,
            write,
            M::PAGE_SIZE as int,
            None,
        ) == Ok::<(Disk, Seq<EntryView>), Error>((middle.disk(), root))
        &&& before.memory.steady() ==> match updated(
            before.disk(),
            start,
            path,
            name,
            write,
            M::PAGE_SIZE as int,
            Some(M::MAX_PAGES as int),
        ) {
            Ok(end) => rd is Ok && end == (middle.disk(), root),
            Err(e) => rd == Err::<(), Error>(e),
        }
    }

    /// Whether a change to the file of the name `name` in the directory that
    /// `path` leads to from the root directory of the file system `before`
    /// has left the file system `after` and has returned `r`. A root
    /// directory that does not decode is `InvalidInput`, and nothing changes.
    /// Else the change is made as `updated_as` says, and the root directory
    /// that comes of it is written back as `root_back` says, also where the
    /// change failed: the result is then the error of the change, or the
    /// error of writing the root directory where that fails too. So a change
    /// that is refused gives the error that `updated` names once the root
    /// directory, unchanged, has been written back.
    pub open spec fn update_outcome(
        before: Self,
        path: Seq<Seq<char>>,
        name: Seq<char>,
        write: Option<(int, Seq<u8>)>,
        after: Self,
        r: Result<(), Error>,
    ) -> bool {
        match before.root_entries() {
            None => r == Err::<(), Error>(Error::InvalidInput) && after == before,
            Some(start) => {
                &&& refused(before.memory.bytes(), start, path, name, write) ==> (updated(
                    before.disk(),
                    start,
                    path,
                    name,
                    write,
                    M::PAGE_SIZE as int,
                    Some(M::MAX_PAGES as int),
                ) matches Err(e) ==> Self::root_back(
                    before,
                    start,
                    Err::<(), Error>(e),
                    after,
                    r,
                ))
                &&& exists|middle: Self, root: Seq<EntryView>, rd: Result<(), Error>|
                    Self::updated_as(before, start, path, name, write, middle, root, rd)
                        && #[trigger] Self::root_back(middle, root, rd, after, r)
            },
        }
    }

    /// Changes the file of the name `name` in the directory that `path`
    /// leads to from the root directory, as `updated` says, and writes the
    /// root directory back through the root cluster, whether the change
    /// fails or not. On a steady store the outcome is what `update_outcome`
    /// says.
    pub fn update(&mut self, path: &[&str], name: &str, write: Option<(usize, &[u8])>) -> (r:
        Result<(), Error>)
        ensures
            old(self).preamble_reserved() ==> final(self).preamble_reserved(),
            final(self).memory.steady() == old(self).memory.steady(),
            old(self).root_entries() is None ==> r is Err && *final(self) == *old(self),
            r is Ok ==> exists|middle: Self, root: Seq<EntryView>|
                {
                    &&& old(self).root_entries() matches Some(start) && updated(
                        old(self).disk(),
                        start,
                        names(path@),
                        name@,
                        write_of(write),
                        M::PAGE_SIZE as int,
                        None,
                    ) == Ok::<(Disk, Seq<EntryView>), Error>((middle.disk(), root))
                    &&& middle.root_cluster == old(self).root_cluster
                    &&& #[trigger] Self::root_written(middle, root, *final(self))
                },
            old(self).memory.steady() ==> (r is Ok <==> Self::updates(
                *old(self),
                names(path@),
                name@,
                write_of(write),
            )),
            old(self).memory.steady() ==> Self::update_outcome(
                *old(self),
                names(path@),
                name@,
                write_of(write),
                *final(self),
                r,
            ),
    {
        let mut root = self.read_root_directory()?;
        let ghost start = root@;
        let updated = root.update(self, path, name, write);
        let ghost middle = *self;
        proof {
            lemma_directory_encoding(&root);
        }
        let r = match self.write_root_directory(&root) {
            Ok(()) => updated,
            Err(e) => Err(e),
        };
        proof {
            if r is Ok {
                assert(Self::root_written(middle, root@, *self));
            }
            assert(Self::updated_as(
                *old(self),
                start,
                names(path@),
                name@,
                write_of(write),
                middle,
                root@,
                updated,
            ));
            assert(Self::root_back(middle, root@, updated, *self, r));
        }
        r
    }

    /// Adds an empty file at the end of the directory that the names of
    /// `path` before the last lead to, under the last name, and writes the
    /// directories on the path back. The directory must exist; an empty path
    /// is refused as `InvalidInput` before anything changes. An entry that
    /// has the name already stays, before the new one.
    pub fn create_file(&mut self, path: &[&str]) -> (r: Result<(), Error>)
        ensures
            old(self).preamble_reserved() ==> final(self).preamble_reserved(),
            final(self).memory.steady() == old(self).memory.steady(),
            path@.len() == 0 ==> r == Err::<(), Error>(Error::InvalidInput)
                && *final(self) == *old(self),
            old(self).root_entries() is None ==> r is Err && *final(self) == *old(self),
            r is Ok ==> exists|middle: Self, root: Seq<EntryView>|
                {
                    &&& path@.len() > 0
                    &&& old(self).root_entries() matches Some(start) && updated(
                        old(self).disk(),
                        start,
                        names(path@).drop_last(),
                        names(path@).last(),
                        None,
                        M::PAGE_SIZE as int,
                        None,
                    ) == Ok::<(Disk, Seq<EntryView>), Error>((middle.disk(), root))
                    &&& middle.root_cluster == old(self).root_cluster
                    &&& #[trigger] Self::root_written(middle, root, *final(self))
                },
            old(self).memory.steady() ==> (r is Ok <==> path@.len() > 0 && Self::updates(
                *old(self),
                names(path@).drop_last(),
                names(path@).last(),
                None,
            )),
            old(self).memory.steady() && path@.len() > 0 ==> Self::update_outcome(
                *old(self),
                names(path@).drop_last(),
                names(path@).last(),
                None,
                *final(self),
                r,
            ),
    {
        if path.len() == 0 {
            return Err(Error::InvalidInput);
        }
        let last = path.len() - 1;
        let parent = vstd::slice::slice_subrange(path, 0, last);
        proof {
            assert(names(parent@) =~= names(path@).drop_last());
            assert(names(path@).last() == path@[last as int]@);
        }
        self.update(parent, path[last], None)
    }

    /// Writes `data` at offset `offset` of the file that `path` leads to, or
    /// at its start where no offset is given, and writes the directories on
    /// the path back. The file is made where its directory has no entry of
    /// its name; the directory must exist. An empty path, and an offset below
    /// zero or one that a `usize` cannot hold, are refused as `InvalidInput`
    /// before anything changes.
    pub fn write_file(&mut self, path: &[&str], data: &[u8], offset: Option<i64>) -> (r: Result<
        (),
        Error,
    >)
        ensures
            old(self).preamble_reserved() ==> final(self).preamble_reserved(),
            final(self).memory.steady() == old(self).memory.steady(),
            path@.len() == 0 || (offset matches Some(at) && !(0 <= at <= usize::MAX)) ==> r
                == Err::<(), Error>(Error::InvalidInput) && *final(self) == *old(self),
            old(self).root_entries() is None ==> r is Err && *final(self) == *old(self),
            r is Ok ==> exists|middle: Self, root: Seq<EntryView>|
                {
                    &&& path@.len() > 0
                    &&& old(self).root_entries() matches Some(start) && updated(
                        old(self).disk(),
                        start,
                        names(path@).drop_last(),
                        names(path@).last(),
                        Some((offset_or_start(offset), data@)),
                        M::PAGE_SIZE as int,
                        None,
                    ) == Ok::<(Disk, Seq<EntryView>), Error>((middle.disk(), root))
                    &&& middle.root_cluster == old(self).root_cluster
                    &&& #[trigger] Self::root_written(middle, root, *final(self))
                },
            old(self).memory.steady() ==> (r is Ok <==> path@.len() > 0 && 0 <= offset_or_start(
                offset,
            ) <= usize::MAX && Self::updates(
                *old(self),
                names(path@).drop_last(),
                names(path@).last(),
                Some((offset_or_start(offset), data@)),
            )),
            old(self).memory.steady() && path@.len() > 0 && 0 <= offset_or_start(offset)
                <= usize::MAX ==> Self::update_outcome(
                *old(self),
                names(path@).drop_last(),
                names(path@).last(),
                Some((offset_or_start(offset), data@)),
                *final(self),
                r,
            ),
    {
        if path.len() == 0 {
            return Err(Error::InvalidInput);
        }
        let at: usize = match offset {
            None => 0,
            Some(at) => {
                if at < 0 || at as u64 > usize::MAX as u64 {
                    return Err(Error::InvalidInput);
                }
                at as usize
            },
        };
        let last = path.len() - 1;
        let parent = vstd::slice::slice_subrange(path, 0, last);
        proof {
            assert(names(parent@) =~= names(path@).drop_last());
            assert(names(path@).last() == path@[last as int]@);
        }
        self.update(parent, path[last], Some((at, data)))
    }
}

/// The offset at which a request writes: the one it gives, or the start of
/// the file where it gives none.
pub open spec fn offset_or_start(offset: Option<i64>) -> int {
    match offset {
        Some(at) => at as int,
        None => 0,
    }
}

} // verus!
