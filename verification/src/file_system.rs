//! The file system: the preamble, the root directory, and the walks from
//! the root along a path.

use vstd::prelude::*;
use crate::bitmap::{is_empty_map, Bitmap};
use crate::block::Block;
use crate::cluster::{
    all_fit, all_written, apart, blocks_encodable, blocks_encoding, can_write, covered,
    distinct, ends_at, extends, keeps, lemma_all_written_apart, lemma_all_written_covered,
    lemma_cluster_round_trip, lemma_decode_runs_window, lemma_stream_end, stream_holds,
    took_blocks, whole_stream, Cluster, ClusterReader, ClusterWriter, Disk, Stream,
};
use crate::directory::{
    blocked, directory_encodable, directory_encoding, entries_in, entries_of, kept,
    lemma_blocked_made, lemma_directory_encoding, lemma_directory_read_back,
    lemma_kept_read_back, lemma_position_of, lemma_position_of_update, made, names,
    position_of, resolve, rewritten, touched, views_of, Directory, EntryKind, EntryView,
};
use crate::error::Error;
use crate::memory::{
    can_hold, grown, overwrite, zeros, Memory, MemoryReader, MemoryWriter,
};
use crate::serde::{be_bytes, read_be, Deserialize, Serialize};

verus! {

/// A file system over a store: the bitmap of the store's blocks, the cluster
/// that holds the root directory, and the store itself.
///
/// The store begins with the preamble: the bytes of the bitmap and, behind
/// them, the encoding of the root cluster. The blocks of the preamble are
/// marked as taken when the file system is set up, so that no cluster comes
/// to lie over it.
///
/// While the file system is in use, the bitmap and the root cluster are kept
/// in its own fields, and nothing but `persist` writes them to the store. A
/// file system that is let go without a call of `persist` leaves the
/// preamble in the store as it was last written: whoever wants to `open` the
/// store again calls `persist` first.
pub struct FileSystem<M: Memory> {
    pub bitmap: Bitmap,
    pub root_cluster: Cluster,
    pub memory: M,
}

impl<M: Memory> DeepView for FileSystem<M> {
    type V = (Seq<u8>, Seq<Block>);

    /// What the preamble holds of a file system: the bytes of the bitmap and
    /// the blocks of the root cluster.
    open spec fn deep_view(&self) -> (Seq<u8>, Seq<Block>) {
        (self.bitmap.bytes(), self.root_cluster@)
    }
}

impl<M: Memory> Serialize for FileSystem<M> {
    open spec fn encodable(&self) -> bool {
        blocks_encodable(self.root_cluster@)
    }

    /// The bytes of the bitmap, then the encoding of the root cluster.
    open spec fn encoding(&self) -> Seq<u8> {
        self.bitmap.bytes() + blocks_encoding(self.root_cluster@)
    }

    fn serialize(&self, w: &mut Vec<u8>) -> (r: Result<usize, Error>) {
        let start = w.len();
        let mut descriptor: Vec<u8> = Vec::new();
        let _ = self.root_cluster.serialize(&mut descriptor)?;
        let _ = self.bitmap.serialize(w);
        let _ = descriptor.as_slice().serialize(w);
        proof {
            assert(w@ =~= old(w)@ + self.encoding());
        }
        Ok(w.len() - start)
    }
}

impl<M: Memory> Deserialize for FileSystem<M> {
    /// As many bytes as the bitmap has, then the encoding of a cluster.
    open spec fn decode(before: (Seq<u8>, Seq<Block>), input: Seq<u8>) -> Option<
        ((Seq<u8>, Seq<Block>), nat),
    > {
        match Bitmap::decode(before.0, input) {
            None => None,
            Some((bytes, n)) => match Cluster::decode(before.1, input.skip(n as int)) {
                None => None,
                Some((blocks, m)) => Some(((bytes, blocks), n + m)),
            },
        }
    }

    fn deserialize(&mut self, r: &[u8]) -> (res: Result<usize, Error>) {
        let len = self.bitmap.len();
        if r.len() < len {
            return Err(Error::InvalidInput);
        }
        let rest = vstd::slice::slice_subrange(r, len, r.len());
        proof {
            assert(rest@ =~= r@.skip(len as int));
        }
        let m = self.root_cluster.deserialize(rest)?;
        let n = self.bitmap.deserialize(r)?;
        Ok(n + m)
    }
}

/// `bits` with the first `count` of them set.
pub open spec fn with_first_set(bits: Seq<bool>, count: int) -> Seq<bool> {
    Seq::new(bits.len(), |i: int| i < count || bits[i])
}

/// The bytes of the line that shows `entry` in the picture of a tree, `depth`
/// directories below the root: a line feed, four spaces for each directory
/// above, a bar and a space, the name in UTF-8, and a slash behind the name
/// of a directory.
pub open spec fn line_bytes(entry: EntryView, depth: nat) -> Seq<u8> {
    seq![10u8] + Seq::new(4 * depth, |i: int| 32u8) + seq![124u8, 32u8] + vstd::utf8::encode_utf8(
        entry.name,
    ) + if entry.kind == EntryKind::Directory {
        seq![47u8]
    } else {
        Seq::empty()
    }
}

/// The bytes of the lines that show `entries` and all that lies below them
/// in a store of bytes `mem`: each entry in order, and behind each directory
/// the lines of its own entries, one step deeper. `None` where a directory
/// does not decode, or where directories lie in one another more than
/// `fuel` deep.
pub open spec fn lines_bytes(mem: Seq<u8>, entries: Seq<EntryView>, depth: nat, fuel: nat) -> Option<
    Seq<u8>,
>
    decreases fuel, entries.len(),
{
    if entries.len() == 0 {
        Some(Seq::empty())
    } else {
        let first = entries[0];
        let below = if first.kind == EntryKind::Directory {
            if fuel == 0 {
                None
            } else {
                match entries_of(mem, first) {
                    None => None,
                    Some(sub) => lines_bytes(mem, sub, depth + 1, (fuel - 1) as nat),
                }
            }
        } else {
            Some(Seq::empty())
        };
        match below {
            None => None,
            Some(inner) => match lines_bytes(mem, entries.drop_first(), depth, fuel) {
                None => None,
                Some(rest) => Some(line_bytes(first, depth) + inner + rest),
            },
        }
    }
}

/// The lines found once `done` have been written and `tail` says how the
/// rest goes.
pub open spec fn lines_joined(done: Seq<u8>, tail: Option<Seq<u8>>) -> Option<Seq<u8>> {
    match tail {
        None => None,
        Some(rest) => Some(done + rest),
    }
}

impl<M: Memory> FileSystem<M> {
    /// What the clusters of the file system share: the bits of its bitmap and
    /// the bytes of its store.
    pub open spec fn disk(&self) -> Disk {
        Disk { bits: self.bitmap@, mem: self.memory.bytes() }
    }

    /// The stream of the root cluster, with a cursor at `offset`.
    pub open spec fn root_stream(&self, offset: int) -> Stream {
        Stream { disk: self.disk(), blocks: self.root_cluster@, offset }
    }

    /// The entries of the root directory: what the stream of the root cluster
    /// decodes to. A root cluster whose blocks hold more bytes than a `usize`
    /// counts is not read.
    pub open spec fn root_entries(&self) -> Option<Seq<EntryView>> {
        if self.root_cluster.extent() <= usize::MAX {
            entries_in(whole_stream(self.memory.bytes(), self.root_cluster@))
        } else {
            None
        }
    }

    /// The directory that `path` leads to from the root directory. A root
    /// directory that does not decode is `InvalidInput`.
    pub open spec fn directory_at(&self, path: Seq<Seq<char>>) -> Result<Seq<EntryView>, Error> {
        match self.root_entries() {
            None => Err(Error::InvalidInput),
            Some(root) => resolve(self.memory.bytes(), root, path),
        }
    }

    /// The number of blocks that the preamble takes: the blocks that hold the
    /// bitmap, and eight more.
    pub open spec fn preamble() -> int {
        (Bitmap::len_for::<M>() + 511) / 512 + 8
    }

    /// Whether the blocks of the preamble are marked as taken.
    pub open spec fn preamble_reserved(&self) -> bool {
        forall|i: int| 0 <= i < Self::preamble() && i < self.bitmap@.len() ==> self.bitmap@[i]
    }

    /// The number of blocks that the preamble takes.
    pub fn preamble_blocks() -> (blocks: usize)
        ensures
            blocks == Self::preamble(),
    {
        (Bitmap::len_for_memory_impl::<M>() + (Block::SIZE - 1)) / Block::SIZE + 8
    }

    /// A file system over `memory` with an empty bitmap and an empty root
    /// cluster. The store is not touched.
    pub fn allocate(memory: M) -> (fs: Self)
        ensures
            fs.memory == memory,
            fs.root_cluster@ == Seq::<Block>::empty(),
            fs.bitmap.bytes() == zeros(Bitmap::len_for::<M>()),
            is_empty_map(fs.bitmap@),
    {
        Self { bitmap: Bitmap::new::<M>(), root_cluster: Cluster::default(), memory }
    }

    /// A writer over the stream of `cluster`, with its cursor at offset zero,
    /// which takes blocks from the file system's bitmap and writes its store.
    pub fn write_into_cluster<'a>(&'a mut self, cluster: &'a mut Cluster) -> (w: ClusterWriter<
        'a,
        MemoryWriter<'a, M>,
    >)
        ensures
            *w.cluster == *old(cluster),
            *final(w.cluster) == *final(cluster),
            *w.bitmap == old(self).bitmap,
            *w.writer.memory == old(self).memory,
            w.writer.offset == 0,
            w.offset == 0,
            final(self).bitmap == *final(w.bitmap),
            final(self).memory == *final(w.writer.memory),
            final(self).root_cluster == old(self).root_cluster,
    {
        cluster.writer(&mut self.bitmap, self.memory.writer())
    }

    /// A writer over the stream of the root cluster, with its cursor at
    /// offset zero.
    pub fn write_into_root_cluster(&mut self) -> (w: ClusterWriter<'_, MemoryWriter<'_, M>>)
        ensures
            *w.cluster == old(self).root_cluster,
            *w.bitmap == old(self).bitmap,
            *w.writer.memory == old(self).memory,
            w.writer.offset == 0,
            w.offset == 0,
            final(self).root_cluster == *final(w.cluster),
            final(self).bitmap == *final(w.bitmap),
            final(self).memory == *final(w.writer.memory),
    {
        self.root_cluster.writer(&mut self.bitmap, self.memory.writer())
    }

    /// A reader over the stream of `cluster`, with its cursor at offset zero,
    /// which reads the file system's store.
    pub fn read_from_cluster<'a>(&'a self, cluster: &'a Cluster) -> (r: ClusterReader<
        'a,
        MemoryReader<'a, M>,
    >)
        ensures
            r.cluster == cluster,
            *r.reader.memory == self.memory,
            r.reader.offset == 0,
            r.offset == 0,
    {
        cluster.reader(self.memory.reader())
    }

    /// A reader over the stream of the root cluster, with its cursor at
    /// offset zero.
    pub fn read_from_root_cluster(&self) -> (r: ClusterReader<'_, MemoryReader<'_, M>>)
        ensures
            *r.cluster == self.root_cluster,
            *r.reader.memory == self.memory,
            r.reader.offset == 0,
            r.offset == 0,
    {
        self.root_cluster.reader(self.memory.reader())
    }

    /// The bytes that the preamble begins with: the bytes of the bitmap, then
    /// the encoding of the root cluster.
    pub open spec fn image(&self) -> Seq<u8> {
        self.bitmap.bytes() + blocks_encoding(self.root_cluster@)
    }

    /// A file system over `memory`, set up in it as `init` does.
    pub fn new(memory: M) -> (r: Result<Self, Error>)
        ensures
            Self::preamble() > 8 * Bitmap::len_for::<M>() ==> r is Err,
            r matches Ok(fs) ==> {
                let start = Stream {
                    disk: Disk {
                        bits: with_first_set(
                            crate::bitmap::bits_of(zeros(Bitmap::len_for::<M>())),
                            Self::preamble(),
                        ),
                        mem: memory.bytes(),
                    },
                    blocks: Seq::empty(),
                    offset: 0,
                };
                &&& can_write(start, 8)
                &&& fs.root_stream(8) == all_written(start, be_bytes(0, 8), M::PAGE_SIZE as int)
                &&& fs.preamble_reserved()
            },
            memory.steady() ==> (r is Ok <==> Self::preamble() <= 8 * Bitmap::len_for::<M>()
                && all_fit(
                Stream {
                    disk: Disk {
                        bits: with_first_set(
                            crate::bitmap::bits_of(zeros(Bitmap::len_for::<M>())),
                            Self::preamble(),
                        ),
                        mem: memory.bytes(),
                    },
                    blocks: Seq::empty(),
                    offset: 0,
                },
                be_bytes(0, 8),
                M::PAGE_SIZE as int,
                M::MAX_PAGES as int,
            )),
            memory.steady() ==> (r matches Err(e) ==> e == Error::OutOfMemory),
            r matches Ok(fs) ==> fs.memory.steady() == memory.steady(),
            r matches Ok(fs) ==> M::PAGE_SIZE > 0 ==> fs.root_entries() == Some(
                Seq::<EntryView>::empty(),
            ),
    {
        let mut fs = Self::allocate(memory);
        match fs.init() {
            Ok(()) => {
                proof {
                    let start = Stream {
                        disk: Disk {
                            bits: with_first_set(
                                crate::bitmap::bits_of(zeros(Bitmap::len_for::<M>())),
                                Self::preamble(),
                            ),
                            mem: memory.bytes(),
                        },
                        blocks: Seq::<Block>::empty(),
                        offset: 0,
                    };
                    let blank = Seq::<EntryView>::empty();
                    assert(directory_encoding(blank) =~= be_bytes(0, 8));
                    if M::PAGE_SIZE > 0 {
                        lemma_directory_read_back(start, blank, M::PAGE_SIZE as int);
                        crate::bitmap::lemma_allocations_ascend(start.disk.bits, 1);
                        assert(fs.root_cluster@.len() == 1);
                    }
                }
                Ok(fs)
            },
            Err(e) => Err(e),
        }
    }

    /// A file system over `memory`, read from it as `restore` does.
    pub fn open(memory: M) -> (r: Result<Self, Error>)
        ensures
            r matches Ok(fs) ==> {
                let n = Bitmap::len_for::<M>();
                &&& fs.memory == memory
                &&& n <= memory.bytes().len()
                &&& fs.bitmap.bytes() == memory.bytes().take(n)
                &&& crate::cluster::Cluster::decode(Seq::empty(), memory.bytes().skip(n))
                    matches Some((blocks, _)) && blocks == fs.root_cluster@
            },
            Bitmap::len_for::<M>() > memory.bytes().len() ==> r is Err,
            Bitmap::len_for::<M>() <= memory.bytes().len() && crate::cluster::Cluster::decode(
                Seq::empty(),
                memory.bytes().skip(Bitmap::len_for::<M>()),
            ) is None ==> r is Err,
            memory.steady() ==> (r matches Err(e) ==> e == Error::InvalidInput && (
            Bitmap::len_for::<M>() > memory.bytes().len() || crate::cluster::Cluster::decode(
                Seq::empty(),
                memory.bytes().skip(Bitmap::len_for::<M>()),
            ) is None)),
    {
        let mut fs = Self::allocate(memory);
        proof {
            crate::memory::lemma_zeros_len(Bitmap::len_for::<M>());
        }
        match fs.restore() {
            Ok(()) => Ok(fs),
            Err(e) => Err(e),
        }
    }

    /// Reads the bitmap and the root cluster from the start of the store:
    /// as many bytes as the bitmap has, then the encoding of a cluster, whose
    /// blocks are added behind those that the root cluster has. Where the
    /// store ends too early or the bytes do not decode, the call fails and
    /// leaves the bitmap and the blocks of the root cluster as they were.
    pub fn restore(&mut self) -> (r: Result<(), Error>)
        ensures
            final(self).memory == old(self).memory,
            r is Err ==> final(self).bitmap == old(self).bitmap
                && final(self).root_cluster@ == old(self).root_cluster@,
            r is Ok ==> {
                let n = old(self).bitmap.bytes().len() as int;
                let mem = old(self).memory.bytes();
                &&& n <= mem.len()
                &&& final(self).bitmap.bytes() == mem.take(n)
                &&& crate::cluster::Cluster::decode(old(self).root_cluster@, mem.skip(n))
                    matches Some((blocks, _)) && blocks == final(self).root_cluster@
            },
            old(self).bitmap.bytes().len() > old(self).memory.bytes().len() ==> r is Err,
            old(self).bitmap.bytes().len() <= old(self).memory.bytes().len()
                && crate::cluster::Cluster::decode(
                old(self).root_cluster@,
                old(self).memory.bytes().skip(old(self).bitmap.bytes().len() as int),
            ) is None ==> r is Err,
            old(self).memory.steady() ==> (r matches Err(e) ==> e == Error::InvalidInput && (
            old(self).bitmap.bytes().len() > old(self).memory.bytes().len()
                || crate::cluster::Cluster::decode(
                old(self).root_cluster@,
                old(self).memory.bytes().skip(old(self).bitmap.bytes().len() as int),
            ) is None)),
    {
        let len = self.bitmap.len();
        let size = self.memory.len()?;
        if size < len {
            return Err(Error::InvalidInput);
        }
        let ghost mem = self.memory.bytes();
        let ghost input = mem.skip(len as int);
        let mut reader = self.memory.reader();
        let mut image: Vec<u8> = vec![0u8; len];
        reader.read_exact(image.as_mut_slice())?;
        let mut descriptor = reader.read_up_to(4)?;
        if descriptor.len() < 4 {
            return Err(Error::InvalidInput);
        }
        let count = read_be(descriptor.as_slice());
        let most: usize = if count > (usize::MAX / 8) as u64 {
            usize::MAX
        } else {
            (count * 8) as usize
        };
        let tail = reader.read_up_to(most)?;
        let ghost head = descriptor@;
        let mut i: usize = 0;
        while i < tail.len()
            invariant
                i <= tail@.len(),
                descriptor@ == head + tail@.take(i as int),
            decreases tail@.len() - i,
        {
            descriptor.push(tail[i]);
            proof {
                assert(descriptor@ =~= head + tail@.take(i + 1));
            }
            i = i + 1;
        }
        proof {
            assert(tail@.take(i as int) =~= tail@);
            assert(image@ =~= mem.take(len as int));
            assert(head =~= input.take(4));
            assert(descriptor@.take(4) =~= input.take(4));
            assert(tail@ =~= input.skip(4).take(tail@.len() as int));
            assert(descriptor@.skip(4) =~= tail@);
            crate::serde::lemma_be_bytes_of_value(input.take(4));
            crate::serde::lemma_pow256_8();
            lemma_decode_runs_window(input.skip(4), count as nat, tail@.len() as int);
        }
        let _ = self.root_cluster.deserialize(descriptor.as_slice())?;
        let _ = self.bitmap.deserialize(image.as_slice())?;
        Ok(())
    }

    /// Writes the bitmap and the root cluster at the start of the store: the
    /// bytes of the bitmap, then the encoding of the root cluster. A root
    /// cluster without an encoding is refused as `InvalidInput` before
    /// anything is written.
    pub fn persist(&mut self) -> (r: Result<(), Error>)
        ensures
            final(self).bitmap == old(self).bitmap,
            old(self).preamble_reserved() ==> final(self).preamble_reserved(),
            final(self).root_cluster == old(self).root_cluster,
            !blocks_encodable(old(self).root_cluster@) ==> r == Err::<(), Error>(
                Error::InvalidInput,
            ) && *final(self) == *old(self),
            r is Ok ==> {
                &&& blocks_encodable(old(self).root_cluster@)
                &&& final(self).memory.bytes().len() >= old(self).image().len()
                &&& final(self).memory.bytes() == overwrite(
                    grown(
                        old(self).memory.bytes(),
                        old(self).image().len() as int,
                        M::PAGE_SIZE as int,
                    ),
                    0,
                    old(self).image(),
                )
            },
            final(self).memory.steady() == old(self).memory.steady(),
            old(self).memory.steady() ==> (r is Ok <==> blocks_encodable(old(self).root_cluster@)
                && old(self).image().len() <= usize::MAX && can_hold(
                old(self).memory.bytes().len() as int,
                old(self).image().len() as int,
                M::PAGE_SIZE as int,
                M::MAX_PAGES as int,
            )),
            old(self).memory.steady() ==> (r matches Err(e) ==> e == if blocks_encodable(
                old(self).root_cluster@,
            ) {
                Error::OutOfMemory
            } else {
                Error::InvalidInput
            }),
    {
        let mut image: Vec<u8> = Vec::new();
        let _ = self.serialize(&mut image)?;
        proof {
            assert(image@ =~= self.image());
            crate::serde::lemma_be_bytes_len(crate::cluster::runs(self.root_cluster@).len(), 4);
        }
        let mut writer = self.memory.writer();
        writer.write_all(image.as_slice())
    }

    /// Sets up the file system in its store: marks the blocks of the preamble
    /// as taken and writes an empty directory through the root cluster,
    /// which takes a block for it where it has none. Where the bitmap has
    /// fewer bits than the preamble has blocks, the call fails with
    /// `OutOfMemory` and changes nothing.
    pub fn init(&mut self) -> (r: Result<(), Error>)
        ensures
            Self::preamble() > old(self).bitmap@.len() ==> r == Err::<(), Error>(
                Error::OutOfMemory,
            ) && *final(self) == *old(self),
            Self::preamble() <= old(self).bitmap@.len() ==> final(self).preamble_reserved(),
            r is Ok ==> {
                let start = Stream {
                    disk: Disk {
                        bits: with_first_set(old(self).bitmap@, Self::preamble()),
                        mem: old(self).memory.bytes(),
                    },
                    blocks: old(self).root_cluster@,
                    offset: 0,
                };
                &&& can_write(start, 8)
                &&& final(self).root_stream(8) == all_written(
                    start,
                    be_bytes(0, 8),
                    M::PAGE_SIZE as int,
                )
            },
            final(self).memory.steady() == old(self).memory.steady(),
            old(self).memory.steady() ==> (r is Ok <==> Self::preamble() <= old(self).bitmap@.len()
                && all_fit(
                Stream {
                    disk: Disk {
                        bits: with_first_set(old(self).bitmap@, Self::preamble()),
                        mem: old(self).memory.bytes(),
                    },
                    blocks: old(self).root_cluster@,
                    offset: 0,
                },
                be_bytes(0, 8),
                M::PAGE_SIZE as int,
                M::MAX_PAGES as int,
            )),
            old(self).memory.steady() ==> (r matches Err(e) ==> e == Error::OutOfMemory),
    {
        let count = Self::preamble_blocks();
        if count / 8 > self.bitmap.len() || (count / 8 == self.bitmap.len() && count % 8 > 0) {
            return Err(Error::OutOfMemory);
        }
        let mut i: usize = 0;
        while i < count
            invariant
                i <= count,
                count == Self::preamble(),
                count <= self.bitmap@.len(),
                self.root_cluster == old(self).root_cluster,
                self.memory == old(self).memory,
                self.bitmap@ == with_first_set(old(self).bitmap@, i as int),
            decreases count - i,
        {
            self.bitmap.occupy(i);
            proof {
                assert(self.bitmap@ =~= with_first_set(old(self).bitmap@, i + 1));
            }
            i = i + 1;
        }
        let ghost reserved = self.bitmap@;
        let empty = Directory::default();
        proof {
            assert(empty.entries@ =~= Seq::<crate::directory::Entry>::empty()) by {
                assert(empty@.len() == 0);
            }
            assert(empty.encoding() =~= be_bytes(0, 8));
        }
        let r = self.write_root_directory(&empty);
        proof {
            crate::serde::lemma_be_bytes_len(0, 8);
            assert forall|i: int|
                0 <= i < Self::preamble() && i < self.bitmap@.len() implies self.bitmap@[i] by {
                assert(reserved[i]);
            }
        }
        r
    }

    /// Reads the root directory: the directory that the stream of the root
    /// cluster begins with. Bytes that do not decode are refused as
    /// `InvalidInput`.
    pub fn read_root_directory(&self) -> (r: Result<Directory, Error>)
        ensures
            r matches Ok(directory) ==> self.root_entries() == Some(directory@),
            self.root_entries() is None ==> r is Err,
            self.memory.steady() ==> (r matches Err(e) ==> e == Error::InvalidInput
                && self.root_entries() is None),
    {
        if self.root_cluster.blocks().len() > usize::MAX / Block::SIZE {
            return Err(Error::InvalidInput);
        }
        let mut reader = self.read_from_root_cluster();
        let mut bytes: Vec<u8> = Vec::new();
        let _ = reader.read_to_end(&mut bytes)?;
        proof {
            let mem = self.memory.bytes();
            let blocks = self.root_cluster@;
            assert(bytes@.skip(0) =~= bytes@);
            assert(ends_at(mem, blocks, bytes@.len() as int));
            lemma_stream_end(mem, blocks, bytes@.len() as int);
            assert(bytes@ =~= whole_stream(mem, blocks));
        }
        Directory::deserialize_into_default(bytes.as_slice())
    }

    /// Writes the encoding of `directory` at the start of the stream of the
    /// root cluster. A directory without an encoding is refused as
    /// `InvalidInput` before anything is written. A write that fails on the
    /// way leaves with the root cluster the blocks that it has taken by
    /// then, marked as taken.
    pub fn write_root_directory(&mut self, directory: &Directory) -> (r: Result<(), Error>)
        ensures
            extends(old(self).root_stream(0), final(self).root_stream(0)),
            old(self).preamble_reserved() ==> final(self).preamble_reserved(),
            !directory.encodable() ==> r == Err::<(), Error>(Error::InvalidInput) && *final(self)
                == *old(self),
            r is Ok ==> {
                &&& directory.encodable()
                &&& can_write(old(self).root_stream(0), directory.encoding().len() as int)
                &&& final(self).root_stream(directory.encoding().len() as int) == all_written(
                    old(self).root_stream(0),
                    directory.encoding(),
                    M::PAGE_SIZE as int,
                )
            },
            directory.encodable() && !can_write(
                old(self).root_stream(0),
                directory.encoding().len() as int,
            ) ==> r is Err,
            directory.encodable() ==> took_blocks(
                old(self).root_stream(0),
                directory.encoding().len() as int,
                final(self).bitmap@,
                final(self).root_cluster@,
            ),
            final(self).memory.bytes().len() >= old(self).memory.bytes().len(),
            final(self).memory.steady() == old(self).memory.steady(),
            old(self).memory.steady() ==> (r is Ok <==> directory.encodable() && all_fit(
                old(self).root_stream(0),
                directory.encoding(),
                M::PAGE_SIZE as int,
                M::MAX_PAGES as int,
            )),
            old(self).memory.steady() ==> (r matches Err(e) ==> e == if directory.encodable() {
                Error::OutOfMemory
            } else {
                Error::InvalidInput
            }),
    {
        let mut bytes: Vec<u8> = Vec::new();
        let _ = directory.serialize(&mut bytes)?;
        proof {
            assert(bytes@ =~= directory.encoding());
        }
        let mut writer = self.write_into_root_cluster();
        writer.write_all(bytes.as_slice())
    }

    /// Reads the root directory and hands it to `f`; what `f` returns is the
    /// result. On a steady store `f` is called exactly where the root
    /// directory decodes.
    pub fn with_root_directory<R, F: FnOnce(&Directory) -> Result<R, Error>>(&self, f: F) -> (r:
        Result<R, Error>)
        requires
            forall|d: &Directory| call_requires(f, (d,)),
        ensures
            r is Ok ==> exists|d: Directory|
                self.root_entries() == Some(d@) && #[trigger] call_ensures(f, (&d,), r),
            self.root_entries() is None ==> r is Err,
            self.memory.steady() && self.root_entries() is None ==> (r matches Err(e) && e
                == Error::InvalidInput),
            self.memory.steady() && self.root_entries() is Some ==> exists|d: Directory|
                self.root_entries() == Some(d@) && #[trigger] call_ensures(f, (&d,), r),
    {
        let dir = self.read_root_directory()?;
        f(&dir)
    }

    /// Walks from the root directory along `path` and hands the directory
    /// reached to `f`; what `f` returns is the result. A name that no entry
    /// has fails the walk with `NotFound`, a name that a file has with
    /// `InvalidInput`. On a steady store `f` is called exactly where the walk
    /// reaches a directory.
    pub fn with_directory<R, F: FnOnce(&Directory) -> Result<R, Error>>(
        &self,
        path: &[&str],
        f: F,
    ) -> (r: Result<R, Error>)
        requires
            forall|d: &Directory| call_requires(f, (d,)),
        ensures
            r is Ok ==> exists|d: Directory|
                self.root_entries() matches Some(root) && resolve(
                    self.memory.bytes(),
                    root,
                    names(path@),
                ) == Ok::<Seq<EntryView>, Error>(d@) && #[trigger] call_ensures(f, (&d,), r),
            self.root_entries() is None ==> r is Err,
            self.root_entries() matches Some(root) && resolve(
                self.memory.bytes(),
                root,
                names(path@),
            ) is Err ==> r is Err,
            self.memory.steady() ==> (self.directory_at(names(path@)) matches Err(e) ==> (r
                matches Err(x) && x == e)),
            self.memory.steady() && self.directory_at(names(path@)) is Ok ==> exists|d: Directory|
                self.directory_at(names(path@)) == Ok::<Seq<EntryView>, Error>(d@)
                    && #[trigger] call_ensures(f, (&d,), r),
    {
        let dir = self.open_directory(path)?;
        f(&dir)
    }

    /// What comes of a walk along `path` from the directory of the entries
    /// `dir`, read from a store of bytes `mem`, once `f` has run at its end:
    /// `f` returned `rf`, left the file system as `middle`, and the directory
    /// it was handed with the entries `leaf`. Where `f` failed, its error is
    /// the result and nothing is written back. Where it did not, the
    /// directories on the path are written back as `rewritten` says, and the
    /// result is that of `f`, or the error of the write that failed. On a
    /// store that is not steady only a success says what was written.
    pub open spec fn written_back<R>(
        mem: Seq<u8>,
        dir: Seq<EntryView>,
        path: Seq<Seq<char>>,
        middle: Self,
        leaf: Seq<EntryView>,
        rf: Result<R, Error>,
        after: Self,
        dir_after: Seq<EntryView>,
        r: Result<R, Error>,
    ) -> bool {
        match rf {
            Err(_) => r == rf && after == middle && dir_after == if path.len() == 0 {
                leaf
            } else {
                dir
            },
            Ok(_) => {
                &&& after.root_cluster == middle.root_cluster
                &&& after.memory.steady() == middle.memory.steady()
                &&& r is Ok ==> r == rf && rewritten(
                    mem,
                    middle.disk(),
                    dir,
                    path,
                    leaf,
                    M::PAGE_SIZE as int,
                    None,
                ) == Ok::<(Disk, Seq<EntryView>), Error>((after.disk(), dir_after))
                &&& middle.memory.steady() ==> match rewritten(
                    mem,
                    middle.disk(),
                    dir,
                    path,
                    leaf,
                    M::PAGE_SIZE as int,
                    Some(M::MAX_PAGES as int),
                ) {
                    Ok(end) => r == rf && end == (after.disk(), dir_after),
                    Err(e) => r matches Err(x) && x == e,
                }
            },
        }
    }

    /// Walks from the directory `dir` along `path`, hands the directory
    /// reached and the file system to `f`, and then writes back each
    /// directory on the path as the bytes of its entry, the deepest first.
    /// Where the walk fails, `f` is not called and nothing changes. Where
    /// `f` fails, nothing is written back. On a steady store `f` is called
    /// exactly where the walk reaches a directory, and what comes of the
    /// call is what `written_back` says.
    pub fn with_directory_mut_rec<R, F: FnOnce(&mut Directory, &mut Self) -> Result<R, Error>>(
        &mut self,
        dir: &mut Directory,
        path: &[&str],
        f: F,
    ) -> (r: Result<R, Error>)
        requires
            forall|d: &mut Directory, s: &mut Self| call_requires(f, (d, s)),
        ensures
            r is Ok || (old(self).memory.steady() && resolve(
                old(self).memory.bytes(),
                old(dir)@,
                names(path@),
            ) is Ok) ==> exists|d: &mut Directory, s: &mut Self, rf: Result<R, Error>|
                {
                    &&& resolve(old(self).memory.bytes(), old(dir)@, names(path@)) == Ok::<
                        Seq<EntryView>,
                        Error,
                    >(d@)
                    &&& *s == *old(self)
                    &&& #[trigger] call_ensures(f, (d, s), rf)
                    &&& Self::written_back(
                        old(self).memory.bytes(),
                        old(dir)@,
                        names(path@),
                        *final(s),
                        final(d)@,
                        rf,
                        *final(self),
                        final(dir)@,
                        r,
                    )
                },
            resolve(old(self).memory.bytes(), old(dir)@, names(path@)) is Err ==> r is Err
                && *final(self) == *old(self) && *final(dir) == *old(dir),
            old(self).memory.steady() ==> (resolve(
                old(self).memory.bytes(),
                old(dir)@,
                names(path@),
            ) matches Err(e) ==> (r matches Err(x) && x == e)),
        decreases path@.len(),
    {
        if path.len() == 0 {
            return f(dir, self);
        }
        let segment = path[0];
        let rest = vstd::slice::slice_subrange(path, 1, path.len());
        let ghost mem = self.memory.bytes();
        proof {
            assert(names(rest@) =~= names(path@).drop_first());
            assert(names(path@)[0] == segment@);
            lemma_directory_encoding(dir);
        }
        match dir.position(segment) {
            None => Err(Error::NotFound),
            Some(i) => {
                let mut sub = dir.enter(self, segment)?;
                let x = self.with_directory_mut_rec(&mut sub, rest, f)?;
                let ghost before = dir.entries@;
                dir.entries[i].keep(self, &sub)?;
                proof {
                    assert(views_of(dir.entries@) =~= views_of(before).update(
                        i as int,
                        dir.entries@[i as int]@,
                    ));
                    lemma_directory_encoding(dir);
                }
                Ok(x)
            },
        }
    }

    /// What writing the directory of the entries `entries` at the start of
    /// the stream of the root cluster makes of the file system `before`.
    pub open spec fn root_written(before: Self, entries: Seq<EntryView>, after: Self) -> bool {
        &&& directory_encodable(entries)
        &&& can_write(before.root_stream(0), directory_encoding(entries).len() as int)
        &&& after.root_stream(directory_encoding(entries).len() as int) == all_written(
            before.root_stream(0),
            directory_encoding(entries),
            M::PAGE_SIZE as int,
        )
    }

    /// What comes of writing the root directory back once a walk has left
    /// the file system as `middle`, the root directory with the entries
    /// `root`, and the result `rr`. Where the write goes through, the result
    /// is `rr`; where it does not, it is the error of the write. On a steady
    /// store the write goes through exactly where the directory has an
    /// encoding and the encoding fits; on another store only a success says
    /// what was written.
    pub open spec fn root_back<R>(
        middle: Self,
        root: Seq<EntryView>,
        rr: Result<R, Error>,
        after: Self,
        r: Result<R, Error>,
    ) -> bool {
        &&& after.memory.steady() == middle.memory.steady()
        &&& r is Ok ==> r == rr && Self::root_written(middle, root, after)
        &&& middle.memory.steady() ==> if directory_encodable(root) && all_fit(
            middle.root_stream(0),
            directory_encoding(root),
            M::PAGE_SIZE as int,
            M::MAX_PAGES as int,
        ) {
            r == rr && Self::root_written(middle, root, after)
        } else {
            r matches Err(e) && e == if directory_encodable(root) {
                Error::OutOfMemory
            } else {
                Error::InvalidInput
            }
        }
    }

    /// What is written at the start of the store is read back from it: once
    /// the bytes of a bitmap and the encoding of the blocks `root` have been
    /// written over the start of the bytes `mem`, the bytes begin with those
    /// of the bitmap, and the blocks read behind them are `root`, in the same
    /// order.
    pub proof fn lemma_image_read_back(bitmap: Seq<u8>, root: Seq<Block>, mem: Seq<u8>)
        requires
            blocks_encodable(root),
            mem.len() >= bitmap.len() + blocks_encoding(root).len(),
        ensures
            overwrite(mem, 0, bitmap + blocks_encoding(root)).take(bitmap.len() as int) == bitmap,
            crate::cluster::Cluster::decode(
                Seq::empty(),
                overwrite(mem, 0, bitmap + blocks_encoding(root)).skip(bitmap.len() as int),
            ) == Some((root, blocks_encoding(root).len())),
    {
        let image = bitmap + blocks_encoding(root);
        let after = overwrite(mem, 0, image);
        let rest = after.skip(image.len() as int);
        assert(after.take(bitmap.len() as int) =~= bitmap);
        assert(after.skip(bitmap.len() as int) =~= blocks_encoding(root) + rest);
        lemma_cluster_round_trip(root, Seq::empty(), rest);
        assert(Seq::<Block>::empty() + root =~= root);
    }

    /// A root directory that is written is read back: once a directory of
    /// the entries `entries` has been written through a root cluster of
    /// distinct blocks, each marked as taken, the root directory of the file
    /// system that comes of it has those entries.
    pub proof fn lemma_root_read_back(before: Self, entries: Seq<EntryView>, after: Self)
        requires
            Self::root_written(before, entries, after),
            M::PAGE_SIZE > 0,
            before.bitmap@.len() <= usize::MAX,
            after.root_cluster.extent() <= usize::MAX,
            covered(before.bitmap@, before.root_cluster@),
            distinct(before.root_cluster@),
        ensures
            after.root_entries() == Some(entries),
    {
        let data = directory_encoding(entries);
        let written = all_written(before.root_stream(0), data, M::PAGE_SIZE as int);
        assert(after.root_stream(data.len() as int) == written);
        assert(after.memory.bytes() == written.disk.mem);
        assert(after.root_cluster@ == written.blocks);
        lemma_directory_read_back(before.root_stream(0), entries, M::PAGE_SIZE as int);
    }

    /// A directory one step below the root that has been written back is
    /// found again. Where the root directory `start` has a directory of the
    /// name `name`, `leaf` has been written back as the bytes of its entry,
    /// which left the file system `middle` and the root directory `root`,
    /// and `root` has then been written through the root cluster, which
    /// left the file system `after`, a walk from the root of `after` along
    /// `name` leads to a directory of the entries of `leaf`. The root
    /// cluster and the cluster of the entry must each have distinct blocks,
    /// marked as taken, and share none; an entry that was larger than the
    /// encoding of `leaf` must have held its bytes.
    pub proof fn lemma_kept_found(
        mem: Seq<u8>,
        before: Self,
        start: Seq<EntryView>,
        name: Seq<char>,
        leaf: Seq<EntryView>,
        middle: Self,
        root: Seq<EntryView>,
        after: Self,
    )
        requires
            M::PAGE_SIZE > 0,
            before.bitmap@.len() <= usize::MAX,
            rewritten(mem, before.disk(), start, seq![name], leaf, M::PAGE_SIZE as int, None)
                == Ok::<(Disk, Seq<EntryView>), Error>((middle.disk(), root)),
            middle.root_cluster == before.root_cluster,
            Self::root_written(middle, root, after),
            after.root_cluster.extent() <= usize::MAX,
            covered(before.bitmap@, before.root_cluster@),
            distinct(before.root_cluster@),
            position_of(start, name) matches Some(i) && {
                &&& covered(before.bitmap@, start[i].blocks)
                &&& distinct(start[i].blocks)
                &&& apart(before.root_cluster@, start[i].blocks)
                &&& start[i].size <= directory_encoding(leaf).len() || stream_holds(
                    before.memory.bytes(),
                    start[i].blocks,
                    0,
                    start[i].size as int,
                )
                &&& 512 * root[i].blocks.len() <= usize::MAX
            },
        ensures
            after.directory_at(seq![name]) == Ok::<Seq<EntryView>, Error>(leaf),
    {
        let page = M::PAGE_SIZE as int;
        let path = seq![name];
        assert(path[0] == name && path.drop_first() =~= Seq::<Seq<char>>::empty());
        reveal_with_fuel(rewritten, 2);
        reveal_with_fuel(resolve, 2);
        lemma_position_of(start, name);
        let i = position_of(start, name).unwrap();
        let entry = start[i];
        let (written, kept_entry) = kept(before.disk(), entry, leaf, page, None)->Ok_0;
        assert(written == middle.disk() && root == start.update(i, kept_entry));
        assert(root[i] == kept_entry);
        let data = directory_encoding(leaf);
        let below = Stream { disk: before.disk(), blocks: entry.blocks, offset: 0 };
        lemma_kept_read_back(before.disk(), entry, leaf, page);
        lemma_all_written_covered(below, data, page);
        lemma_all_written_apart(below, data, page, before.root_cluster@, 0);
        assert(apart(middle.root_cluster@, kept_entry.blocks)) by {
            assert forall|a: int, b: int|
                0 <= a < middle.root_cluster@.len() && 0 <= b < kept_entry.blocks.len() implies (
            #[trigger] middle.root_cluster@[a]).index != (#[trigger] kept_entry.blocks[b]).index by {
                assert(kept_entry.blocks[b].index != before.root_cluster@[a].index);
            }
        }
        crate::cluster::lemma_all_written_keeps(below, data, page);
        assert(covered(middle.bitmap@, middle.root_cluster@)) by {
            assert forall|a: int| 0 <= a < middle.root_cluster@.len() implies (
            #[trigger] middle.root_cluster@[a]).index < middle.bitmap@.len()
                && middle.bitmap@[middle.root_cluster@[a].index as int] by {
                assert(before.bitmap@[before.root_cluster@[a].index as int]);
            }
        }
        let above = middle.root_stream(0);
        let all = directory_encoding(root);
        lemma_all_written_apart(above, all, page, kept_entry.blocks, kept_entry.size as int);
        Self::lemma_root_read_back(middle, root, after);
        lemma_position_of_update(start, i, kept_entry, name);
        assert(entries_of(after.memory.bytes(), kept_entry) == Some(leaf));
    }

    /// Writing the root directory frees no block.
    pub proof fn lemma_root_written_keeps(before: Self, entries: Seq<EntryView>, after: Self)
        requires
            Self::root_written(before, entries, after),
        ensures
            crate::cluster::keeps(before.bitmap@, after.bitmap@),
    {
        crate::cluster::lemma_all_written_keeps(
            before.root_stream(0),
            directory_encoding(entries),
            M::PAGE_SIZE as int,
        );
    }

    /// Blocks of the preamble that are marked as taken stay so while no
    /// block is freed.
    pub proof fn lemma_preamble_kept(before: Self, after: Self)
        requires
            crate::cluster::keeps(before.bitmap@, after.bitmap@),
            before.preamble_reserved(),
        ensures
            after.preamble_reserved(),
    {
        assert forall|i: int|
            0 <= i < Self::preamble() && i < after.bitmap@.len() implies after.bitmap@[i] by {
            assert(before.bitmap@[i]);
        }
    }

    /// Reads the root directory, hands it and the file system to `f`, and
    /// writes the directory back through the root cluster, whether `f` fails
    /// or not. The result is that of `f` where the directory is written
    /// back, and the error of the write where it is not. On a steady store
    /// `f` is called exactly where the root directory decodes, and what
    /// comes of the call is what `root_back` says.
    pub fn with_root_directory_mut<R, F: FnOnce(&mut Directory, &mut Self) -> Result<R, Error>>(
        &mut self,
        f: F,
    ) -> (r: Result<R, Error>)
        requires
            forall|d: &mut Directory, s: &mut Self| call_requires(f, (d, s)),
        ensures
            r is Ok || (old(self).memory.steady() && old(self).root_entries() is Some)
                ==> exists|d: &mut Directory, s: &mut Self, rf: Result<R, Error>|
                {
                    &&& old(self).root_entries() == Some(d@)
                    &&& *s == *old(self)
                    &&& #[trigger] call_ensures(f, (d, s), rf)
                    &&& Self::root_back(*final(s), final(d)@, rf, *final(self), r)
                },
            old(self).root_entries() is None ==> r is Err && *final(self) == *old(self),
            old(self).memory.steady() && old(self).root_entries() is None ==> (r matches Err(e)
                && e == Error::InvalidInput),
    {
        let mut dir = self.read_root_directory()?;
        let r = f(&mut dir, self);
        proof {
            lemma_directory_encoding(&dir);
        }
        self.write_root_directory(&dir)?;
        r
    }

    /// Walks from the root directory along `path`, hands the directory
    /// reached and the file system to `f`, and then writes back each
    /// directory on the path as the bytes of its entry, the deepest first,
    /// and at last the root directory through the root cluster. The root
    /// directory is written back also where the walk or `f` fails. The
    /// result is that of the walk and of `f` where the root directory is
    /// written back, and the error of that write where it is not. On a steady
    /// store the walk fails as `resolve` says, `f` is called exactly where
    /// the walk reaches a directory, and what comes of the call is what
    /// `written_back` and `root_back` say.
    pub fn with_directory_mut<R, F: FnOnce(&mut Directory, &mut Self) -> Result<R, Error>>(
        &mut self,
        path: &[&str],
        f: F,
    ) -> (r: Result<R, Error>)
        requires
            forall|d: &mut Directory, s: &mut Self| call_requires(f, (d, s)),
        ensures
            old(self).root_entries() matches Some(start) ==> (r is Ok || old(self).memory.steady())
                ==> match resolve(old(self).memory.bytes(), start, names(path@)) {
                Err(e) => Self::root_back(
                    *old(self),
                    start,
                    Err::<R, Error>(e),
                    *final(self),
                    r,
                ),
                Ok(found) => exists|
                    d: &mut Directory,
                    s: &mut Self,
                    rf: Result<R, Error>,
                    middle: Self,
                    root: Seq<EntryView>,
                    rr: Result<R, Error>,
                |
                    {
                        &&& d@ == found
                        &&& *s == *old(self)
                        &&& #[trigger] call_ensures(f, (d, s), rf)
                        &&& Self::written_back(
                            old(self).memory.bytes(),
                            start,
                            names(path@),
                            *final(s),
                            final(d)@,
                            rf,
                            middle,
                            root,
                            rr,
                        )
                        &&& #[trigger] Self::root_back(middle, root, rr, *final(self), r)
                    },
            },
            old(self).root_entries() is None ==> r is Err && *final(self) == *old(self),
            old(self).memory.steady() && old(self).root_entries() is None ==> (r matches Err(e)
                && e == Error::InvalidInput),
            old(self).root_entries() matches Some(start) && resolve(
                old(self).memory.bytes(),
                start,
                names(path@),
            ) is Err ==> r is Err,
    {
        let mut root = self.read_root_directory()?;
        let walked = self.with_directory_mut_rec(&mut root, path, f);
        let ghost middle = *self;
        proof {
            lemma_directory_encoding(&root);
        }
        let written = self.write_root_directory(&root);
        let r = match written {
            Ok(()) => walked,
            Err(e) => Err(e),
        };
        proof {
            assert(Self::root_back(middle, root@, walked, *self, r));
        }
        r
    }

    /// Whether making the directories of `path` below the root directory of
    /// the file system `before` goes through on a steady store: the root
    /// directory decodes, the directories are made, and the root directory
    /// that comes of it can be written back.
    pub open spec fn makes(before: Self, path: Seq<Seq<char>>) -> bool {
        match before.root_entries() {
            None => false,
            Some(start) => match made(
                before.disk(),
                start,
                path,
                M::PAGE_SIZE as int,
                Some(M::MAX_PAGES as int),
            ) {
                Err(_) => false,
                Ok((disk, root)) => directory_encodable(root) && all_fit(
                    Stream { disk, blocks: before.root_cluster@, offset: 0 },
                    directory_encoding(root),
                    M::PAGE_SIZE as int,
                    M::MAX_PAGES as int,
                ),
            },
        }
    }

    /// Whether making the directories of `path` below a directory of the
    /// entries `start` has left of the file system `before` the file system
    /// `middle`, of the directory the entries `root`, and has returned `rd`,
    /// as `Directory::make_directory_recursive` does: on a steady store the
    /// outcome is what `made` says; a walk that is stopped changes nothing;
    /// and whatever fails, no block is freed and every entry but the one of
    /// the first name is as it was.
    pub open spec fn made_as(
        before: Self,
        start: Seq<EntryView>,
        path: Seq<Seq<char>>,
        middle: Self,
        root: Seq<EntryView>,
        rd: Result<(), Error>,
    ) -> bool {
        &&& middle.root_cluster == before.root_cluster
        &&& middle.memory.steady() == before.memory.steady()
        &&& middle.memory.bytes().len() >= before.memory.bytes().len()
        &&& keeps(before.bitmap@, middle.bitmap@)
        &&& blocked(before.memory.bytes(), start, path) ==> rd is Err && middle == before && root
            == start
        &&& path.len() == 0 ==> middle == before && root == start
        &&& path.len() > 0 ==> touched(start, root, path[0], EntryKind::Directory)
        &&& rd is Ok ==> made(before.disk(), start, path, M::PAGE_SIZE as int, None) == Ok::<
            (Disk, Seq<EntryView>),
            Error,
        >((middle.disk(), root))
        &&& before.memory.steady() ==> match made(
            before.disk(),
            start,
            path,
            M::PAGE_SIZE as int,
            Some(M::MAX_PAGES as int),
        ) {
            Ok(end) => rd is Ok && end == (middle.disk(), root),
            Err(e) => rd == Err::<(), Error>(e),
        }
    }

    /// Whether making the directories of `path` below the root directory of
    /// the file system `before` has left the file system `after` and has
    /// returned `r`. A root directory that does not decode is `InvalidInput`,
    /// and nothing changes. Else the directories are made as `made_as` says,
    /// and the root directory that comes of it is written back as
    /// `root_back` says, also where making them failed: the result is then
    /// the error of making them, or the error of writing the root directory
    /// where that fails too. So a file in the way gives `InvalidInput` once
    /// the root directory, unchanged, has been written back.
    pub open spec fn make_outcome(before: Self, path: Seq<Seq<char>>, after: Self, r: Result<
        (),
        Error,
    >) -> bool {
        match before.root_entries() {
            None => r == Err::<(), Error>(Error::InvalidInput) && after == before,
            Some(start) => {
                &&& blocked(before.memory.bytes(), start, path) ==> Self::root_back(
                    before,
                    start,
                    Err::<(), Error>(Error::InvalidInput),
                    after,
                    r,
                )
                &&& exists|middle: Self, root: Seq<EntryView>, rd: Result<(), Error>|
                    Self::made_as(before, start, path, middle, root, rd)
                        && #[trigger] Self::root_back(middle, root, rd, after, r)
            },
        }
    }

    /// Makes the directories of `path` below the root directory, as `made`
    /// says, and writes the root directory back through the root cluster,
    /// whether making them failed or not. On a steady store the outcome is
    /// what `make_outcome` says.
    pub fn make_directory_recursive(&mut self, path: &[&str]) -> (r: Result<(), Error>)
        ensures
            old(self).preamble_reserved() ==> final(self).preamble_reserved(),
            r is Ok ==> exists|middle: Self, root: Seq<EntryView>|
                {
                    &&& old(self).root_entries() matches Some(start) && made(
                        old(self).disk(),
                        start,
                        names(path@),
                        M::PAGE_SIZE as int,
                        None,
                    ) == Ok::<(Disk, Seq<EntryView>), Error>((middle.disk(), root))
                    &&& middle.root_cluster == old(self).root_cluster
                    &&& #[trigger] Self::root_written(middle, root, *final(self))
                },
            old(self).root_entries() is None ==> r is Err && *final(self) == *old(self),
            old(self).root_entries() matches Some(start) && made(
                old(self).disk(),
                start,
                names(path@),
                M::PAGE_SIZE as int,
                None,
            ) is Err ==> r is Err,
            final(self).memory.steady() == old(self).memory.steady(),
            old(self).memory.steady() ==> (r is Ok <==> Self::makes(*old(self), names(path@))),
            old(self).memory.steady() ==> Self::make_outcome(
                *old(self),
                names(path@),
                *final(self),
                r,
            ),
    {
        let mut root = self.read_root_directory()?;
        let ghost start = root@;
        let made = root.make_directory_recursive(self, path);
        let ghost middle = *self;
        proof {
            lemma_directory_encoding(&root);
        }
        let r = match self.write_root_directory(&root) {
            Ok(()) => made,
            Err(e) => Err(e),
        };
        proof {
            if r is Ok {
                assert(Self::root_written(middle, root@, *self));
            }
            if blocked(old(self).memory.bytes(), start, names(path@)) {
                lemma_blocked_made(
                    old(self).disk(),
                    start,
                    names(path@),
                    M::PAGE_SIZE as int,
                    Some(M::MAX_PAGES as int),
                );
            }
            assert(Self::made_as(*old(self), start, names(path@), middle, root@, made));
            assert(Self::root_back(middle, root@, made, *self, r));
        }
        r
    }

    /// The bytes of the picture of the tree: a slash for the root, then the
    /// lines of the root's entries and of all that lies below them.
    pub open spec fn tree_bytes(&self) -> Option<Seq<u8>> {
        match self.root_entries() {
            None => None,
            Some(root) => lines_joined(
                seq![47u8],
                lines_bytes(self.memory.bytes(), root, 0, self.bitmap@.len()),
            ),
        }
    }

    /// A picture of the tree of directories and files, one line for each
    /// entry. Directories that lie in one another deeper than the bitmap has
    /// bits are refused as `InvalidInput`, and so is a directory that does
    /// not decode.
    pub fn tree(&self) -> (r: Result<String, Error>)
        ensures
            r matches Ok(text) ==> self.tree_bytes() matches Some(bytes) && text@
                == crate::serde::text_of(bytes),
            self.tree_bytes() is None ==> r is Err,
            self.memory.steady() ==> (r matches Err(e) ==> e == Error::InvalidInput
                && self.tree_bytes() is None),
    {
        let root = self.read_root_directory()?;
        let mut out: Vec<u8> = Vec::new();
        out.push(47u8);
        let fuel = self.bitmap.len() * 8;
        self.tree_lines(&root, 0, fuel, &mut out)?;
        proof {
            assert(out@ =~= seq![47u8] + out@.skip(1));
        }
        Ok(crate::serde::utf8_lossy(out.as_slice()))
    }

    /// Adds at the end of `out` the lines that show the entries of `dir` and
    /// all that lies below them.
    pub fn tree_lines(&self, dir: &Directory, depth: usize, fuel: usize, out: &mut Vec<u8>) -> (r:
        Result<(), Error>)
        requires
            depth + fuel <= usize::MAX,
        ensures
            final(out)@.len() >= old(out)@.len(),
            final(out)@.take(old(out)@.len() as int) == old(out)@,
            r is Ok ==> lines_bytes(self.memory.bytes(), dir@, depth as nat, fuel as nat) == Some(
                final(out)@.skip(old(out)@.len() as int),
            ),
            lines_bytes(self.memory.bytes(), dir@, depth as nat, fuel as nat) is None ==> r is Err,
            self.memory.steady() ==> (r matches Err(e) ==> e == Error::InvalidInput
                && lines_bytes(self.memory.bytes(), dir@, depth as nat, fuel as nat) is None),
        decreases fuel, 0nat,
    {
        let ghost mem = self.memory.bytes();
        let ghost start = out@.len() as int;
        let ghost whole = lines_bytes(mem, dir@, depth as nat, fuel as nat);
        let mut i: usize = 0;
        proof {
            assert(dir@.skip(0) =~= dir@);
            assert(out@.skip(start) =~= Seq::<u8>::empty());
            lemma_directory_encoding(dir);
            lemma_lines_joined(Seq::empty(), Seq::empty(), whole);
        }
        while i < dir.entries.len()
            invariant
                i <= dir.entries@.len(),
                dir@ == views_of(dir.entries@),
                depth + fuel <= usize::MAX,
                mem == self.memory.bytes(),
                start == old(out)@.len(),
                out@.len() >= start,
                out@.take(start) == old(out)@,
                whole == lines_bytes(mem, dir@, depth as nat, fuel as nat),
                whole == lines_joined(
                    out@.skip(start),
                    lines_bytes(mem, dir@.skip(i as int), depth as nat, fuel as nat),
                ),
            decreases dir.entries@.len() - i,
        {
            let entry = &dir.entries[i];
            let ghost sofar = out@;
            let ghost rest = dir@.skip(i as int);
            let ghost tail = lines_bytes(mem, dir@.skip(i + 1), depth as nat, fuel as nat);
            proof {
                assert(rest.drop_first() =~= dir@.skip(i + 1));
                assert(rest[0] == entry@);
            }
            push_line(entry, depth, out);
            let ghost lined = out@;
            match entry.kind {
                EntryKind::File => {},
                EntryKind::Directory => {
                    if fuel == 0 {
                        return Err(Error::InvalidInput);
                    }
                    let mut reader = entry.read_from_file_system(self);
                    let sub = reader.read_directory()?;
                    proof {
                        assert(crate::directory::left(entry.size as int, 0) == entry.size);
                        assert(entries_of(mem, entry@) == Some(sub@));
                    }
                    self.tree_lines(&sub, depth + 1, fuel - 1, out)?;
                },
            }
            proof {
                let inner = out@.skip(lined.len() as int);
                let line = line_bytes(entry@, depth as nat);
                assert(out@ =~= lined + inner);
                assert(out@.take(start) =~= sofar.take(start));
                assert(out@.skip(start) =~= sofar.skip(start) + (line + inner));
                assert(lines_bytes(mem, rest, depth as nat, fuel as nat) == lines_joined(
                    line + inner,
                    tail,
                ));
                lemma_lines_joined(sofar.skip(start), line + inner, tail);
            }
            i = i + 1;
        }
        proof {
            assert(out@.skip(start) + Seq::<u8>::empty() =~= out@.skip(start));
        }
        Ok(())
    }
}

/// Lines joined in two steps are lines joined in one.
pub proof fn lemma_lines_joined(a: Seq<u8>, b: Seq<u8>, tail: Option<Seq<u8>>)
    ensures
        lines_joined(a, lines_joined(b, tail)) == lines_joined(a + b, tail),
{
    if let Some(rest) = tail {
        assert(a + (b + rest) =~= (a + b) + rest);
    }
}

/// Adds at the end of `out` the line that shows `entry`, `depth` directories
/// below the root.
pub fn push_line(entry: &crate::directory::Entry, depth: usize, out: &mut Vec<u8>)
    ensures
        final(out)@ == old(out)@ + line_bytes(entry@, depth as nat),
{
    let ghost sofar = out@;
    out.push(10u8);
    let mut k: usize = 0;
    while k < depth
        invariant
            k <= depth,
            out@ == sofar + seq![10u8] + Seq::new(4 * (k as nat), |i: int| 32u8),
        decreases depth - k,
    {
        out.push(32u8);
        out.push(32u8);
        out.push(32u8);
        out.push(32u8);
        proof {
            assert(out@ =~= sofar + seq![10u8] + Seq::new(4 * ((k + 1) as nat), |i: int| 32u8));
        }
        k = k + 1;
    }
    out.push(124u8);
    out.push(32u8);
    let name = entry.name.as_str().as_bytes();
    let mut j: usize = 0;
    let ghost named = out@;
    while j < name.len()
        invariant
            j <= name@.len(),
            out@ == named + name@.take(j as int),
        decreases name@.len() - j,
    {
        out.push(name[j]);
        proof {
            assert(out@ =~= named + name@.take(j + 1));
        }
        j = j + 1;
    }
    proof {
        assert(name@.take(j as int) =~= name@);
    }
    match entry.kind {
        EntryKind::File => {},
        EntryKind::Directory => {
            out.push(47u8);
        },
    }
    proof {
        assert(out@ =~= sofar + line_bytes(entry@, depth as nat));
    }
}

} // verus!
