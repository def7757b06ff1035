//! Directories and their entries: how they are written as bytes, how an
//! entry's bytes are read and written, and how directories are found, made
//! and changed along a path.

use vstd::prelude::*;
use crate::block::Block;
use crate::cluster::{
    all_fit, all_written, allotted, blocks_encodable, blocks_encoding, blocks_of, can_write,
    chunk_fits, chunk_len, chunk_written, covered, distinct, extends, keeps, lacking,
    lacking_for, lemma_all_written_covered, lemma_all_written_distinct,
    lemma_all_written_begins, lemma_all_written_keeps, lemma_all_written_read_back,
    lemma_cluster_round_trip, lemma_keeps_trans, lemma_laid_read_back, place, stream_bytes,
    stream_end, stream_filled, stream_has, stream_holds, stream_range, took_blocks,
    whole_stream, Cluster, ClusterReader, ClusterWriter, Disk, Stream,
};
use crate::error::Error;
use crate::file_system::FileSystem;
use crate::bitmap::{after_allocations, allocations, free_count, lemma_allocations_ascend};
use crate::memory::{Memory, MemoryReader, MemoryWriter, SeekFrom};
use crate::serde::{
    be_bytes, lemma_be_bytes_len, lemma_be_round_trip, lemma_pow256_8, lemma_text_round_trip,
    text_encodable, text_encoding, Blank, Deserialize, RoundTrip, Serialize,
};

verus! {

/// What an entry of a directory names.
#[derive(Clone, Copy, Debug, PartialEq, Eq)]
pub enum EntryKind {
    File,
    Directory,
}

impl View for EntryKind {
    type V = EntryKind;

    open spec fn view(&self) -> EntryKind {
        *self
    }
}

impl DeepView for EntryKind {
    type V = EntryKind;

    open spec fn deep_view(&self) -> EntryKind {
        *self
    }
}

impl Default for EntryKind {
    fn default() -> (kind: Self)
        ensures
            kind == EntryKind::File,
    {
        EntryKind::File
    }
}

/// The byte a kind is written as.
pub open spec fn kind_code(kind: EntryKind) -> u8 {
    match kind {
        EntryKind::File => 1,
        EntryKind::Directory => 2,
    }
}

impl Serialize for EntryKind {
    open spec fn encodable(&self) -> bool {
        true
    }

    /// One byte: 1 for a file, 2 for a directory.
    open spec fn encoding(&self) -> Seq<u8> {
        seq![kind_code(*self)]
    }

    fn serialize(&self, w: &mut Vec<u8>) -> (r: Result<usize, Error>) {
        match self {
            EntryKind::File => w.push(1u8),
            EntryKind::Directory => w.push(2u8),
        }
        proof {
            assert(w@ =~= old(w)@ + self.encoding());
        }
        Ok(1)
    }
}

impl Deserialize for EntryKind {
    /// One byte: 1 for a file, 2 for a directory. No other byte decodes.
    open spec fn decode(before: EntryKind, input: Seq<u8>) -> Option<(EntryKind, nat)> {
        if input.len() >= 1 && input[0] == 1 {
            Some((EntryKind::File, 1))
        } else if input.len() >= 1 && input[0] == 2 {
            Some((EntryKind::Directory, 1))
        } else {
            None
        }
    }

    fn deserialize(&mut self, r: &[u8]) -> (res: Result<usize, Error>) {
        if r.len() < 1 {
            return Err(Error::InvalidInput);
        }
        let code = r[0];
        if code == 1 {
            *self = EntryKind::File;
        } else if code == 2 {
            *self = EntryKind::Directory;
        } else {
            return Err(Error::InvalidInput);
        }
        Ok(1)
    }
}

impl Blank for EntryKind {
    open spec fn blank() -> EntryKind {
        EntryKind::File
    }

    proof fn default_is_blank(d: Self) {
        assert(call_ensures(EntryKind::default, (), d) ==> d == EntryKind::File);
    }
}

impl RoundTrip for EntryKind {
    proof fn lemma_round_trip(&self, rest: Seq<u8>) {
    }
}

/// A record of a directory: a name, and the cluster that holds what the name
/// stands for, a file's bytes or a directory's entries.
#[derive(Debug)]
pub struct Entry {
    pub kind: EntryKind,
    /// The number of bytes of the cluster's stream that are in use.
    pub size: usize,
    pub name: String,
    pub cluster: Cluster,
}

/// What an entry holds.
pub struct EntryView {
    pub kind: EntryKind,
    pub size: usize,
    pub name: Seq<char>,
    pub blocks: Seq<Block>,
}

impl View for Entry {
    type V = EntryView;

    open spec fn view(&self) -> EntryView {
        EntryView { kind: self.kind, size: self.size, name: self.name@, blocks: self.cluster@ }
    }
}

impl DeepView for Entry {
    type V = EntryView;

    open spec fn deep_view(&self) -> EntryView {
        self@
    }
}

impl Default for Entry {
    /// An empty file without a name.
    fn default() -> (entry: Self)
        ensures
            entry@ == Entry::blank(),
    {
        Entry { kind: EntryKind::File, size: 0, name: String::new(), cluster: Cluster::default() }
    }
}

/// Whether an entry has an encoding: whether its name and its blocks have.
pub open spec fn entry_encodable(entry: EntryView) -> bool {
    text_encodable(entry.name) && blocks_encodable(entry.blocks)
}

/// The bytes an entry is written as: its kind, its name, its size and its
/// blocks, in this order.
pub open spec fn entry_encoding(entry: EntryView) -> Seq<u8> {
    seq![kind_code(entry.kind)] + text_encoding(entry.name) + be_bytes(entry.size as nat, 8)
        + blocks_encoding(entry.blocks)
}

impl Serialize for Entry {
    open spec fn encodable(&self) -> bool {
        entry_encodable(self@)
    }

    open spec fn encoding(&self) -> Seq<u8> {
        entry_encoding(self@)
    }

    fn serialize(&self, w: &mut Vec<u8>) -> (r: Result<usize, Error>) {
        let start = w.len();
        let _ = self.kind.serialize(w);
        let name = self.name.as_str();
        if name.serialize(w).is_err() {
            w.truncate(start);
            proof {
                assert(w@ =~= old(w)@);
            }
            return Err(Error::InvalidInput);
        }
        let _ = self.size.serialize(w);
        proof {
            assert(w@ =~= old(w)@ + (seq![kind_code(self.kind)] + text_encoding(self.name@)
                + be_bytes(self.size as nat, 8)));
        }
        match self.cluster.serialize(w) {
            Ok(_) => {},
            Err(e) => {
                w.truncate(start);
                proof {
                    assert(w@ =~= old(w)@);
                }
                return Err(e);
            },
        }
        proof {
            assert(w@ =~= old(w)@ + self.encoding());
        }
        Ok(w.len() - start)
    }
}

impl Deserialize for Entry {
    /// The kind, the name, the size and the blocks, in this order. The blocks
    /// read are added behind those of `before`.
    open spec fn decode(before: EntryView, input: Seq<u8>) -> Option<(EntryView, nat)> {
        match EntryKind::decode(before.kind, input) {
            None => None,
            Some((kind, a)) => match String::decode(before.name, input.skip(a as int)) {
                None => None,
                Some((name, b)) => match usize::decode(before.size, input.skip((a + b) as int)) {
                    None => None,
                    Some((size, c)) => match Cluster::decode(
                        before.blocks,
                        input.skip((a + b + c) as int),
                    ) {
                        None => None,
                        Some((blocks, d)) => Some(
                            (EntryView { kind, size, name, blocks }, a + b + c + d),
                        ),
                    },
                },
            },
        }
    }

    fn deserialize(&mut self, r: &[u8]) -> (res: Result<usize, Error>) {
        let mut kind = EntryKind::File;
        let a = kind.deserialize(r)?;
        let mut name = String::new();
        let after_kind = vstd::slice::slice_subrange(r, a, r.len());
        let b = name.deserialize(after_kind)?;
        let mut size: usize = 0;
        let after_name = vstd::slice::slice_subrange(r, a + b, r.len());
        let c = size.deserialize(after_name)?;
        let after_size = vstd::slice::slice_subrange(r, a + b + c, r.len());
        proof {
            assert(after_kind@ =~= r@.skip(a as int));
            assert(after_name@ =~= r@.skip(a + b));
            assert(after_size@ =~= r@.skip(a + b + c));
        }
        let d = self.cluster.deserialize(after_size)?;
        self.kind = kind;
        self.name = name;
        self.size = size;
        Ok(a + b + c + d)
    }
}

impl Blank for Entry {
    open spec fn blank() -> EntryView {
        EntryView {
            kind: EntryKind::File,
            size: 0,
            name: Seq::empty(),
            blocks: Seq::empty(),
        }
    }

    proof fn default_is_blank(d: Self) {
        assert(call_ensures(Entry::default, (), d) ==> d@ == Entry::blank());
    }
}

/// An entry is read back from the bytes it is written as: reading from the
/// encoding of `entry`, whatever follows it, gives the kind, the name and the
/// size of `entry`, adds its blocks behind those of `before`, and takes the
/// encoding's length.
pub proof fn lemma_entry_round_trip(entry: EntryView, before: EntryView, rest: Seq<u8>)
    requires
        entry_encodable(entry),
    ensures
        Entry::decode(before, entry_encoding(entry) + rest) == Some(
            (
                EntryView {
                    kind: entry.kind,
                    size: entry.size,
                    name: entry.name,
                    blocks: before.blocks + entry.blocks,
                },
                entry_encoding(entry).len(),
            ),
        ),
{
    let kind = seq![kind_code(entry.kind)];
    let name = text_encoding(entry.name);
    let size = be_bytes(entry.size as nat, 8);
    let blocks = blocks_encoding(entry.blocks);
    let input = entry_encoding(entry) + rest;
    assert(input =~= kind + (name + (size + (blocks + rest))));
    assert(input.skip(1) =~= name + (size + (blocks + rest)));
    lemma_text_round_trip(entry.name, before.name, size + (blocks + rest));
    assert(input.skip(1 + name.len() as int) =~= size + (blocks + rest));
    lemma_pow256_8();
    assert(entry.size <= u64::MAX);
    lemma_be_round_trip(entry.size as nat, 8, blocks + rest);
    assert(input.skip(1 + name.len() as int + 8) =~= blocks + rest);
    lemma_cluster_round_trip(entry.blocks, before.blocks, rest);
}

impl RoundTrip for Entry {
    proof fn lemma_round_trip(&self, rest: Seq<u8>) {
        lemma_entry_round_trip(self@, Entry::blank(), rest);
        assert(Seq::<Block>::empty() + self@.blocks =~= self@.blocks);
    }
}

/// An ordered list of entries.
#[derive(Debug)]
pub struct Directory {
    pub entries: Vec<Entry>,
}

impl View for Directory {
    type V = Seq<EntryView>;

    open spec fn view(&self) -> Seq<EntryView> {
        self.entries.deep_view()
    }
}

impl DeepView for Directory {
    type V = Seq<EntryView>;

    open spec fn deep_view(&self) -> Seq<EntryView> {
        self@
    }
}

impl Default for Directory {
    /// A directory without entries.
    fn default() -> (directory: Self)
        ensures
            directory@ == Seq::<EntryView>::empty(),
    {
        let directory = Directory { entries: Vec::new() };
        proof {
            assert(directory@ =~= Seq::<EntryView>::empty());
        }
        directory
    }
}

impl Serialize for Directory {
    open spec fn encodable(&self) -> bool {
        self.entries.encodable()
    }

    /// The number of entries in eight bytes, then the entries in order.
    open spec fn encoding(&self) -> Seq<u8> {
        self.entries.encoding()
    }

    fn serialize(&self, w: &mut Vec<u8>) -> (r: Result<usize, Error>) {
        self.entries.serialize(w)
    }
}

impl Deserialize for Directory {
    /// The number of entries in eight bytes, then the entries in order. The
    /// entries read are added behind those of `before`.
    open spec fn decode(before: Seq<EntryView>, input: Seq<u8>) -> Option<(Seq<EntryView>, nat)> {
        Vec::<Entry>::decode(before, input)
    }

    fn deserialize(&mut self, r: &[u8]) -> (res: Result<usize, Error>) {
        self.entries.deserialize(r)
    }
}

impl Blank for Directory {
    open spec fn blank() -> Seq<EntryView> {
        Seq::empty()
    }

    proof fn default_is_blank(d: Self) {
        assert(call_ensures(Directory::default, (), d) ==> d@ == Seq::<EntryView>::empty());
    }
}

impl RoundTrip for Directory {
    proof fn lemma_round_trip(&self, rest: Seq<u8>) {
        self.entries.lemma_round_trip(rest);
    }
}

/// Whether two texts are the same.
pub fn same_text(a: &str, b: &str) -> (same: bool)
    ensures
        same == (a@ == b@),
{
    let x = a.as_bytes();
    let y = b.as_bytes();
    proof {
        vstd::utf8::encode_utf8_decode_utf8(a@);
        vstd::utf8::encode_utf8_decode_utf8(b@);
        assert(x@ == vstd::utf8::encode_utf8(a@));
        assert(y@ == vstd::utf8::encode_utf8(b@));
    }
    if x.len() != y.len() {
        return false;
    }
    let mut i: usize = 0;
    while i < x.len()
        invariant
            i <= x@.len(),
            x@.len() == y@.len(),
            x@ == vstd::utf8::encode_utf8(a@),
            y@ == vstd::utf8::encode_utf8(b@),
            x@.take(i as int) == y@.take(i as int),
        decreases x@.len() - i,
    {
        if x[i] != y[i] {
            return false;
        }
        proof {
            assert(x@.take(i + 1) =~= x@.take(i as int).push(x@[i as int]));
            assert(y@.take(i + 1) =~= y@.take(i as int).push(y@[i as int]));
        }
        i = i + 1;
    }
    proof {
        assert(x@.take(i as int) =~= x@);
        assert(y@.take(i as int) =~= y@);
    }
    true
}

/// The place of the first of `entries` that has the name `name`.
pub open spec fn position_of(entries: Seq<EntryView>, name: Seq<char>) -> Option<int>
    decreases entries.len(),
{
    if entries.len() == 0 {
        None
    } else if entries[0].name == name {
        Some(0)
    } else {
        match position_of(entries.drop_first(), name) {
            None => None,
            Some(i) => Some(i + 1),
        }
    }
}

/// A place found among the entries from place `skipped` on, counted from the
/// first entry.
pub open spec fn shifted(found: Option<int>, skipped: int) -> Option<int> {
    match found {
        None => None,
        Some(i) => Some(i + skipped),
    }
}

/// The place of a name is the place of an entry that has it, and no entry
/// before it has it.
pub proof fn lemma_position_of(entries: Seq<EntryView>, name: Seq<char>)
    ensures
        match position_of(entries, name) {
            Some(i) => 0 <= i < entries.len() && entries[i].name == name && forall|j: int|
                0 <= j < i ==> (#[trigger] entries[j]).name != name,
            None => forall|j: int| 0 <= j < entries.len() ==> (#[trigger] entries[j]).name != name,
        },
    decreases entries.len(),
{
    if entries.len() > 0 && entries[0].name != name {
        let rest = entries.drop_first();
        lemma_position_of(rest, name);
        match position_of(rest, name) {
            Some(i) => {
                assert forall|j: int| 0 <= j < i + 1 implies (#[trigger] entries[j]).name
                    != name by {
                    if j > 0 {
                        assert(rest[j - 1].name != name);
                    }
                }
            },
            None => {
                assert forall|j: int| 0 <= j < entries.len() implies (#[trigger] entries[j]).name
                    != name by {
                    if j > 0 {
                        assert(rest[j - 1].name != name);
                    }
                }
            },
        }
    }
}

/// What a new entry of kind `kind` and name `name` holds.
pub open spec fn new_entry(kind: EntryKind, name: Seq<char>) -> EntryView {
    EntryView { kind, size: 0, name, blocks: Seq::empty() }
}

impl Entry {
    /// An empty file of the name `name`.
    pub fn new(name: &str) -> (entry: Self)
        ensures
            entry@ == new_entry(EntryKind::File, name@),
    {
        Entry {
            kind: EntryKind::File,
            size: 0,
            name: name.to_owned(),
            cluster: Cluster::default(),
        }
    }
}

impl Directory {
    /// The place of the first entry of the name `name`.
    pub fn position(&self, name: &str) -> (found: Option<usize>)
        ensures
            match position_of(self@, name@) {
                Some(i) => found matches Some(k) && k == i && 0 <= i < self.entries@.len(),
                None => found is None,
            },
    {
        let mut i: usize = 0;
        proof {
            assert(self@.skip(0) =~= self@);
        }
        while i < self.entries.len()
            invariant
                i <= self.entries@.len(),
                self@.len() == self.entries@.len(),
                position_of(self@, name@) == shifted(
                    position_of(self@.skip(i as int), name@),
                    i as int,
                ),
            decreases self.entries@.len() - i,
        {
            proof {
                assert(self@.skip(i as int).drop_first() =~= self@.skip(i + 1));
                assert(self@.skip(i as int)[0] == self.entries@[i as int]@);
            }
            if same_text(self.entries[i].name.as_str(), name) {
                return Some(i);
            }
            i = i + 1;
        }
        None
    }

    /// Adds an empty file of the name `name` at the end and returns it.
    pub fn add_file(&mut self, name: &str) -> (entry: &mut Entry)
        ensures
            entry@ == new_entry(EntryKind::File, name@),
            final(self).entries@ == old(self).entries@.push(*final(entry)),
    {
        self.entries.push(
            Entry {
                kind: EntryKind::File,
                size: 0,
                name: name.to_owned(),
                cluster: Cluster::default(),
            },
        );
        self.entries.last_mut().unwrap()
    }

    /// Adds an empty directory of the name `name` at the end and returns it.
    pub fn add_directory(&mut self, name: &str) -> (entry: &mut Entry)
        ensures
            entry@ == new_entry(EntryKind::Directory, name@),
            final(self).entries@ == old(self).entries@.push(*final(entry)),
    {
        self.entries.push(
            Entry {
                kind: EntryKind::Directory,
                size: 0,
                name: name.to_owned(),
                cluster: Cluster::default(),
            },
        );
        self.entries.last_mut().unwrap()
    }

    /// The first entry of the name `name`.
    pub fn entry_with_name(&self, name: &str) -> (found: Option<&Entry>)
        ensures
            match position_of(self@, name@) {
                Some(i) => 0 <= i < self.entries@.len() && found == Some(&self.entries@[i]),
                None => found is None,
            },
    {
        match self.position(name) {
            Some(i) => Some(&self.entries[i]),
            None => None,
        }
    }

    /// The first entry of the name `name`, to be changed in place.
    pub fn entry_with_name_mut(&mut self, name: &str) -> (found: Option<&mut Entry>)
        ensures
            match position_of(old(self)@, name@) {
                Some(i) => 0 <= i < old(self).entries@.len() && (found matches Some(entry)
                    && *entry == old(self).entries@[i]
                    && final(self).entries@ == old(self).entries@.update(i, *final(entry))),
                None => found is None && *final(self) == *old(self),
            },
    {
        match self.position(name) {
            Some(i) => Some(&mut self.entries[i]),
            None => None,
        }
    }

    /// The first entry of the name `name`, which must be a file, or a new
    /// empty file of that name, added at the end, where no entry has the
    /// name. Where the first entry of the name is a directory, the call
    /// fails with `Other` and changes nothing.
    pub fn file_with_name_or_create_mut(&mut self, name: &str) -> (r: Result<&mut Entry, Error>)
        ensures
            match position_of(old(self)@, name@) {
                Some(i) => if !(0 <= i < old(self).entries@.len()) {
                    false
                } else if old(self).entries@[i].kind == EntryKind::Directory {
                    r matches Err(e) && e == Error::Other && *final(self) == *old(self)
                } else {
                    r matches Ok(entry) && *entry == old(self).entries@[i]
                        && final(self).entries@ == old(self).entries@.update(i, *final(entry))
                },
                None => r matches Ok(entry) && entry@ == new_entry(EntryKind::File, name@)
                    && final(self).entries@ == old(self).entries@.push(*final(entry)),
            },
    {
        match self.position(name) {
            None => Ok(self.add_file(name)),
            Some(i) => {
                match self.entries[i].kind {
                    EntryKind::Directory => Err(Error::Other),
                    EntryKind::File => Ok(&mut self.entries[i]),
                }
            },
        }
    }
}

/// A reader over the bytes of an entry: the stream of the entry's cluster, as
/// far as the entry's size says.
pub struct EntryReader<'a, R> {
    pub entry: &'a Entry,
    pub reader: R,
    /// The offset in the entry's bytes at which the next read starts.
    pub offset: usize,
}

/// A writer over the bytes of an entry, which raises the entry's size to
/// where its writes end.
pub struct EntryWriter<'a, W> {
    pub entry_size: &'a mut usize,
    pub writer: W,
    /// The offset in the entry's bytes at which the next write starts.
    pub offset: usize,
}

impl Entry {
    /// A reader over the entry's bytes in the store of `fs`, with its cursor
    /// at offset zero.
    pub fn read_from_file_system<'a, M: Memory>(&'a self, fs: &'a FileSystem<M>) -> (r: EntryReader<
        'a,
        ClusterReader<'a, MemoryReader<'a, M>>,
    >)
        ensures
            r.entry == self,
            *r.reader.cluster == self.cluster,
            *r.reader.reader.memory == fs.memory,
            r.reader.offset == 0,
            r.offset == 0,
    {
        self.reader(fs.read_from_cluster(&self.cluster))
    }

    /// A reader over the entry's bytes, with its cursor at offset zero, which
    /// reads the stream through `reader`.
    pub fn reader<R>(&self, reader: R) -> (r: EntryReader<'_, R>)
        ensures
            r.entry == self,
            r.reader == reader,
            r.offset == 0,
    {
        EntryReader { entry: self, reader, offset: 0 }
    }

    /// A writer over the entry's bytes in the store of `fs`, with its cursor
    /// at offset zero.
    pub fn write_to_file_system<'a, M: Memory>(&'a mut self, fs: &'a mut FileSystem<M>) -> (w:
        EntryWriter<'a, ClusterWriter<'a, MemoryWriter<'a, M>>>)
        ensures
            *w.entry_size == old(self).size,
            *w.writer.cluster == old(self).cluster,
            *w.writer.bitmap == old(fs).bitmap,
            *w.writer.writer.memory == old(fs).memory,
            w.writer.offset == 0,
            w.offset == 0,
            final(self).size == *final(w.entry_size),
            final(self).cluster == *final(w.writer.cluster),
            final(self).kind == old(self).kind,
            final(self).name == old(self).name,
            final(fs).bitmap == *final(w.writer.bitmap),
            final(fs).memory == *final(w.writer.writer.memory),
            final(fs).root_cluster == old(fs).root_cluster,
    {
        let writer = fs.write_into_cluster(&mut self.cluster);
        EntryWriter { entry_size: &mut self.size, writer, offset: 0 }
    }

    /// A writer over the entry's bytes, with its cursor at offset zero, which
    /// writes the stream through `writer`.
    pub fn writer<W>(&mut self, writer: W) -> (w: EntryWriter<'_, W>)
        ensures
            *w.entry_size == old(self).size,
            w.writer == writer,
            w.offset == 0,
            final(self).size == *final(w.entry_size),
            final(self).cluster == old(self).cluster,
            final(self).kind == old(self).kind,
            final(self).name == old(self).name,
    {
        EntryWriter { entry_size: &mut self.size, writer, offset: 0 }
    }
}

/// The number of bytes that an entry of `size` bytes has from offset `at` on.
pub open spec fn left(size: int, at: int) -> int {
    if at < size {
        size - at
    } else {
        0
    }
}

impl<'a, M: Memory> EntryReader<'a, ClusterReader<'a, MemoryReader<'a, M>>> {
    /// Moves the cursor of the stream, and the reader's own with it.
    pub fn seek(&mut self, pos: SeekFrom) -> (r: Result<u64, Error>)
        ensures
            final(self).entry == old(self).entry,
            final(self).reader.cluster == old(self).reader.cluster,
            final(self).reader.reader == old(self).reader.reader,
            r is Ok ==> final(self).offset == final(self).reader.offset,
            pos.lands(old(self).reader.offset as int, old(self).reader.cluster.extent()) ==> r
                == Ok::<u64, Error>(
                pos.target(old(self).reader.offset as int, old(self).reader.cluster.extent()) as u64,
            ) && final(self).offset == pos.target(
                old(self).reader.offset as int,
                old(self).reader.cluster.extent(),
            ),
            !pos.lands(old(self).reader.offset as int, old(self).reader.cluster.extent()) ==> r
                == Err::<u64, Error>(Error::InvalidInput) && *final(self) == *old(self),
    {
        let new_offset = self.reader.seek(pos)?;
        self.offset = new_offset as usize;
        Ok(new_offset)
    }

    /// Reads bytes of the entry at the cursor into the front of `buf`, moves
    /// the cursor past them and returns how many. Nothing is read past the
    /// entry's size, whatever the blocks behind it hold.
    pub fn read(&mut self, buf: &mut [u8]) -> (r: Result<usize, Error>)
        ensures
            final(self).entry == old(self).entry,
            final(self).reader.cluster == old(self).reader.cluster,
            final(self).reader.reader.memory == old(self).reader.reader.memory,
            final(buf)@.len() == old(buf)@.len(),
            old(self).offset >= old(self).entry.size ==> r == Ok::<usize, Error>(0) && *final(self)
                == *old(self) && final(buf)@ == old(buf)@,
            r matches Ok(n) ==> {
                &&& n <= left(old(self).entry.size as int, old(self).offset as int)
                &&& final(self).offset == old(self).offset + n
                &&& final(self).reader.offset == old(self).reader.offset + n
                &&& stream_filled(
                    old(self).reader.reader.memory.bytes(),
                    old(self).reader.cluster@,
                    old(self).reader.offset as int,
                    old(buf)@,
                    final(buf)@,
                    n as int,
                )
                &&& n == 0 ==> {
                    ||| old(buf)@.len() == 0
                    ||| old(self).offset >= old(self).entry.size
                    ||| !stream_has(
                        old(self).reader.reader.memory.bytes(),
                        old(self).reader.cluster@,
                        old(self).reader.offset as int,
                    )
                }
                &&& n > 0 ==> old(self).reader.cluster.extent() <= usize::MAX
            },
            r is Err ==> final(self).offset == old(self).offset && final(self).reader.offset
                == old(self).reader.offset && final(buf)@ == old(buf)@,
            old(self).reader.reader.memory.steady() && old(self).reader.cluster.extent()
                <= usize::MAX ==> r is Ok,
            old(self).reader.reader.memory.steady() && r is Err ==> r == Err::<usize, Error>(
                Error::InvalidInput,
            ) && old(self).reader.cluster.extent() > usize::MAX,
    {
        if self.offset >= self.entry.size {
            return Ok(0);
        }
        let mut read_len = self.entry.size - self.offset;
        if buf.len() < read_len {
            read_len = buf.len();
        }
        if read_len == 0 {
            return Ok(0);
        }
        let (head, tail) = buf.split_at_mut(read_len);
        let n = self.reader.read(head)?;
        proof {
            let after = head@ + tail@;
            assert forall|i: int| #![trigger after[i]] 0 <= i < after.len() implies after[i] == if i
                < n {
                crate::cluster::stream_byte(
                    self.reader.reader.memory.bytes(),
                    self.reader.cluster@,
                    old(self).reader.offset + i,
                )
            } else {
                old(buf)@[i]
            } by {
                if i < read_len {
                    assert(after[i] == head@[i]);
                }
            }
        }
        self.offset = self.offset + n;
        Ok(n)
    }

    /// Fills `buf` from the cursor on. Where the entry or its stream ends
    /// before `buf` is full, the read fails with `InvalidInput`.
    pub fn read_exact(&mut self, buf: &mut [u8]) -> (r: Result<(), Error>)
        ensures
            final(self).entry == old(self).entry,
            final(self).reader.cluster == old(self).reader.cluster,
            final(self).reader.reader.memory == old(self).reader.reader.memory,
            final(buf)@.len() == old(buf)@.len(),
            r is Ok ==> {
                &&& old(buf)@.len() <= left(old(self).entry.size as int, old(self).offset as int)
                &&& final(self).offset == old(self).offset + old(buf)@.len()
                &&& final(self).reader.offset == old(self).reader.offset + old(buf)@.len()
                &&& stream_range(
                    old(self).reader.reader.memory.bytes(),
                    old(self).reader.cluster@,
                    old(self).reader.offset as int,
                    final(buf)@,
                )
                &&& old(buf)@.len() > 0 ==> old(self).reader.cluster.extent() <= usize::MAX
            },
            old(buf)@.len() == 0 ==> r is Ok,
            old(buf)@.len() > left(old(self).entry.size as int, old(self).offset as int) ==> r
                is Err,
            !stream_holds(
                old(self).reader.reader.memory.bytes(),
                old(self).reader.cluster@,
                old(self).reader.offset as int,
                old(buf)@.len() as int,
            ) ==> r is Err,
            old(self).reader.reader.memory.steady() && r is Err ==> r == Err::<(), Error>(
                Error::InvalidInput,
            ) && (old(self).reader.cluster.extent() > usize::MAX || old(buf)@.len() > left(
                old(self).entry.size as int,
                old(self).offset as int,
            ) || !stream_holds(
                old(self).reader.reader.memory.bytes(),
                old(self).reader.cluster@,
                old(self).reader.offset as int,
                old(buf)@.len() as int,
            )),
    {
        let ghost start = self.reader.offset;
        let ghost mem = self.reader.reader.memory.bytes();
        let ghost blocks = self.reader.cluster@;
        let total = buf.len();
        let mut filled: usize = 0;
        while filled < total
            invariant
                self.entry == old(self).entry,
                self.reader.cluster == old(self).reader.cluster,
                self.reader.reader.memory == old(self).reader.reader.memory,
                mem == self.reader.reader.memory.bytes(),
                blocks == self.reader.cluster@,
                start == old(self).reader.offset,
                total == buf@.len(),
                total == old(buf)@.len(),
                filled <= total,
                filled <= left(old(self).entry.size as int, old(self).offset as int),
                self.offset == old(self).offset + filled,
                self.reader.offset == start + filled,
                stream_filled(mem, blocks, start as int, old(buf)@, buf@, filled as int),
                filled > 0 ==> self.reader.cluster.extent() <= usize::MAX,
            decreases total - filled,
        {
            let ghost before = buf@;
            let (done, rest) = buf.split_at_mut(filled);
            let n = self.read(rest)?;
            if n == 0 {
                proof {
                    if self.offset < self.entry.size {
                        assert(!stream_has(mem, blocks, start + filled));
                    }
                }
                return Err(Error::InvalidInput);
            }
            proof {
                let after = done@ + rest@;
                assert forall|i: int| #![trigger after[i]] 0 <= i < after.len() implies after[i]
                    == if i < filled + n {
                    crate::cluster::stream_byte(mem, blocks, start + i)
                } else {
                    old(buf)@[i]
                } by {
                    if i < filled {
                        assert(after[i] == before[i]);
                    } else {
                        assert(after[i] == rest@[i - filled]);
                        assert(before[i] == before.skip(filled as int)[i - filled]);
                    }
                }
            }
            filled = filled + n;
        }
        Ok(())
    }

    /// Reads the entry from the cursor to its end, adds the bytes at the end
    /// of `out` and returns how many they are. The entry ends at its size, or
    /// where its stream ends before that.
    pub fn read_to_end(&mut self, out: &mut Vec<u8>) -> (r: Result<usize, Error>)
        ensures
            final(self).entry == old(self).entry,
            final(self).reader.cluster == old(self).reader.cluster,
            final(self).reader.reader.memory == old(self).reader.reader.memory,
            final(out)@.len() >= old(out)@.len(),
            final(out)@.take(old(out)@.len() as int) == old(out)@,
            final(out)@.len() - old(out)@.len() <= left(
                old(self).entry.size as int,
                old(self).offset as int,
            ),
            final(self).offset == old(self).offset + (final(out)@.len() - old(out)@.len()),
            final(self).reader.offset == old(self).reader.offset + (final(out)@.len()
                - old(out)@.len()),
            stream_range(
                old(self).reader.reader.memory.bytes(),
                old(self).reader.cluster@,
                old(self).reader.offset as int,
                final(out)@.skip(old(out)@.len() as int),
            ),
            r matches Ok(n) ==> {
                &&& n == final(out)@.len() - old(out)@.len()
                &&& final(self).offset >= old(self).entry.size || !stream_has(
                    old(self).reader.reader.memory.bytes(),
                    old(self).reader.cluster@,
                    final(self).reader.offset as int,
                )
            },
            old(self).reader.reader.memory.steady() && old(self).reader.cluster.extent()
                <= usize::MAX ==> r is Ok,
    {
        let ghost start = self.reader.offset;
        let ghost mem = self.reader.reader.memory.bytes();
        let ghost blocks = self.reader.cluster@;
        let before = out.len();
        let mut chunk: Vec<u8> = vec![0u8; Block::SIZE];
        loop
            invariant
                self.entry == old(self).entry,
                self.reader.cluster == old(self).reader.cluster,
                self.reader.reader.memory == old(self).reader.reader.memory,
                mem == self.reader.reader.memory.bytes(),
                blocks == self.reader.cluster@,
                start == old(self).reader.offset,
                before == old(out)@.len(),
                chunk@.len() == 512,
                out@.len() >= before,
                out@.take(before as int) == old(out)@,
                out@.len() - before <= left(old(self).entry.size as int, old(self).offset as int),
                self.offset == old(self).offset + (out@.len() - before),
                self.reader.offset == start + (out@.len() - before),
                stream_range(mem, blocks, start as int, out@.skip(before as int)),
            decreases old(self).entry.size - self.offset,
        {
            let ghost sofar = out@;
            let n = self.read(chunk.as_mut_slice())?;
            if n == 0 {
                return Ok(out.len() - before);
            }
            let mut i: usize = 0;
            while i < n
                invariant
                    i <= n <= chunk@.len(),
                    out@ == sofar + chunk@.take(i as int),
                decreases n - i,
            {
                out.push(chunk[i]);
                proof {
                    assert(out@ =~= sofar + chunk@.take(i + 1));
                }
                i = i + 1;
            }
            proof {
                assert(out@.take(before as int) =~= sofar.take(before as int));
                let data = out@.skip(before as int);
                let earlier = sofar.skip(before as int);
                assert forall|k: int| #![trigger data[k]] 0 <= k < data.len() implies data[k]
                    == crate::cluster::stream_byte(mem, blocks, start + k) by {
                    if k >= earlier.len() {
                        assert(data[k] == chunk@[k - earlier.len()]);
                    } else {
                        assert(data[k] == earlier[k]);
                    }
                }
            }
        }
    }

    /// Reads a directory from the bytes that the entry has from the cursor
    /// on. Where the stream ends before the entry's size, or the bytes do not
    /// decode, the call fails with `InvalidInput`.
    pub fn read_directory(&mut self) -> (r: Result<Directory, Error>)
        ensures
            final(self).entry == old(self).entry,
            final(self).reader.cluster == old(self).reader.cluster,
            final(self).reader.reader.memory == old(self).reader.reader.memory,
            r matches Ok(directory) ==> {
                let len = left(old(self).entry.size as int, old(self).offset as int);
                &&& old(self).reader.cluster.extent() <= usize::MAX
                &&& stream_holds(
                    old(self).reader.reader.memory.bytes(),
                    old(self).reader.cluster@,
                    old(self).reader.offset as int,
                    len,
                )
                &&& Directory::decode(
                    Seq::empty(),
                    stream_bytes(
                        old(self).reader.reader.memory.bytes(),
                        old(self).reader.cluster@,
                        old(self).reader.offset as int,
                        len,
                    ),
                ) matches Some((entries, _)) && entries == directory@
            },
            !stream_holds(
                old(self).reader.reader.memory.bytes(),
                old(self).reader.cluster@,
                old(self).reader.offset as int,
                left(old(self).entry.size as int, old(self).offset as int),
            ) ==> r is Err,
            stream_holds(
                old(self).reader.reader.memory.bytes(),
                old(self).reader.cluster@,
                old(self).reader.offset as int,
                left(old(self).entry.size as int, old(self).offset as int),
            ) && Directory::decode(
                Seq::empty(),
                stream_bytes(
                    old(self).reader.reader.memory.bytes(),
                    old(self).reader.cluster@,
                    old(self).reader.offset as int,
                    left(old(self).entry.size as int, old(self).offset as int),
                ),
            ) is None ==> r is Err,
            old(self).reader.reader.memory.steady() ==> (r matches Err(e) ==> e
                == Error::InvalidInput && !(old(self).reader.cluster.extent() <= usize::MAX
                && stream_holds(
                old(self).reader.reader.memory.bytes(),
                old(self).reader.cluster@,
                old(self).reader.offset as int,
                left(old(self).entry.size as int, old(self).offset as int),
            ) && Directory::decode(
                Seq::empty(),
                stream_bytes(
                    old(self).reader.reader.memory.bytes(),
                    old(self).reader.cluster@,
                    old(self).reader.offset as int,
                    left(old(self).entry.size as int, old(self).offset as int),
                ),
            ) is Some)),
    {
        let len = if self.offset < self.entry.size {
            self.entry.size - self.offset
        } else {
            0
        };
        let mut bytes: Vec<u8> = vec![0u8; len];
        self.read_exact(bytes.as_mut_slice())?;
        proof {
            assert(bytes@ =~= stream_bytes(
                old(self).reader.reader.memory.bytes(),
                old(self).reader.cluster@,
                old(self).reader.offset as int,
                len as int,
            ));
        }
        Directory::deserialize_into_default(bytes.as_slice())
    }
}

/// The larger of two sizes.
pub open spec fn raised(size: int, end: int) -> int {
    if size < end {
        end
    } else {
        size
    }
}

impl<'a, M: Memory> EntryWriter<'a, ClusterWriter<'a, MemoryWriter<'a, M>>> {
    /// Whether the writer's cursor is that of the stream it writes. A writer
    /// made over a stream whose cursor is at offset zero is in step; a write
    /// moves both cursors alike, and a seek that lands puts the writer in
    /// step.
    pub open spec fn in_step(&self) -> bool {
        self.offset == self.writer.offset
    }

    /// Whether the entry's size is within what its cluster holds.
    pub open spec fn size_covered(&self) -> bool {
        *self.entry_size <= self.writer.cluster.extent()
    }

    /// Moves the cursor of the stream, and the writer's own with it. Neither
    /// the entry's size nor its cluster changes.
    pub fn seek(&mut self, pos: SeekFrom) -> (r: Result<u64, Error>)
        ensures
            *final(final(self).entry_size) == *final(old(self).entry_size),
            *final(final(self).writer.cluster) == *final(old(self).writer.cluster),
            *final(final(self).writer.bitmap) == *final(old(self).writer.bitmap),
            *final(self).entry_size == *old(self).entry_size,
            *final(self).writer.cluster == *old(self).writer.cluster,
            *final(self).writer.bitmap == *old(self).writer.bitmap,
            final(self).writer.writer == old(self).writer.writer,
            r is Ok ==> final(self).in_step(),
            pos.lands(old(self).writer.offset as int, old(self).writer.cluster.extent()) ==> r
                == Ok::<u64, Error>(
                pos.target(old(self).writer.offset as int, old(self).writer.cluster.extent()) as u64,
            ) && final(self).offset == pos.target(
                old(self).writer.offset as int,
                old(self).writer.cluster.extent(),
            ),
            !pos.lands(old(self).writer.offset as int, old(self).writer.cluster.extent()) ==> r
                == Err::<u64, Error>(Error::InvalidInput) && final(self).offset == old(self).offset
                && final(self).writer.offset == old(self).writer.offset,
    {
        let new_offset = self.writer.seek(pos)?;
        self.offset = new_offset as usize;
        Ok(new_offset)
    }

    /// Writes bytes from the front of `buf` at the cursor of the stream as
    /// the cluster's writer does, moves the writer's own cursor by as many
    /// bytes, and raises the entry's size to where that cursor comes to
    /// stand. The size never falls; where the two cursors are in step, it
    /// stays within what the cluster holds. A writer that is not in step must
    /// have room in a `usize` for its cursor behind the bytes.
    pub fn write(&mut self, buf: &[u8]) -> (r: Result<usize, Error>)
        requires
            old(self).in_step() || old(self).offset + buf@.len() <= usize::MAX,
        ensures
            *final(final(self).entry_size) == *final(old(self).entry_size),
            *final(final(self).writer.cluster) == *final(old(self).writer.cluster),
            *final(final(self).writer.bitmap) == *final(old(self).writer.bitmap),
            *final(final(self).writer.writer.memory) == *final(old(self).writer.writer.memory),
            final(self).writer.writer.memory.steady() == old(self).writer.writer.memory.steady(),
            final(self).writer.writer.memory.bytes().len()
                >= old(self).writer.writer.memory.bytes().len(),
            final(self).offset - old(self).offset
                == final(self).writer.offset - old(self).writer.offset,
            extends(old(self).writer.stream(), final(self).writer.stream()),
            final(self).writer.cluster@ == old(self).writer.cluster@ + blocks_of(
                allocations(old(self).writer.bitmap@, allotted(old(self).writer.stream())),
            ),
            final(self).writer.bitmap@ == after_allocations(
                old(self).writer.bitmap@,
                allotted(old(self).writer.stream()),
            ),
            old(self).in_step() && old(self).size_covered() ==> final(self).size_covered(),
            r matches Ok(n) ==> {
                &&& n == chunk_len(old(self).writer.offset as int, buf@.len() as int)
                &&& free_count(old(self).writer.bitmap@) >= lacking(
                    old(self).writer.cluster@.len() as int,
                    old(self).writer.offset as int,
                )
                &&& final(self).writer.stream() == chunk_written(
                    old(self).writer.stream(),
                    buf@,
                    M::PAGE_SIZE as int,
                )
                &&& *final(self).entry_size == raised(
                    *old(self).entry_size as int,
                    old(self).offset + n,
                )
            },
            r is Err ==> final(self).offset == old(self).offset
                && *final(self).entry_size == *old(self).entry_size,
            free_count(old(self).writer.bitmap@) < lacking(
                old(self).writer.cluster@.len() as int,
                old(self).writer.offset as int,
            ) ==> r == Err::<usize, Error>(Error::OutOfMemory)
                && final(self).writer.writer == old(self).writer.writer,
            old(self).writer.writer.memory.steady() ==> (r is Ok <==> chunk_fits(
                old(self).writer.stream(),
                buf@.len() as int,
                M::PAGE_SIZE as int,
                M::MAX_PAGES as int,
            )),
            old(self).writer.writer.memory.steady() ==> (r matches Err(e) ==> e
                == Error::OutOfMemory && final(self).writer.writer.memory.bytes()
                == old(self).writer.writer.memory.bytes()),
    {
        let written_bytes = self.writer.write(buf)?;
        self.offset = self.offset + written_bytes;
        if *self.entry_size < self.offset {
            *self.entry_size = self.offset;
        }
        Ok(written_bytes)
    }

    /// Writes all of `buf` at the cursor of the stream as the cluster's
    /// writer does, moves the writer's own cursor by as many bytes as were
    /// written, and raises the entry's size to where that cursor comes to
    /// stand. The size never falls; where the two cursors are in step, it
    /// stays within what the cluster holds. A writer that is not in step must
    /// have room in a `usize` for its cursor behind the bytes.
    pub fn write_all(&mut self, buf: &[u8]) -> (r: Result<(), Error>)
        requires
            old(self).in_step() || old(self).offset + buf@.len() <= usize::MAX,
        ensures
            *final(final(self).entry_size) == *final(old(self).entry_size),
            *final(final(self).writer.cluster) == *final(old(self).writer.cluster),
            *final(final(self).writer.bitmap) == *final(old(self).writer.bitmap),
            *final(final(self).writer.writer.memory) == *final(old(self).writer.writer.memory),
            final(self).writer.writer.memory.steady() == old(self).writer.writer.memory.steady(),
            final(self).writer.writer.memory.bytes().len()
                >= old(self).writer.writer.memory.bytes().len(),
            final(self).offset - old(self).offset
                == final(self).writer.offset - old(self).writer.offset,
            extends(old(self).writer.stream(), final(self).writer.stream()),
            took_blocks(
                old(self).writer.stream(),
                buf@.len() as int,
                final(self).writer.bitmap@,
                final(self).writer.cluster@,
            ),
            old(self).in_step() && old(self).size_covered() ==> final(self).size_covered(),
            old(self).offset <= final(self).offset <= old(self).offset + buf@.len(),
            *final(self).entry_size == if final(self).offset > old(self).offset {
                raised(*old(self).entry_size as int, final(self).offset as int)
            } else {
                *old(self).entry_size as int
            },
            r is Ok ==> can_write(old(self).writer.stream(), buf@.len() as int)
                && final(self).writer.stream() == all_written(
                old(self).writer.stream(),
                buf@,
                M::PAGE_SIZE as int,
            ),
            !can_write(old(self).writer.stream(), buf@.len() as int) ==> r is Err,
            old(self).writer.writer.memory.steady() ==> (r is Ok <==> all_fit(
                old(self).writer.stream(),
                buf@,
                M::PAGE_SIZE as int,
                M::MAX_PAGES as int,
            )),
            old(self).writer.writer.memory.steady() ==> (r matches Err(e) ==> e
                == Error::OutOfMemory),
    {
        let start = self.writer.offset;
        let r = self.writer.write_all(buf);
        let moved = self.writer.offset - start;
        self.offset = self.offset + moved;
        if moved > 0 && *self.entry_size < self.offset {
            *self.entry_size = self.offset;
        }
        r
    }

    /// Does nothing: a write reaches the store at once.
    pub fn flush(&mut self) -> (r: Result<(), Error>)
        ensures
            *final(self) == *old(self),
            r is Ok,
    {
        self.writer.flush()
    }

    /// Writes the encoding of `directory` at the cursor and returns its
    /// length. A directory without an encoding is refused as `InvalidInput`
    /// before anything is written. Blocks that the cluster has behind the
    /// end of the encoding stay with it. A writer that is not in step must
    /// have room in a `usize` for its cursor behind the encoding.
    pub fn write_directory(&mut self, directory: &Directory) -> (r: Result<usize, Error>)
        requires
            old(self).in_step() || (directory.encodable() ==> old(self).offset
                + directory.encoding().len() <= usize::MAX),
        ensures
            *final(final(self).entry_size) == *final(old(self).entry_size),
            *final(final(self).writer.cluster) == *final(old(self).writer.cluster),
            *final(final(self).writer.bitmap) == *final(old(self).writer.bitmap),
            *final(final(self).writer.writer.memory) == *final(old(self).writer.writer.memory),
            final(self).writer.writer.memory.steady() == old(self).writer.writer.memory.steady(),
            final(self).writer.writer.memory.bytes().len()
                >= old(self).writer.writer.memory.bytes().len(),
            final(self).offset - old(self).offset
                == final(self).writer.offset - old(self).writer.offset,
            extends(old(self).writer.stream(), final(self).writer.stream()),
            old(self).in_step() && old(self).size_covered() ==> final(self).size_covered(),
            !directory.encodable() ==> r == Err::<usize, Error>(Error::InvalidInput)
                && final(self).writer.stream() == old(self).writer.stream()
                && final(self).writer.writer == old(self).writer.writer
                && final(self).offset == old(self).offset
                && *final(self).entry_size == *old(self).entry_size,
            directory.encodable() ==> took_blocks(
                old(self).writer.stream(),
                directory.encoding().len() as int,
                final(self).writer.bitmap@,
                final(self).writer.cluster@,
            ),
            directory.encodable() ==> old(self).offset <= final(self).offset <= old(self).offset
                + directory.encoding().len(),
            *final(self).entry_size == if final(self).offset > old(self).offset {
                raised(*old(self).entry_size as int, final(self).offset as int)
            } else {
                *old(self).entry_size as int
            },
            r matches Ok(n) ==> {
                &&& directory.encodable()
                &&& n == directory.encoding().len()
                &&& can_write(old(self).writer.stream(), n as int)
                &&& final(self).writer.stream() == all_written(
                    old(self).writer.stream(),
                    directory.encoding(),
                    M::PAGE_SIZE as int,
                )
                &&& *final(self).entry_size == if n > 0 {
                    raised(*old(self).entry_size as int, old(self).offset + n)
                } else {
                    *old(self).entry_size as int
                }
            },
            directory.encodable() && !can_write(
                old(self).writer.stream(),
                directory.encoding().len() as int,
            ) ==> r is Err,
            directory.encodable() ==> directory.encoding().len() <= usize::MAX,
            old(self).writer.writer.memory.steady() ==> (r is Ok <==> directory.encodable()
                && all_fit(
                old(self).writer.stream(),
                directory.encoding(),
                M::PAGE_SIZE as int,
                M::MAX_PAGES as int,
            )),
            old(self).writer.writer.memory.steady() ==> (r matches Err(e) ==> e
                == if directory.encodable() {
                Error::OutOfMemory
            } else {
                Error::InvalidInput
            }),
    {
        let mut bytes: Vec<u8> = Vec::new();
        let n = directory.serialize(&mut bytes)?;
        proof {
            assert(bytes@ =~= directory.encoding());
        }
        self.write_all(bytes.as_slice())?;
        Ok(n)
    }
}

/// The encodings of `entries`, one after the other.
pub open spec fn entry_encodings(entries: Seq<EntryView>) -> Seq<u8>
    decreases entries.len(),
{
    if entries.len() == 0 {
        Seq::empty()
    } else {
        entry_encodings(entries.drop_last()) + entry_encoding(entries.last())
    }
}

/// Whether a directory of the entries `entries` has an encoding.
pub open spec fn directory_encodable(entries: Seq<EntryView>) -> bool {
    &&& entries.len() <= usize::MAX
    &&& forall|i: int| 0 <= i < entries.len() ==> entry_encodable(#[trigger] entries[i])
}

/// The bytes that a directory of the entries `entries` is written as: the
/// number of entries in eight bytes, then the entries in order.
pub open spec fn directory_encoding(entries: Seq<EntryView>) -> Seq<u8> {
    be_bytes(entries.len(), 8) + entry_encodings(entries)
}

/// The views of `entries`.
pub open spec fn views_of(entries: Seq<Entry>) -> Seq<EntryView> {
    Seq::new(entries.len(), |i: int| entries[i]@)
}

/// The encodings of entries are those of their views.
pub proof fn lemma_entry_encodings(entries: Seq<Entry>)
    ensures
        crate::serde::encodings(entries) == entry_encodings(views_of(entries)),
    decreases entries.len(),
{
    if entries.len() > 0 {
        lemma_entry_encodings(entries.drop_last());
        assert(views_of(entries).drop_last() =~= views_of(entries.drop_last()));
    }
}

/// A directory is written as its view says.
pub proof fn lemma_directory_encoding(directory: &Directory)
    ensures
        directory@ == views_of(directory.entries@),
        directory.encoding() == directory_encoding(directory@),
        directory.encodable() == directory_encodable(directory@),
{
    lemma_entry_encodings(directory.entries@);
    assert(directory@ =~= views_of(directory.entries@));
    if directory.encodable() {
        assert forall|i: int| 0 <= i < directory@.len() implies entry_encodable(
            #[trigger] directory@[i],
        ) by {
            assert(directory.entries@[i].encodable());
        }
    }
    if directory_encodable(directory@) {
        assert forall|i: int| 0 <= i < directory.entries@.len() implies (
        #[trigger] directory.entries@[i]).encodable() by {
            assert(entry_encodable(directory@[i]));
        }
    }
}

/// The entries of the directory that the bytes `data` begin with.
pub open spec fn entries_in(data: Seq<u8>) -> Option<Seq<EntryView>> {
    match Directory::decode(Seq::empty(), data) {
        Some((entries, _)) => Some(entries),
        None => None,
    }
}

/// The entries of the directory that `entry` holds in a store of bytes
/// `mem`: what the bytes of the entry decode to. A cluster whose blocks hold
/// more bytes than a `usize` counts is not read.
pub open spec fn entries_of(mem: Seq<u8>, entry: EntryView) -> Option<Seq<EntryView>> {
    if 512 * entry.blocks.len() <= usize::MAX && stream_holds(
        mem,
        entry.blocks,
        0,
        entry.size as int,
    ) {
        entries_in(stream_bytes(mem, entry.blocks, 0, entry.size as int))
    } else {
        None
    }
}

/// The names that the texts of `path` spell.
pub open spec fn names(path: Seq<&str>) -> Seq<Seq<char>> {
    Seq::new(path.len(), |i: int| path[i]@)
}

/// The directory of the name `name` in the directory of the entries `dir` in
/// a store of bytes `mem`, where the first entry of that name counts: no
/// such entry is `NotFound`, a file is `InvalidInput`, and so is a directory
/// whose bytes do not decode.
pub open spec fn step(mem: Seq<u8>, dir: Seq<EntryView>, name: Seq<char>) -> Result<
    Seq<EntryView>,
    Error,
> {
    match position_of(dir, name) {
        None => Err(Error::NotFound),
        Some(i) => if dir[i].kind == EntryKind::File {
            Err(Error::InvalidInput)
        } else {
            match entries_of(mem, dir[i]) {
                None => Err(Error::InvalidInput),
                Some(sub) => Ok(sub),
            }
        },
    }
}

/// The directory that `path` leads to from the directory of the entries
/// `dir` in a store of bytes `mem`, one step for each name of the path.
pub open spec fn resolve(mem: Seq<u8>, dir: Seq<EntryView>, path: Seq<Seq<char>>) -> Result<
    Seq<EntryView>,
    Error,
>
    decreases path.len(),
{
    if path.len() == 0 {
        Ok(dir)
    } else {
        match step(mem, dir, path[0]) {
            Err(e) => Err(e),
            Ok(sub) => resolve(mem, sub, path.drop_first()),
        }
    }
}

impl Directory {
    /// Reads the directory of the name `name` in this directory from the
    /// store of `fs`.
    pub fn enter<M: Memory>(&self, fs: &FileSystem<M>, name: &str) -> (r: Result<Directory, Error>)
        ensures
            r matches Ok(sub) ==> step(fs.memory.bytes(), self@, name@) == Ok::<
                Seq<EntryView>,
                Error,
            >(sub@),
            step(fs.memory.bytes(), self@, name@) is Err ==> r is Err,
            fs.memory.steady() ==> (r matches Err(e) ==> step(fs.memory.bytes(), self@, name@)
                == Err::<Seq<EntryView>, Error>(e)),
    {
        match self.entry_with_name(name) {
            None => Err(Error::NotFound),
            Some(entry) => {
                proof {
                    let k = position_of(self@, name@).unwrap();
                    assert(self@[k] == entry@);
                    assert(left(entry.size as int, 0) == entry.size);
                }
                match entry.kind {
                    EntryKind::File => Err(Error::InvalidInput),
                    EntryKind::Directory => {
                        let mut reader = entry.read_from_file_system(fs);
                        reader.read_directory()
                    },
                }
            },
        }
    }
}

/// Whether the bitmap of `disk` has the free blocks that writing `data` as
/// the bytes of `entry` takes.
pub open spec fn storable(disk: Disk, entry: EntryView, data: Seq<u8>) -> bool {
    can_write(Stream { disk, blocks: entry.blocks, offset: 0 }, data.len() as int)
}

/// What writing `data` from the start of the bytes of `entry` makes of the
/// disk and of the entry: the entry's cluster takes the blocks it lacks, and
/// the entry's size rises to the length of `data` where it was below it.
pub open spec fn stored(disk: Disk, entry: EntryView, data: Seq<u8>, page: int) -> (
    Disk,
    EntryView,
) {
    let after = all_written(Stream { disk, blocks: entry.blocks, offset: 0 }, data, page);
    (
        after.disk,
        EntryView {
            kind: entry.kind,
            size: if data.len() > 0 {
                raised(entry.size as int, data.len() as int) as usize
            } else {
                entry.size
            },
            name: entry.name,
            blocks: after.blocks,
        },
    )
}

/// Whether writing `data` as the bytes of `entry` goes through. Where the
/// store's room is known, `limit` is the number of pages it has room for, and
/// every write must fit; where it is not, the bitmap must have the free
/// blocks that the writes take.
pub open spec fn writes(
    disk: Disk,
    entry: EntryView,
    data: Seq<u8>,
    page: int,
    limit: Option<int>,
) -> bool {
    match limit {
        Some(max_pages) => all_fit(
            Stream { disk, blocks: entry.blocks, offset: 0 },
            data,
            page,
            max_pages,
        ),
        None => storable(disk, entry, data),
    }
}

/// What writing the directory of the entries `sub` as the bytes of `entry`
/// makes of the disk and of the entry. A directory without an encoding, or
/// with one of more bytes than a `usize` counts, is `InvalidInput`; an
/// encoding that cannot be written is `OutOfMemory`.
pub open spec fn kept(
    disk: Disk,
    entry: EntryView,
    sub: Seq<EntryView>,
    page: int,
    limit: Option<int>,
) -> Result<(Disk, EntryView), Error> {
    if !directory_encodable(sub) || directory_encoding(sub).len() > usize::MAX {
        Err(Error::InvalidInput)
    } else if !writes(disk, entry, directory_encoding(sub), page, limit) {
        Err(Error::OutOfMemory)
    } else {
        Ok(stored(disk, entry, directory_encoding(sub), page))
    }
}

/// What making the directories of `path` below the directory of the entries
/// `dir` makes of the disk and of `dir`. The walk goes down as far as
/// directories of the names of `path` exist, and reads them from the disk as
/// it is at the start. A name that no entry has gets a new, empty directory
/// at the end of the entries. On the way back up each directory on the path,
/// whether new or not, is written as the bytes of its entry, the deepest
/// first. A name that a file has fails the call with `InvalidInput`, and so
/// does a directory that does not decode.
pub open spec fn made(
    disk: Disk,
    dir: Seq<EntryView>,
    path: Seq<Seq<char>>,
    page: int,
    limit: Option<int>,
) -> Result<(Disk, Seq<EntryView>), Error>
    decreases path.len(),
{
    if path.len() == 0 {
        Ok((disk, dir))
    } else {
        match position_of(dir, path[0]) {
            Some(i) => if dir[i].kind == EntryKind::File {
                Err(Error::InvalidInput)
            } else {
                match entries_of(disk.mem, dir[i]) {
                    None => Err(Error::InvalidInput),
                    Some(sub) => match made(disk, sub, path.drop_first(), page, limit) {
                        Err(e) => Err(e),
                        Ok((below, sub_made)) => match kept(below, dir[i], sub_made, page, limit) {
                            Err(e) => Err(e),
                            Ok((after, entry)) => Ok((after, dir.update(i, entry))),
                        },
                    },
                }
            },
            None => match made(disk, Seq::empty(), path.drop_first(), page, limit) {
                Err(e) => Err(e),
                Ok((below, sub_made)) => match kept(
                    below,
                    new_entry(EntryKind::Directory, path[0]),
                    sub_made,
                    page,
                    limit,
                ) {
                    Err(e) => Err(e),
                    Ok((after, entry)) => Ok((after, dir.push(entry))),
                },
            },
        }
    }
}

/// What writing back the directories on `path` makes of the disk and of the
/// directory of the entries `dir`, once the directory that `path` leads to
/// has come to hold the entries `leaf` and the disk has become `disk`. The
/// directories on the path are as they were read from a store of bytes `mem`
/// before that. Each is written as the bytes of its entry in the directory
/// above it, the deepest first, so that each directory is written with the
/// size and the blocks that its entry got when it was written itself. A
/// name that leads to no directory fails as `step` says, and a directory that
/// cannot be written back fails as `kept` says.
pub open spec fn rewritten(
    mem: Seq<u8>,
    disk: Disk,
    dir: Seq<EntryView>,
    path: Seq<Seq<char>>,
    leaf: Seq<EntryView>,
    page: int,
    limit: Option<int>,
) -> Result<(Disk, Seq<EntryView>), Error>
    decreases path.len(),
{
    if path.len() == 0 {
        Ok((disk, leaf))
    } else {
        match step(mem, dir, path[0]) {
            Err(e) => Err(e),
            Ok(sub) => match rewritten(mem, disk, sub, path.drop_first(), leaf, page, limit) {
                Err(e) => Err(e),
                Ok((below, sub_written)) => match kept(
                    below,
                    dir[position_of(dir, path[0]).unwrap()],
                    sub_written,
                    page,
                    limit,
                ) {
                    Err(e) => Err(e),
                    Ok((after, entry)) => Ok(
                        (after, dir.update(position_of(dir, path[0]).unwrap(), entry)),
                    ),
                },
            },
        }
    }
}

/// Whether an entry is sound: every block of its cluster is marked as taken
/// in `bits`, and its size is no more than its blocks hold.
pub open spec fn entry_sound(bits: Seq<bool>, entry: EntryView) -> bool {
    covered(bits, entry.blocks) && entry.size <= 512 * entry.blocks.len()
}

/// Whether all of `entries` are sound.
pub open spec fn all_sound(bits: Seq<bool>, entries: Seq<EntryView>) -> bool {
    forall|i: int| 0 <= i < entries.len() ==> entry_sound(bits, #[trigger] entries[i])
}

/// An entry that is sound stays sound while no block is freed.
pub proof fn lemma_sound_kept(before: Seq<bool>, after: Seq<bool>, entry: EntryView)
    requires
        keeps(before, after),
        entry_sound(before, entry),
    ensures
        entry_sound(after, entry),
{
    assert forall|i: int| 0 <= i < entry.blocks.len() implies (#[trigger] entry.blocks[i]).index
        < after.len() && after[entry.blocks[i].index as int] by {
        assert(before[entry.blocks[i].index as int]);
    }
}

/// Writing the bytes of an entry keeps it sound and frees no block.
pub proof fn lemma_stored_sound(disk: Disk, entry: EntryView, data: Seq<u8>, page: int)
    requires
        disk.bits.len() <= usize::MAX,
        data.len() <= usize::MAX,
        storable(disk, entry, data),
    ensures
        keeps(disk.bits, stored(disk, entry, data, page).0.bits),
        entry_sound(disk.bits, entry) ==> entry_sound(
            stored(disk, entry, data, page).0.bits,
            stored(disk, entry, data, page).1,
        ),
{
    let stream = Stream { disk, blocks: entry.blocks, offset: 0 };
    lemma_all_written_keeps(stream, data, page);
    if entry_sound(disk.bits, entry) {
        lemma_all_written_covered(stream, data, page);
    }
}

/// The encodings of entries begin with the encoding of the first.
pub proof fn lemma_entry_encodings_front(first: EntryView, rest: Seq<EntryView>)
    ensures
        entry_encodings(seq![first] + rest) == entry_encoding(first) + entry_encodings(rest),
    decreases rest.len(),
{
    let all = seq![first] + rest;
    if rest.len() == 0 {
        assert(all.drop_last() =~= Seq::<EntryView>::empty());
        assert(all.last() == first);
        assert(entry_encodings(all) == entry_encodings(all.drop_last()) + entry_encoding(
            all.last(),
        ));
        assert(entry_encodings(all) =~= entry_encoding(first) + entry_encodings(rest));
    } else {
        assert(all.drop_last() =~= seq![first] + rest.drop_last());
        assert(all.last() == rest.last());
        lemma_entry_encodings_front(first, rest.drop_last());
        assert(entry_encodings(all) == entry_encodings(all.drop_last()) + entry_encoding(
            all.last(),
        ));
        assert(entry_encodings(rest) == entry_encodings(rest.drop_last()) + entry_encoding(
            rest.last(),
        ));
        assert(entry_encodings(all) =~= entry_encoding(first) + entry_encodings(rest));
    }
}

/// Entries are read back from the bytes they are written as, one after the
/// other, whatever follows them.
pub proof fn lemma_entries_round_trip(entries: Seq<EntryView>, rest: Seq<u8>)
    requires
        forall|i: int| 0 <= i < entries.len() ==> entry_encodable(#[trigger] entries[i]),
    ensures
        crate::serde::decode_items::<Entry>(entry_encodings(entries) + rest, entries.len())
            == Some((entries, entry_encodings(entries).len())),
    decreases entries.len(),
{
    if entries.len() > 0 {
        let first = entries[0];
        let tail = entries.drop_first();
        assert(entries =~= seq![first] + tail);
        lemma_entry_encodings_front(first, tail);
        let input = entry_encodings(entries) + rest;
        assert(input =~= entry_encoding(first) + (entry_encodings(tail) + rest));
        lemma_entry_round_trip(first, Entry::blank(), entry_encodings(tail) + rest);
        assert(Seq::<Block>::empty() + first.blocks =~= first.blocks);
        assert(input.skip(entry_encoding(first).len() as int) =~= entry_encodings(tail) + rest);
        lemma_entries_round_trip(tail, rest);
        assert(seq![first] + tail =~= entries);
    }
}

/// A directory is read back from the bytes it is written as: reading from
/// the encoding of a directory of the entries `entries`, whatever follows
/// it, gives those entries and takes the encoding's length.
pub proof fn lemma_directory_round_trip(entries: Seq<EntryView>, rest: Seq<u8>)
    requires
        directory_encodable(entries),
    ensures
        Directory::decode(Seq::empty(), directory_encoding(entries) + rest) == Some(
            (entries, directory_encoding(entries).len()),
        ),
{
    lemma_pow256_8();
    assert(usize::MAX <= u64::MAX);
    lemma_be_bytes_len(entries.len(), 8);
    lemma_be_round_trip(entries.len(), 8, entry_encodings(entries) + rest);
    assert(directory_encoding(entries) + rest =~= be_bytes(entries.len(), 8) + (entry_encodings(
        entries,
    ) + rest));
    assert((directory_encoding(entries) + rest).skip(8) =~= entry_encodings(entries) + rest);
    lemma_entries_round_trip(entries, rest);
    assert(Seq::<EntryView>::empty() + entries =~= entries);
}

/// A directory that is written from the start of a cluster is read back
/// from it: once a directory of the entries `entries` has been written at
/// offset zero of a stream whose blocks are distinct and marked as taken,
/// the whole stream decodes to those entries.
pub proof fn lemma_directory_read_back(stream: Stream, entries: Seq<EntryView>, page: int)
    requires
        stream.disk.bits.len() <= usize::MAX,
        stream.offset == 0,
        page > 0,
        directory_encodable(entries),
        can_write(stream, directory_encoding(entries).len() as int),
        covered(stream.disk.bits, stream.blocks),
        distinct(stream.blocks),
    ensures
        entries_in(
            whole_stream(
                all_written(stream, directory_encoding(entries), page).disk.mem,
                all_written(stream, directory_encoding(entries), page).blocks,
            ),
        ) == Some(entries),
{
    let data = directory_encoding(entries);
    let written = all_written(stream, data, page);
    lemma_all_written_begins(stream, data, page);
    let rest = stream_bytes(
        written.disk.mem,
        written.blocks,
        data.len() as int,
        stream_end(written.disk.mem, written.blocks) - data.len(),
    );
    lemma_directory_round_trip(entries, rest);
}

/// A directory that is kept in an entry is read back from it: once a
/// directory of the entries `sub` has been written as the bytes of an entry
/// whose blocks are distinct and marked as taken, the entry that comes of it
/// holds a directory of the same entries. An entry that was larger than the
/// directory's encoding must have held its bytes before.
pub proof fn lemma_kept_read_back(disk: Disk, entry: EntryView, sub: Seq<EntryView>, page: int)
    requires
        disk.bits.len() <= usize::MAX,
        page > 0,
        covered(disk.bits, entry.blocks),
        distinct(entry.blocks),
        kept(disk, entry, sub, page, None) is Ok,
        512 * kept(disk, entry, sub, page, None)->Ok_0.1.blocks.len() <= usize::MAX,
        entry.size <= directory_encoding(sub).len() || stream_holds(
            disk.mem,
            entry.blocks,
            0,
            entry.size as int,
        ),
    ensures
        entries_of(
            kept(disk, entry, sub, page, None)->Ok_0.0.mem,
            kept(disk, entry, sub, page, None)->Ok_0.1,
        ) == Some(sub),
{
    let data = directory_encoding(sub);
    let stream = Stream { disk, blocks: entry.blocks, offset: 0 };
    let after = all_written(stream, data, page);
    let (written, kept_entry) = kept(disk, entry, sub, page, None)->Ok_0;
    let len = data.len() as int;
    let size = kept_entry.size as int;
    lemma_be_bytes_len(sub.len(), 8);
    assert(len >= 8);
    assert(written.mem == after.disk.mem && kept_entry.blocks == after.blocks);
    lemma_all_written_read_back(stream, data, page);
    lemma_all_written_covered(stream, data, page);
    let need = lacking_for(entry.blocks.len() as int, 0, len);
    lemma_all_written_distinct(stream, data, page);
    lemma_allocations_ascend(disk.bits, need);
    lemma_laid_read_back(disk.mem, after.blocks, 0, data, page);
    assert forall|k: int| 0 <= k < size implies #[trigger] stream_has(
        after.disk.mem,
        after.blocks,
        k,
    ) by {
        if k >= len {
            assert(stream_has(disk.mem, entry.blocks, k));
            assert(after.blocks[k / 512] == entry.blocks[k / 512]);
        }
    }
    let rest = stream_bytes(after.disk.mem, after.blocks, len, size - len);
    assert(stream_bytes(after.disk.mem, after.blocks, 0, size) =~= data + rest) by {
        assert(stream_bytes(after.disk.mem, after.blocks, 0, len) == data);
    }
    lemma_directory_round_trip(sub, rest);
}

/// Making directories frees no block, and keeps the entries of the
/// directory it starts from sound: where every entry of `dir` is sound, so is
/// every entry of the directory that `made` gives, the new ones among them.
pub proof fn lemma_made_sound(disk: Disk, dir: Seq<EntryView>, path: Seq<Seq<char>>, page: int)
    requires
        disk.bits.len() <= usize::MAX,
        made(disk, dir, path, page, None) is Ok,
    ensures
        keeps(disk.bits, made(disk, dir, path, page, None)->Ok_0.0.bits),
        all_sound(disk.bits, dir) ==> all_sound(
            made(disk, dir, path, page, None)->Ok_0.0.bits,
            made(disk, dir, path, page, None)->Ok_0.1,
        ),
    decreases path.len(),
{
    if path.len() > 0 {
        let rest = path.drop_first();
        let (sub, entry) = match position_of(dir, path[0]) {
            Some(i) => (entries_of(disk.mem, dir[i]).unwrap(), dir[i]),
            None => (Seq::empty(), new_entry(EntryKind::Directory, path[0])),
        };
        lemma_position_of(dir, path[0]);
        lemma_made_sound(disk, sub, rest, page);
        let (below, sub_made) = made(disk, sub, rest, page, None)->Ok_0;
        let data = directory_encoding(sub_made);
        lemma_stored_sound(below, entry, data, page);
        let (after, written) = stored(below, entry, data, page);
        lemma_keeps_trans(disk.bits, below.bits, after.bits);
        if all_sound(disk.bits, dir) {
            let result = made(disk, dir, path, page, None)->Ok_0.1;
            if position_of(dir, path[0]) is Some {
                assert(entry_sound(disk.bits, entry));
            }
            lemma_sound_kept(disk.bits, below.bits, entry);
            assert forall|k: int| 0 <= k < result.len() implies entry_sound(
                after.bits,
                #[trigger] result[k],
            ) by {
                if result[k] != written {
                    assert(entry_sound(disk.bits, dir[k]));
                    lemma_sound_kept(disk.bits, after.bits, dir[k]);
                }
            }
        }
    }
}

/// Writing directories back frees no block.
pub proof fn lemma_rewritten_keeps(
    mem: Seq<u8>,
    disk: Disk,
    dir: Seq<EntryView>,
    path: Seq<Seq<char>>,
    leaf: Seq<EntryView>,
    page: int,
)
    requires
        disk.bits.len() <= usize::MAX,
        rewritten(mem, disk, dir, path, leaf, page, None) is Ok,
    ensures
        keeps(disk.bits, rewritten(mem, disk, dir, path, leaf, page, None)->Ok_0.0.bits),
    decreases path.len(),
{
    if path.len() > 0 {
        let i = position_of(dir, path[0]).unwrap();
        let sub = entries_of(mem, dir[i]).unwrap();
        lemma_rewritten_keeps(mem, disk, sub, path.drop_first(), leaf, page);
        let (below, sub_written) = rewritten(
            mem,
            disk,
            sub,
            path.drop_first(),
            leaf,
            page,
            None,
        )->Ok_0;
        lemma_stored_sound(below, dir[i], directory_encoding(sub_written), page);
        lemma_keeps_trans(
            disk.bits,
            below.bits,
            stored(below, dir[i], directory_encoding(sub_written), page).0.bits,
        );
    }
}

/// Whether making the directories of `path` below the directory of the
/// entries `dir`, read from a store of bytes `mem`, is stopped on the way
/// down: whether, as far as entries of the names of `path` exist one below
/// the other, one of them is a file or a directory that does not decode.
pub open spec fn blocked(mem: Seq<u8>, dir: Seq<EntryView>, path: Seq<Seq<char>>) -> bool
    decreases path.len(),
{
    if path.len() == 0 || position_of(dir, path[0]) is None {
        false
    } else {
        match step(mem, dir, path[0]) {
            Err(_) => true,
            Ok(sub) => blocked(mem, sub, path.drop_first()),
        }
    }
}

/// Whether the entries `after` are the entries `before` but for the first
/// entry of the name `name`, or but for a new entry of that name and of the
/// kind `kind` behind them. The entry of the name keeps its kind and its
/// name; its size has not fallen, and its cluster has the blocks it had,
/// and maybe more behind them.
pub open spec fn touched(
    before: Seq<EntryView>,
    after: Seq<EntryView>,
    name: Seq<char>,
    kind: EntryKind,
) -> bool {
    match position_of(before, name) {
        Some(i) => {
            &&& after.len() == before.len()
            &&& forall|j: int| 0 <= j < before.len() && j != i ==> #[trigger] after[j] == before[j]
            &&& 0 <= i < before.len()
            &&& after[i].kind == before[i].kind
            &&& after[i].name == before[i].name
            &&& after[i].size >= before[i].size
            &&& before[i].blocks.is_prefix_of(after[i].blocks)
        },
        None => after == before || {
            &&& after.len() == before.len() + 1
            &&& after.drop_last() == before
            &&& after.last().kind == kind
            &&& after.last().name == name
        },
    }
}

/// Making directories where the walk is stopped fails with `InvalidInput`,
/// whatever room the store has.
pub proof fn lemma_blocked_made(
    disk: Disk,
    dir: Seq<EntryView>,
    path: Seq<Seq<char>>,
    page: int,
    limit: Option<int>,
)
    requires
        blocked(disk.mem, dir, path),
    ensures
        made(disk, dir, path, page, limit) == Err::<(Disk, Seq<EntryView>), Error>(
            Error::InvalidInput,
        ),
    decreases path.len(),
{
    match step(disk.mem, dir, path[0]) {
        Err(_) => {},
        Ok(sub) => {
            lemma_blocked_made(disk, sub, path.drop_first(), page, limit);
        },
    }
}

/// The place of a name stays where an entry gives way to one of its own
/// name.
pub proof fn lemma_position_of_update(
    entries: Seq<EntryView>,
    i: int,
    entry: EntryView,
    name: Seq<char>,
)
    requires
        0 <= i < entries.len(),
        entry.name == entries[i].name,
    ensures
        position_of(entries.update(i, entry), name) == position_of(entries, name),
    decreases entries.len(),
{
    let after = entries.update(i, entry);
    if entries[0].name != name {
        if i == 0 {
            assert(after.drop_first() =~= entries.drop_first());
        } else {
            assert(after.drop_first() =~= entries.drop_first().update(i - 1, entry));
            lemma_position_of_update(entries.drop_first(), i - 1, entry, name);
        }
    }
}

/// Entries that have not changed are touched at no name.
pub proof fn lemma_touched_same(before: Seq<EntryView>, name: Seq<char>, kind: EntryKind)
    ensures
        touched(before, before, name, kind),
{
    lemma_position_of(before, name);
}

/// Entries of which the first of a name has changed in size and blocks
/// alone, and has lost neither, are touched at that name.
pub proof fn lemma_touched_at(
    before: Seq<EntryView>,
    after: Seq<EntryView>,
    i: int,
    name: Seq<char>,
    kind: EntryKind,
)
    requires
        position_of(before, name) == Some(i),
        0 <= i < before.len(),
        after == before.update(i, after[i]),
        after[i].kind == before[i].kind,
        after[i].name == before[i].name,
        after[i].size >= before[i].size,
        before[i].blocks.is_prefix_of(after[i].blocks),
    ensures
        touched(before, after, name, kind),
{
}

/// Entries that have got a new entry of a name behind them, where none had
/// it, are touched at that name.
pub proof fn lemma_touched_behind(
    before: Seq<EntryView>,
    after: Seq<EntryView>,
    name: Seq<char>,
    kind: EntryKind,
)
    requires
        position_of(before, name) is None,
        after == before.push(after.last()),
        after.last().kind == kind,
        after.last().name == name,
    ensures
        touched(before, after, name, kind),
{
    assert(after.drop_last() =~= before);
}

impl Entry {
    /// Writes the encoding of `directory` from the start of the entry's bytes
    /// in the store of `fs`, as `kept` says. A directory without an encoding
    /// is refused before anything changes. A write that fails on the way
    /// leaves with the entry the blocks that it has taken by then, marked as
    /// taken, and the size as far as the bytes were written.
    pub fn keep<M: Memory>(&mut self, fs: &mut FileSystem<M>, directory: &Directory) -> (r: Result<
        (),
        Error,
    >)
        ensures
            final(fs).root_cluster == old(fs).root_cluster,
            final(fs).memory.steady() == old(fs).memory.steady(),
            final(fs).memory.bytes().len() >= old(fs).memory.bytes().len(),
            keeps(old(fs).bitmap@, final(fs).bitmap@),
            final(self).kind == old(self).kind,
            final(self).name == old(self).name,
            old(self).size <= final(self).size,
            old(self)@.blocks.is_prefix_of(final(self)@.blocks),
            !directory_encodable(directory@) ==> r == Err::<(), Error>(Error::InvalidInput)
                && final(fs).disk() == old(fs).disk() && final(self)@ == old(self)@,
            directory_encodable(directory@) ==> took_blocks(
                Stream { disk: old(fs).disk(), blocks: old(self)@.blocks, offset: 0 },
                directory_encoding(directory@).len() as int,
                final(fs).bitmap@,
                final(self)@.blocks,
            ) && final(self).size <= raised(
                old(self).size as int,
                directory_encoding(directory@).len() as int,
            ),
            r is Ok ==> kept(old(fs).disk(), old(self)@, directory@, M::PAGE_SIZE as int, None)
                == Ok::<(Disk, EntryView), Error>((final(fs).disk(), final(self)@)),
            kept(old(fs).disk(), old(self)@, directory@, M::PAGE_SIZE as int, None) is Err ==> r
                is Err,
            old(fs).memory.steady() ==> match kept(
                old(fs).disk(),
                old(self)@,
                directory@,
                M::PAGE_SIZE as int,
                Some(M::MAX_PAGES as int),
            ) {
                Ok(after) => r is Ok && after == (final(fs).disk(), final(self)@),
                Err(e) => r == Err::<(), Error>(e),
            },
    {
        proof {
            lemma_directory_encoding(directory);
        }
        let mut writer = self.write_to_file_system(fs);
        match writer.write_directory(directory) {
            Ok(_) => Ok(()),
            Err(e) => Err(e),
        }
    }
}

impl Directory {
    /// Makes the directories of `path` below this one in `fs`, as `made`
    /// says. Where a file, or a directory that does not decode, stands in
    /// the way, the call fails before anything changes. Where a write fails,
    /// every entry of this directory but the one of the first name is as it
    /// was.
    #[verifier::rlimit(60)]
    pub fn make_directory_recursive<M: Memory>(
        &mut self,
        fs: &mut FileSystem<M>,
        path: &[&str],
    ) -> (r: Result<(), Error>)
        ensures
            final(fs).root_cluster == old(fs).root_cluster,
            keeps(old(fs).bitmap@, final(fs).bitmap@),
            final(fs).memory.steady() == old(fs).memory.steady(),
            final(fs).memory.bytes().len() >= old(fs).memory.bytes().len(),
            r is Ok ==> made(old(fs).disk(), old(self)@, names(path@), M::PAGE_SIZE as int, None)
                == Ok::<(Disk, Seq<EntryView>), Error>((final(fs).disk(), final(self)@)),
            made(old(fs).disk(), old(self)@, names(path@), M::PAGE_SIZE as int, None) is Err ==> r
                is Err,
            blocked(old(fs).memory.bytes(), old(self)@, names(path@)) ==> r is Err
                && *final(self) == *old(self) && *final(fs) == *old(fs),
            old(fs).memory.steady() && blocked(old(fs).memory.bytes(), old(self)@, names(path@))
                ==> r == Err::<(), Error>(Error::InvalidInput),
            path@.len() == 0 ==> *final(self) == *old(self) && *final(fs) == *old(fs),
            path@.len() > 0 ==> touched(
                old(self)@,
                final(self)@,
                names(path@)[0],
                EntryKind::Directory,
            ),
            old(fs).memory.steady() ==> match made(
                old(fs).disk(),
                old(self)@,
                names(path@),
                M::PAGE_SIZE as int,
                Some(M::MAX_PAGES as int),
            ) {
                Ok(after) => r is Ok && after == (final(fs).disk(), final(self)@),
                Err(e) => r == Err::<(), Error>(e),
            },
        decreases path@.len(),
    {
        if path.len() == 0 {
            return Ok(());
        }
        let segment = path[0];
        let rest = vstd::slice::slice_subrange(path, 1, path.len());
        let ghost first = fs.bitmap@;
        let ghost start = self@;
        proof {
            assert(names(rest@) =~= names(path@).drop_first());
            assert(names(path@)[0] == segment@);
            lemma_directory_encoding(self);
            lemma_touched_same(start, segment@, EntryKind::Directory);
        }
        match self.position(segment) {
            Some(i) => {
                let mut sub = self.enter(fs, segment)?;
                match sub.make_directory_recursive(fs, rest) {
                    Ok(()) => {},
                    Err(e) => {
                        return Err(e);
                    },
                }
                let ghost below = fs.bitmap@;
                let ghost before = self.entries@;
                let r = self.entries[i].keep(fs, &sub);
                proof {
                    lemma_keeps_trans(first, below, fs.bitmap@);
                    assert(views_of(self.entries@) =~= views_of(before).update(
                        i as int,
                        self.entries@[i as int]@,
                    ));
                    lemma_directory_encoding(self);
                    lemma_touched_at(start, self@, i as int, segment@, EntryKind::Directory);
                }
                r
            },
            None => {
                let mut sub = Directory::default();
                match sub.make_directory_recursive(fs, rest) {
                    Ok(()) => {},
                    Err(e) => {
                        return Err(e);
                    },
                }
                let ghost below = fs.bitmap@;
                let ghost before = self.entries@;
                let added = self.add_directory(segment);
                let r = added.keep(fs, &sub);
                proof {
                    lemma_keeps_trans(first, below, fs.bitmap@);
                    assert(views_of(self.entries@) =~= views_of(before).push(
                        self.entries@.last()@,
                    ));
                    lemma_directory_encoding(self);
                    lemma_touched_behind(start, self@, segment@, EntryKind::Directory);
                }
                r
            },
        }
    }
}

/// What writing `data` at offset `at` of the bytes of `entry` makes of the
/// disk and of the entry: the entry's cluster takes the blocks it lacks, and
/// the entry's size rises to the end of `data` where it was below it.
pub open spec fn placed(disk: Disk, entry: EntryView, at: int, data: Seq<u8>, page: int) -> (
    Disk,
    EntryView,
) {
    let after = all_written(Stream { disk, blocks: entry.blocks, offset: at }, data, page);
    (
        after.disk,
        EntryView {
            kind: entry.kind,
            size: if data.len() > 0 {
                raised(entry.size as int, at + data.len()) as usize
            } else {
                entry.size
            },
            name: entry.name,
            blocks: after.blocks,
        },
    )
}

/// Whether writing `data` at offset `at` of the bytes of `entry` goes
/// through. Where the store's room is known, `limit` is the number of pages
/// it has room for, and every write must fit; where it is not, the bitmap
/// must have the free blocks that the writes take, and a `usize` must hold
/// the offset at which they end.
pub open spec fn writes_at(
    disk: Disk,
    entry: EntryView,
    at: int,
    data: Seq<u8>,
    page: int,
    limit: Option<int>,
) -> bool {
    let stream = Stream { disk, blocks: entry.blocks, offset: at };
    match limit {
        Some(max_pages) => all_fit(stream, data, page, max_pages),
        None => at + data.len() <= usize::MAX && can_write(stream, data.len() as int),
    }
}

/// What a change to a file asks for: for a new, empty file, nothing; for a
/// write, the offset and the bytes.
pub open spec fn write_of(write: Option<(usize, &[u8])>) -> Option<(int, Seq<u8>)> {
    match write {
        None => None,
        Some((at, data)) => Some((at as int, data@)),
    }
}

/// What a change to the file of the name `name` makes of the disk and of the
/// directory of the entries `leaf`. Without a write, a new, empty file of
/// the name is added at the end, whether an entry has the name or not. With
/// one, the bytes are written at the offset into the first entry of the
/// name, or into a new, empty file that is added at the end where no entry
/// has the name; a directory of the name is `Other`, and bytes that cannot
/// be written are `OutOfMemory`.
pub open spec fn edited(
    disk: Disk,
    leaf: Seq<EntryView>,
    name: Seq<char>,
    write: Option<(int, Seq<u8>)>,
    page: int,
    limit: Option<int>,
) -> Result<(Disk, Seq<EntryView>), Error> {
    match write {
        None => Ok((disk, leaf.push(new_entry(EntryKind::File, name)))),
        Some((at, data)) => {
            let file = match position_of(leaf, name) {
                Some(i) => leaf[i],
                None => new_entry(EntryKind::File, name),
            };
            if file.kind == EntryKind::Directory {
                Err(Error::Other)
            } else if !writes_at(disk, file, at, data, page, limit) {
                Err(Error::OutOfMemory)
            } else {
                let (after, written) = placed(disk, file, at, data, page);
                match position_of(leaf, name) {
                    Some(i) => Ok((after, leaf.update(i, written))),
                    None => Ok((after, leaf.push(written))),
                }
            }
        },
    }
}

/// What a change to the file of the name `name` in the directory that `path`
/// leads to makes of the disk and of the directory of the entries `dir`, from
/// which the path starts. The directories on the path are read from the disk
/// as it is at the start; after the change each of them is written as the
/// bytes of its entry in the directory above it, the deepest first.
pub open spec fn updated(
    disk: Disk,
    dir: Seq<EntryView>,
    path: Seq<Seq<char>>,
    name: Seq<char>,
    write: Option<(int, Seq<u8>)>,
    page: int,
    limit: Option<int>,
) -> Result<(Disk, Seq<EntryView>), Error>
    decreases path.len(),
{
    if path.len() == 0 {
        edited(disk, dir, name, write, page, limit)
    } else {
        match step(disk.mem, dir, path[0]) {
            Err(e) => Err(e),
            Ok(sub) => match updated(disk, sub, path.drop_first(), name, write, page, limit) {
                Err(e) => Err(e),
                Ok((below, sub_updated)) => match kept(
                    below,
                    dir[position_of(dir, path[0]).unwrap()],
                    sub_updated,
                    page,
                    limit,
                ) {
                    Err(e) => Err(e),
                    Ok((after, entry)) => Ok(
                        (after, dir.update(position_of(dir, path[0]).unwrap(), entry)),
                    ),
                },
            },
        }
    }
}

/// Whether a change to the file of the name `name` in the directory that
/// `path` leads to from the directory of the entries `dir`, read from a store
/// of bytes `mem`, is refused before anything changes: the walk fails, or
/// bytes are to be written and the first entry of the name is a directory.
pub open spec fn refused(
    mem: Seq<u8>,
    dir: Seq<EntryView>,
    path: Seq<Seq<char>>,
    name: Seq<char>,
    write: Option<(int, Seq<u8>)>,
) -> bool {
    match resolve(mem, dir, path) {
        Err(_) => true,
        Ok(leaf) => write is Some && match position_of(leaf, name) {
            Some(i) => leaf[i].kind == EntryKind::Directory,
            None => false,
        },
    }
}

/// Writing into an entry keeps it sound and frees no block.
pub proof fn lemma_placed_sound(disk: Disk, entry: EntryView, at: int, data: Seq<u8>, page: int)
    requires
        disk.bits.len() <= usize::MAX,
        0 <= at,
        writes_at(disk, entry, at, data, page, None),
    ensures
        keeps(disk.bits, placed(disk, entry, at, data, page).0.bits),
        entry_sound(disk.bits, entry) ==> entry_sound(
            placed(disk, entry, at, data, page).0.bits,
            placed(disk, entry, at, data, page).1,
        ),
{
    let stream = Stream { disk, blocks: entry.blocks, offset: at };
    lemma_all_written_keeps(stream, data, page);
    if entry_sound(disk.bits, entry) {
        lemma_all_written_covered(stream, data, page);
    }
}

/// A change to a file frees no block, and keeps the entries of the directory
/// that the path starts from sound: where every entry of `dir` is sound, so
/// is every entry of the directory that `updated` gives.
pub proof fn lemma_updated_sound(
    disk: Disk,
    dir: Seq<EntryView>,
    path: Seq<Seq<char>>,
    name: Seq<char>,
    write: Option<(int, Seq<u8>)>,
    page: int,
)
    requires
        disk.bits.len() <= usize::MAX,
        write matches Some((at, _)) ==> 0 <= at,
        updated(disk, dir, path, name, write, page, None) is Ok,
    ensures
        keeps(disk.bits, updated(disk, dir, path, name, write, page, None)->Ok_0.0.bits),
        all_sound(disk.bits, dir) ==> all_sound(
            updated(disk, dir, path, name, write, page, None)->Ok_0.0.bits,
            updated(disk, dir, path, name, write, page, None)->Ok_0.1,
        ),
    decreases path.len(),
{
    let (after, result) = updated(disk, dir, path, name, write, page, None)->Ok_0;
    if path.len() == 0 {
        lemma_position_of(dir, name);
        match write {
            None => {
                if all_sound(disk.bits, dir) {
                    assert forall|k: int| 0 <= k < result.len() implies entry_sound(
                        after.bits,
                        #[trigger] result[k],
                    ) by {
                        if k < dir.len() {
                            assert(entry_sound(disk.bits, dir[k]));
                        }
                    }
                }
            },
            Some((at, data)) => {
                let file = match position_of(dir, name) {
                    Some(i) => dir[i],
                    None => new_entry(EntryKind::File, name),
                };
                lemma_placed_sound(disk, file, at, data, page);
                let written = placed(disk, file, at, data, page).1;
                if all_sound(disk.bits, dir) {
                    if position_of(dir, name) is Some {
                        assert(entry_sound(disk.bits, file));
                    }
                    assert forall|k: int| 0 <= k < result.len() implies entry_sound(
                        after.bits,
                        #[trigger] result[k],
                    ) by {
                        if result[k] != written {
                            assert(entry_sound(disk.bits, dir[k]));
                            lemma_sound_kept(disk.bits, after.bits, dir[k]);
                        }
                    }
                }
            },
        }
    } else {
        lemma_position_of(dir, path[0]);
        let i = position_of(dir, path[0]).unwrap();
        let sub = entries_of(disk.mem, dir[i]).unwrap();
        lemma_updated_sound(disk, sub, path.drop_first(), name, write, page);
        let (below, sub_updated) = updated(disk, sub, path.drop_first(), name, write, page, None)->Ok_0;
        let data = directory_encoding(sub_updated);
        lemma_stored_sound(below, dir[i], data, page);
        let written = stored(below, dir[i], data, page).1;
        lemma_keeps_trans(disk.bits, below.bits, after.bits);
        if all_sound(disk.bits, dir) {
            assert(entry_sound(disk.bits, dir[i]));
            lemma_sound_kept(disk.bits, below.bits, dir[i]);
            assert forall|k: int| 0 <= k < result.len() implies entry_sound(
                after.bits,
                #[trigger] result[k],
            ) by {
                if result[k] != written {
                    assert(entry_sound(disk.bits, dir[k]));
                    lemma_sound_kept(disk.bits, after.bits, dir[k]);
                }
            }
        }
    }
}

impl Directory {
    /// Changes the file of the name `name` in this directory in `fs`, as
    /// `edited` says. Bytes for a directory are refused before anything
    /// changes. Where a write fails, every entry but the one of the name is
    /// as it was.
    #[verifier::rlimit(60)]
    pub fn edit<M: Memory>(
        &mut self,
        fs: &mut FileSystem<M>,
        name: &str,
        write: Option<(usize, &[u8])>,
    ) -> (r: Result<(), Error>)
        ensures
            final(fs).root_cluster == old(fs).root_cluster,
            final(fs).memory.steady() == old(fs).memory.steady(),
            final(fs).memory.bytes().len() >= old(fs).memory.bytes().len(),
            keeps(old(fs).bitmap@, final(fs).bitmap@),
            refused(old(fs).memory.bytes(), old(self)@, Seq::empty(), name@, write_of(write)) ==> r
                == Err::<(), Error>(Error::Other) && *final(self) == *old(self) && *final(fs)
                == *old(fs),
            write is Some ==> touched(old(self)@, final(self)@, name@, EntryKind::File),
            r is Ok ==> edited(
                old(fs).disk(),
                old(self)@,
                name@,
                write_of(write),
                M::PAGE_SIZE as int,
                None,
            ) == Ok::<(Disk, Seq<EntryView>), Error>((final(fs).disk(), final(self)@)),
            old(fs).memory.steady() ==> match edited(
                old(fs).disk(),
                old(self)@,
                name@,
                write_of(write),
                M::PAGE_SIZE as int,
                Some(M::MAX_PAGES as int),
            ) {
                Ok(after) => r is Ok && after == (final(fs).disk(), final(self)@),
                Err(e) => r == Err::<(), Error>(e),
            },
    {
        let ghost before = self.entries@;
        let ghost start = self@;
        proof {
            lemma_directory_encoding(self);
            lemma_touched_same(start, name@, EntryKind::File);
        }
        match write {
            None => {
                let _ = self.add_file(name);
                proof {
                    assert(views_of(self.entries@) =~= views_of(before).push(
                        new_entry(EntryKind::File, name@),
                    ));
                    lemma_directory_encoding(self);
                }
                Ok(())
            },
            Some((at, data)) => {
                let file = match self.file_with_name_or_create_mut(name) {
                    Ok(file) => file,
                    Err(e) => {
                        return Err(e);
                    },
                };
                let mut writer = file.write_to_file_system(fs);
                let sought = if at > 0 {
                    match writer.seek(SeekFrom::Start(at as u64)) {
                        Ok(_) => Ok(()),
                        Err(e) => Err(e),
                    }
                } else {
                    Ok(())
                };
                let r = match sought {
                    Ok(()) => writer.write_all(data),
                    Err(e) => Err(e),
                };
                proof {
                    lemma_directory_encoding(self);
                    match position_of(start, name@) {
                        Some(i) => {
                            assert(views_of(self.entries@) =~= views_of(before).update(
                                i,
                                self.entries@[i]@,
                            ));
                            lemma_touched_at(start, self@, i, name@, EntryKind::File);
                        },
                        None => {
                            assert(views_of(self.entries@) =~= views_of(before).push(
                                self.entries@.last()@,
                            ));
                            lemma_touched_behind(start, self@, name@, EntryKind::File);
                        },
                    }
                }
                r
            },
        }
    }

    /// Changes the file of the name `name` in the directory that `path`
    /// leads to from this one in `fs`, and writes the directories on the
    /// path back, as `updated` says. A walk that fails, and bytes for a
    /// directory, are refused before anything changes. Where a write fails,
    /// every entry of this directory but the one of the first name is as it
    /// was.
    #[verifier::rlimit(60)]
    pub fn update<M: Memory>(
        &mut self,
        fs: &mut FileSystem<M>,
        path: &[&str],
        name: &str,
        write: Option<(usize, &[u8])>,
    ) -> (r: Result<(), Error>)
        ensures
            final(fs).root_cluster == old(fs).root_cluster,
            final(fs).memory.steady() == old(fs).memory.steady(),
            final(fs).memory.bytes().len() >= old(fs).memory.bytes().len(),
            keeps(old(fs).bitmap@, final(fs).bitmap@),
            refused(old(fs).memory.bytes(), old(self)@, names(path@), name@, write_of(write))
                ==> r is Err && *final(self) == *old(self) && *final(fs) == *old(fs),
            path@.len() > 0 ==> touched(
                old(self)@,
                final(self)@,
                names(path@)[0],
                EntryKind::Directory,
            ),
            path@.len() == 0 && write is Some ==> touched(
                old(self)@,
                final(self)@,
                name@,
                EntryKind::File,
            ),
            r is Ok ==> updated(
                old(fs).disk(),
                old(self)@,
                names(path@),
                name@,
                write_of(write),
                M::PAGE_SIZE as int,
                None,
            ) == Ok::<(Disk, Seq<EntryView>), Error>((final(fs).disk(), final(self)@)),
            old(fs).memory.steady() ==> match updated(
                old(fs).disk(),
                old(self)@,
                names(path@),
                name@,
                write_of(write),
                M::PAGE_SIZE as int,
                Some(M::MAX_PAGES as int),
            ) {
                Ok(after) => r is Ok && after == (final(fs).disk(), final(self)@),
                Err(e) => r == Err::<(), Error>(e),
            },
        decreases path@.len(),
    {
        if path.len() == 0 {
            proof {
                assert(names(path@) =~= Seq::<Seq<char>>::empty());
            }
            return self.edit(fs, name, write);
        }
        let segment = path[0];
        let rest = vstd::slice::slice_subrange(path, 1, path.len());
        let ghost first = fs.bitmap@;
        let ghost start = self@;
        proof {
            assert(names(rest@) =~= names(path@).drop_first());
            assert(names(path@)[0] == segment@);
            lemma_directory_encoding(self);
            lemma_position_of(self@, segment@);
            lemma_touched_same(start, segment@, EntryKind::Directory);
        }
        let mut sub = self.enter(fs, segment)?;
        match sub.update(fs, rest, name, write) {
            Ok(()) => {},
            Err(e) => {
                return Err(e);
            },
        }
        match self.position(segment) {
            None => Err(Error::NotFound),
            Some(i) => {
                let ghost below = fs.bitmap@;
                let ghost before = self.entries@;
                let r = self.entries[i].keep(fs, &sub);
                proof {
                    lemma_keeps_trans(first, below, fs.bitmap@);
                    assert(views_of(self.entries@) =~= views_of(before).update(
                        i as int,
                        self.entries@[i as int]@,
                    ));
                    lemma_directory_encoding(self);
                    lemma_touched_at(start, self@, i as int, segment@, EntryKind::Directory);
                }
                r
            },
        }
    }
}

} // verus!
