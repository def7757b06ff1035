use boxfs::bitmap::{BitState, Bitmap};
use boxfs::block::Block;
use boxfs::cluster::Cluster;
use boxfs::directory::{same_text, Directory, Entry, EntryKind};
use boxfs::error::Error;
use boxfs::file_system::FileSystem;
use boxfs::heap_memory::HeapMemory;
use boxfs::memory::{Memory, SeekFrom};
use boxfs::serde::{Deserialize, Serialize};

#[test]
fn a_kind_is_one_byte() {
    let mut buf = vec![];
    assert_eq!(EntryKind::File.serialize(&mut buf), Ok(1));
    assert_eq!(EntryKind::Directory.serialize(&mut buf), Ok(1));
    assert_eq!(buf, vec![1, 2]);
    let mut kind = EntryKind::File;
    assert_eq!(kind.deserialize(&[2, 9]), Ok(1));
    assert_eq!(kind, EntryKind::Directory);
    assert_eq!(kind.deserialize(&[1]), Ok(1));
    assert_eq!(kind, EntryKind::File);
    assert_eq!(kind.deserialize(&[0]), Err(Error::InvalidInput));
    assert_eq!(kind.deserialize(&[3]), Err(Error::InvalidInput));
    assert_eq!(kind.deserialize(&[]), Err(Error::InvalidInput));
    assert_eq!(EntryKind::default(), EntryKind::File);
}

#[test]
fn an_entry_is_its_kind_name_size_and_blocks() {
    let mut entry = Entry::new("ab");
    entry.kind = EntryKind::Directory;
    entry.size = 0x0102;
    entry.cluster.extend(Block::at(4));
    entry.cluster.extend(Block::at(5));
    let mut buf = vec![];
    assert_eq!(entry.serialize(&mut buf), Ok(31));
    assert_eq!(
        buf,
        vec![
            2, // the kind
            0, 0, 0, 0, 0, 0, 0, 2, b'a', b'b', // the name
            0, 0, 0, 0, 0, 0, 1, 2, // the size
            0, 0, 0, 1, 0x80, 0, 0, 4, 0, 0, 0, 2, // the blocks
        ]
    );

    buf.push(0xee);
    let back = Entry::deserialize_into_default(&buf).unwrap();
    assert_eq!(back.kind, EntryKind::Directory);
    assert_eq!(back.name, "ab");
    assert_eq!(back.size, 0x0102);
    assert_eq!(back.cluster.blocks(), &[Block::at(4), Block::at(5)]);

    let mut kept = Entry::new("kept");
    assert_eq!(kept.deserialize(&buf[..30]), Err(Error::InvalidInput));
    assert_eq!(kept.name, "kept");
    buf[0] = 7;
    assert_eq!(kept.deserialize(&buf), Err(Error::InvalidInput));
}

#[test]
fn a_directory_is_the_number_of_its_entries_and_the_entries() {
    let mut dir = Directory::default();
    let mut buf = vec![];
    assert_eq!(dir.serialize(&mut buf), Ok(8));
    assert_eq!(buf, vec![0; 8]);

    dir.add_file("f").size = 3;
    dir.add_directory("d").cluster.extend(Block::at(12));
    let mut buf = vec![];
    assert_eq!(dir.serialize(&mut buf), Ok(8 + 22 + 26));
    assert_eq!(&buf[..9], &[0, 0, 0, 0, 0, 0, 0, 2, 1]);

    let back = Directory::deserialize_into_default(&buf).unwrap();
    assert_eq!(back.entries.len(), 2);
    assert_eq!(back.entries[0].name, "f");
    assert_eq!(back.entries[0].kind, EntryKind::File);
    assert_eq!(back.entries[0].size, 3);
    assert_eq!(back.entries[0].cluster, Cluster::default());
    assert_eq!(back.entries[1].name, "d");
    assert_eq!(back.entries[1].kind, EntryKind::Directory);
    assert_eq!(back.entries[1].cluster.blocks(), &[Block::at(12)]);

    assert_eq!(
        Directory::deserialize_into_default(&buf[..buf.len() - 1]).err(),
        Some(Error::InvalidInput)
    );
}

#[test]
fn the_first_entry_of_a_name_is_found() {
    let mut dir = Directory::default();
    dir.add_file("a").size = 1;
    dir.add_directory("b");
    dir.add_file("a").size = 2;
    assert_eq!(dir.position("a"), Some(0));
    assert_eq!(dir.position("b"), Some(1));
    assert_eq!(dir.position("A"), None);
    assert_eq!(dir.entry_with_name("a").unwrap().size, 1);
    assert!(dir.entry_with_name("c").is_none());
    dir.entry_with_name_mut("a").unwrap().size = 9;
    assert_eq!(dir.entries[0].size, 9);
    assert_eq!(dir.entries[2].size, 2);
    assert!(dir.entry_with_name_mut("c").is_none());
    assert!(same_text("caf\u{e9}", "caf\u{e9}"));
    assert!(!same_text("cafe", "caf\u{e9}"));
    assert!(!same_text("a", "ab"));
}

#[test]
fn a_file_is_found_or_made_and_a_directory_is_in_the_way() {
    let mut dir = Directory::default();
    dir.add_directory("d");
    dir.add_file("f").size = 4;
    assert_eq!(dir.file_with_name_or_create_mut("f").unwrap().size, 4);
    assert_eq!(dir.entries.len(), 2);
    assert_eq!(
        dir.file_with_name_or_create_mut("d").err(),
        Some(Error::Other)
    );
    assert_eq!(dir.entries.len(), 2);
    let made = dir.file_with_name_or_create_mut("new").unwrap();
    assert_eq!(made.kind, EntryKind::File);
    assert_eq!(made.size, 0);
    assert_eq!(dir.entries.len(), 3);
    assert_eq!(dir.entries[2].name, "new");
}

#[test]
fn an_entry_writer_raises_the_size_to_where_its_writes_end() {
    let mut heap = HeapMemory::default();
    let mut bitmap = Bitmap::new::<HeapMemory>();
    let mut entry = Entry::new("f");
    let mut cluster = Cluster::default();
    {
        let mut w = entry.writer(cluster.writer(&mut bitmap, heap.writer()));
        assert_eq!(w.write(b"abc"), Ok(3));
        assert_eq!(*w.entry_size, 3);
        w.seek(SeekFrom::Start(1)).unwrap();
        assert_eq!(w.write(b"x"), Ok(1));
        assert_eq!(*w.entry_size, 3);
        w.seek(SeekFrom::Start(510)).unwrap();
        assert_eq!(w.write(b"1234"), Ok(2));
        assert_eq!(*w.entry_size, 512);
        assert_eq!(w.write_all(b"34"), Ok(()));
        assert_eq!(*w.entry_size, 514);
        assert_eq!(w.flush(), Ok(()));
    }
    assert_eq!(entry.size, 514);
    assert_eq!(cluster.blocks(), &[Block::at(0), Block::at(1)]);

    let mut r = entry.reader(cluster.reader(heap.reader()));
    let mut buf = [0u8; 4];
    assert_eq!(r.read_exact(&mut buf), Ok(()));
    assert_eq!(&buf, b"axc\0");
    r.seek(SeekFrom::End(-514)).unwrap();
    assert_eq!(r.offset, 510);
    assert_eq!(r.read(&mut buf), Ok(2));
    assert_eq!(&buf[..2], b"12");
    assert_eq!(r.read(&mut buf), Ok(2));
    assert_eq!(&buf[..2], b"34");
    assert_eq!(r.read(&mut buf), Ok(0));
    r.seek(SeekFrom::Start(512)).unwrap();
    assert_eq!(r.read_exact(&mut buf), Err(Error::InvalidInput));
}

fn check_tree(fs: &FileSystem<HeapMemory>, dir: &Directory, count: &mut usize) {
    for entry in dir.entries.iter() {
        *count += 1;
        assert!(entry.size <= 512 * entry.cluster.blocks().len());
        for block in entry.cluster.blocks() {
            assert_eq!(fs.bitmap[block.index], BitState::Occupied);
        }
        if entry.kind == EntryKind::Directory {
            let sub = entry.read_from_file_system(fs).read_directory().unwrap();
            check_tree(fs, &sub, count);
        }
    }
}

#[test]
fn every_entry_stays_within_its_cluster_and_its_cluster_within_the_bitmap() {
    let mut fs = FileSystem::new(HeapMemory::default()).unwrap();
    fs.create_directory(&["a", "b", "c"]).unwrap();
    fs.write_file(&["a", "one"], &[1u8; 700], None).unwrap();
    fs.write_file(&["a", "b", "two"], &[2u8; 5], Some(1500)).unwrap();
    fs.create_file(&["a", "b", "c", "three"]).unwrap();
    fs.write_file(&["top"], &[3u8; 512], None).unwrap();
    fs.create_directory(&["a", "x"]).unwrap();

    let root = fs.read_root_directory().unwrap();
    let mut count = 0;
    check_tree(&fs, &root, &mut count);
    assert_eq!(count, 8);
    for block in fs.root_cluster.blocks() {
        assert_eq!(fs.bitmap[block.index], BitState::Occupied);
    }
    for i in 0..FileSystem::<HeapMemory>::preamble_blocks() {
        assert_eq!(fs.bitmap[i], BitState::Occupied);
    }
}

#[test]
fn a_directory_is_entered_by_name_and_kept_in_its_entry() {
    let mut fs = FileSystem::new(HeapMemory::default()).unwrap();
    let mut root = Directory::default();
    root.add_file("f");
    let mut sub = Directory::default();
    sub.add_file("inner").size = 0;
    assert_eq!(root.add_directory("d").keep(&mut fs, &sub), Ok(()));
    assert_eq!(root.entries[1].size, 8 + 1 + 8 + 5 + 8 + 4);
    assert_eq!(root.entries[1].cluster.blocks(), &[Block::at(10)]);
    assert_eq!(fs.bitmap[10], BitState::Occupied);

    let back = root.enter(&fs, "d").unwrap();
    assert_eq!(back.entries.len(), 1);
    assert_eq!(back.entries[0].name, "inner");
    assert_eq!(root.enter(&fs, "f").err(), Some(Error::InvalidInput));
    assert_eq!(root.enter(&fs, "nope").err(), Some(Error::NotFound));

    root.entries[1].size = 7;
    assert_eq!(root.enter(&fs, "d").err(), Some(Error::InvalidInput));
    root.entries[1].size = 600;
    assert_eq!(root.enter(&fs, "d").err(), Some(Error::InvalidInput));
}

struct Broken;

impl Memory for Broken {
    const PAGE_SIZE: usize = 1024;
    const MAX_PAGES: usize = 4;

    fn page_count(&self) -> Result<usize, Error> {
        Err(Error::Io)
    }

    fn grow(&mut self, _num_pages: usize) -> Result<(), Error> {
        Err(Error::Io)
    }

    fn read(&self, _offset: usize, _buf: &mut [u8]) -> Result<usize, Error> {
        Err(Error::Io)
    }

    fn write(&mut self, _offset: usize, _buf: &[u8]) -> Result<usize, Error> {
        Err(Error::Io)
    }
}

#[test]
fn a_failure_of_the_store_is_handed_up() {
    assert_eq!(FileSystem::open(Broken).err(), Some(Error::Io));
    assert_eq!(FileSystem::new(Broken).err(), Some(Error::OutOfMemory));
    let mut broken = Broken;
    assert_eq!(broken.len(), Err(Error::Io));
    assert_eq!(broken.writer().write_all(b"x"), Err(Error::Io));
    let mut buf = [0u8; 1];
    assert_eq!(broken.reader().read(&mut buf), Err(Error::Io));
    assert_eq!(broken.reader().seek(SeekFrom::End(0)), Err(Error::Io));
}

fn bits_of(bitmap: &Bitmap) -> Vec<BitState> {
    let mut bits = vec![];
    let mut it = bitmap.iter();
    while let Some(state) = it.next() {
        bits.push(state);
    }
    bits
}

#[test]
fn an_entry_writer_over_a_moved_stream_counts_from_its_own_start() {
    let mut heap = HeapMemory::default();
    let mut bitmap = Bitmap::new::<HeapMemory>();
    let mut entry = Entry::new("f");
    let mut cluster = Cluster::default();
    {
        let mut stream = cluster.writer(&mut bitmap, heap.writer());
        stream.seek(SeekFrom::Start(510)).unwrap();
        let mut w = entry.writer(stream);
        assert_eq!(w.offset, 0);
        assert_eq!(w.write(b"abcd"), Ok(2));
        assert_eq!(w.offset, 2);
        assert_eq!(w.writer.offset, 512);
        assert_eq!(*w.entry_size, 2);
        assert_eq!(w.write_all(b"cd"), Ok(()));
        assert_eq!(w.offset, 4);
        assert_eq!(w.writer.offset, 514);
        assert_eq!(*w.entry_size, 4);
        assert_eq!(w.write_directory(&Directory::default()), Ok(8));
        assert_eq!(w.offset, 12);
        assert_eq!(*w.entry_size, 12);
    }
    assert_eq!(entry.size, 12);
    assert_eq!(cluster.blocks(), &[Block::at(0), Block::at(1)]);
    let mut bytes = [0u8; 4];
    assert_eq!(heap.read(510, &mut bytes), Ok(4));
    assert_eq!(&bytes, b"abcd");
}

fn shape(dir: &Directory) -> Vec<(String, EntryKind, usize, Vec<usize>)> {
    dir.entries
        .iter()
        .map(|e| {
            (
                e.name.clone(),
                e.kind,
                e.size,
                e.cluster.blocks().iter().map(|b| b.index).collect(),
            )
        })
        .collect()
}

#[test]
fn a_file_in_the_way_stops_making_directories_before_anything_changes() {
    let mut fs = FileSystem::new(HeapMemory::default()).unwrap();
    fs.make_directory_recursive(&["a", "b"]).unwrap();
    fs.create_file(&["a", "b", "f"]).unwrap();
    let mut root = fs.read_root_directory().unwrap();
    let entries = shape(&root);
    let bitmap = fs.bitmap.clone();
    let pages = fs.memory.page_count();
    let bytes: Vec<u8> = fs.memory.iter().copied().collect();
    assert_eq!(
        root.make_directory_recursive(&mut fs, &["a", "b", "f", "c", "d"]),
        Err(Error::InvalidInput)
    );
    assert_eq!(shape(&root), entries);
    assert_eq!(bits_of(&fs.bitmap), bits_of(&bitmap));
    assert_eq!(fs.memory.page_count(), pages);
    assert!(fs.memory.iter().copied().eq(bytes.iter().copied()));
    assert_eq!(
        root.update(&mut fs, &["a", "b", "f"], "x", Some((0, b"data"))),
        Err(Error::InvalidInput)
    );
    assert_eq!(
        root.update(&mut fs, &["a"], "b", Some((0, b"data"))),
        Err(Error::Other)
    );
    assert_eq!(shape(&root), entries);
    assert_eq!(bits_of(&fs.bitmap), bits_of(&bitmap));
    assert!(fs.memory.iter().copied().eq(bytes.iter().copied()));
}

#[test]
fn a_directory_without_an_encoding_is_not_kept() {
    let mut fs = FileSystem::new(HeapMemory::default()).unwrap();
    let mut sub = Directory::default();
    sub.add_file("f").cluster.extend(Block::at(1usize << 40));
    let mut entry = Entry::new("d");
    let bitmap = fs.bitmap.clone();
    assert_eq!(entry.keep(&mut fs, &sub), Err(Error::InvalidInput));
    assert_eq!(entry.size, 0);
    assert_eq!(entry.cluster, Cluster::default());
    assert_eq!(bits_of(&fs.bitmap), bits_of(&bitmap));
}
