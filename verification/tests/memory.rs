use boxfs::error::Error;
use boxfs::heap_memory::HeapMemory;
use boxfs::memory::{Memory, SeekFrom};

#[test]
fn io() {
    let mut memory = HeapMemory::default();

    {
        let mut w = memory.writer();
        w.seek(SeekFrom::Start((HeapMemory::PAGE_SIZE - 13) as _)).unwrap();
        w.write_all(b"Hello, World!").unwrap();
    }

    {
        let mut r = memory.reader();
        r.seek(SeekFrom::End(-6)).unwrap();
        let mut buf = [0u8; 6];
        r.read_exact(&mut buf).unwrap();
        assert_eq!(&buf, b"World!");
    }
}

#[test]
fn heap_memory_has_pages_of_1024_bytes() {
    assert_eq!(HeapMemory::PAGE_SIZE, 1024);
    assert_eq!(HeapMemory::MAX_PAGES, 256);
    assert_eq!(HeapMemory::MAX_SIZE, 262144);
    let mut memory = HeapMemory::default();
    assert_eq!(memory.page_count(), Ok(0));
    assert_eq!(memory.len(), Ok(0));
    assert_eq!(memory.grow(3), Ok(()));
    assert_eq!(memory.page_count(), Ok(3));
    assert_eq!(memory.len(), Ok(3072));
    assert!(memory.iter().all(|b| *b == 0));
    assert_eq!(memory.iter().count(), 3072);
}

#[test]
fn heap_memory_grows_to_its_limit_and_no_further() {
    let mut memory = HeapMemory::default();
    assert_eq!(memory.grow(256), Ok(()));
    assert_eq!(memory.grow(1), Err(Error::OutOfMemory));
    assert_eq!(memory.page_count(), Ok(256));
}

#[test]
fn a_write_past_the_end_grows_by_the_pages_that_lack() {
    let mut memory = HeapMemory::default();
    {
        let mut w = memory.writer();
        w.seek(SeekFrom::Start(1024)).unwrap();
        assert_eq!(w.write(b"x"), Ok(1));
    }
    assert_eq!(memory.page_count(), Ok(2));
    {
        let mut w = memory.writer();
        w.seek(SeekFrom::Start(2047)).unwrap();
        w.write_all(b"ab").unwrap();
    }
    assert_eq!(memory.page_count(), Ok(3));
    let mut out = [9u8; 4];
    assert_eq!(memory.read(2046, &mut out), Ok(4));
    assert_eq!(out, [0, b'a', b'b', 0]);
}

#[test]
fn a_read_stops_at_the_end_of_the_store() {
    let mut memory = HeapMemory::default();
    memory.grow(1).unwrap();
    assert_eq!(memory.write(1020, b"abcdef"), Ok(4));
    let mut r = memory.reader();
    r.seek(SeekFrom::Start(1022)).unwrap();
    let mut buf = [7u8; 4];
    assert_eq!(r.read(&mut buf), Ok(2));
    assert_eq!(buf, [b'c', b'd', 7, 7]);
    assert_eq!(r.read(&mut buf), Ok(0));
    r.seek(SeekFrom::Start(5000)).unwrap();
    assert_eq!(r.read(&mut buf), Ok(0));
    r.seek(SeekFrom::Start(1022)).unwrap();
    assert_eq!(r.read_exact(&mut buf), Err(Error::InvalidInput));
    r.seek(SeekFrom::Start(1022)).unwrap();
    assert_eq!(r.read_up_to(10), Ok(vec![b'c', b'd']));
}

#[test]
fn a_seek_below_zero_is_refused() {
    let mut memory = HeapMemory::default();
    memory.grow(1).unwrap();
    let mut r = memory.reader();
    assert_eq!(r.seek(SeekFrom::Current(-1)), Err(Error::InvalidInput));
    assert_eq!(r.seek(SeekFrom::End(-1025)), Err(Error::InvalidInput));
    assert_eq!(r.seek(SeekFrom::End(-1024)), Ok(0));
    assert_eq!(r.seek(SeekFrom::Current(10)), Ok(10));
    assert_eq!(r.seek(SeekFrom::Current(-4)), Ok(6));
    assert_eq!(SeekFrom::Start(3).resolve(7, 0), Ok(3));
}

fn pages<M: Memory>(memory: M) -> usize {
    memory.page_count().unwrap()
}

#[test]
fn a_store_behind_a_reference_is_a_store() {
    let mut memory = HeapMemory::default();
    memory.grow(2).unwrap();
    assert_eq!(pages(&mut memory), 2);
}

#[test]
fn a_write_that_the_store_cannot_grow_for_fails() {
    let mut memory = HeapMemory::default();
    {
        let mut w = memory.writer();
        w.seek(SeekFrom::Start(256 * 1024 - 1)).unwrap();
        assert_eq!(w.write_all(b"ab"), Err(Error::OutOfMemory));
    }
    assert_eq!(memory.page_count(), Ok(0));
    {
        let mut w = memory.writer();
        w.seek(SeekFrom::Start(256 * 1024 - 1)).unwrap();
        assert_eq!(w.write_all(b"a"), Ok(()));
        assert_eq!(w.flush(), Ok(()));
        assert_eq!(w.offset, 256 * 1024);
    }
    assert_eq!(memory.page_count(), Ok(256));
}

#[test]
fn a_store_behind_a_reference_has_the_sizes_of_the_store() {
    assert_eq!(<&mut HeapMemory as Memory>::PAGE_SIZE, 1024);
    assert_eq!(<&mut HeapMemory as Memory>::MAX_PAGES, 256);
    assert_eq!(<&mut HeapMemory as Memory>::MAX_SIZE, 262144);
}

#[test]
fn a_write_that_fails_leaves_the_store_as_it_was() {
    let mut memory = HeapMemory::default();
    memory.grow(1).unwrap();
    {
        let mut w = memory.writer();
        w.seek(SeekFrom::Start(262144)).unwrap();
        assert_eq!(w.write(b"x"), Err(Error::OutOfMemory));
        assert_eq!(w.write_all(b"x"), Err(Error::OutOfMemory));
        assert_eq!(w.offset, 262144);
    }
    assert_eq!(memory.page_count(), Ok(1));
    assert!(memory.iter().all(|b| *b == 0));
}
