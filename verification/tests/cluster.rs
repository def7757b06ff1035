use boxfs::bitmap::{BitState, Bitmap};
use boxfs::block::Block;
use boxfs::cluster::Cluster;
use boxfs::error::Error;
use boxfs::heap_memory::HeapMemory;
use boxfs::memory::{Memory, SeekFrom};
use boxfs::serde::{Deserialize, Serialize};

#[test]
fn reader() {
    let mut heap = HeapMemory::default();

    {
        let mut w = heap.writer();
        w.write(b"FIRST BLOCK START").unwrap();
        w.seek(SeekFrom::Start((Block::SIZE * 2) as u64))
            .unwrap();
        w.write(b"THIRD BLOCK START").unwrap();
    }

    let mut cluster = Cluster::default();
    cluster.extend(Block::at(2));
    cluster.extend(Block::at(0));

    let mut data = [0u8; Block::SIZE * 2];

    let mut r = cluster.reader(heap.reader());
    r.read_exact(&mut data).unwrap();

    assert_eq!(&data[..17], b"THIRD BLOCK START");
    assert_eq!(&data[Block::SIZE..Block::SIZE + 17], b"FIRST BLOCK START");
}

#[test]
fn writer() {
    let mut heap = HeapMemory::default();
    let mut bitmap = Bitmap::new::<HeapMemory>();
    let mut cluster = Cluster::default();

    {
        bitmap.occupy(0);
        cluster.extend(Block::at(0));

        bitmap.occupy(2);
        cluster.extend(Block::at(2));

        let mut writer = cluster.writer(&mut bitmap, heap.writer());
        writer
            .seek(SeekFrom::Start((Block::SIZE * 2 - 1) as _))
            .unwrap();

        // This will write "H" at the end of the second block with index 2
        // and then add a block at index 1 and write "ello World!" there.
        writer.write_all(b"Hello World!").unwrap();
    }

    assert_eq!(bitmap[1], BitState::Occupied);
    assert_eq!(
        cluster.blocks(),
        &vec![Block::at(0), Block::at(2), Block::at(1)]
    );

    let mut reader = heap.reader();
    reader
        .seek(SeekFrom::Start((Block::SIZE * 3 - 1) as _))
        .unwrap();

    let mut last_char = [0u8; 1];
    reader.read_exact(&mut last_char).unwrap();

    assert_eq!(&last_char, b"H");

    reader.seek(SeekFrom::Start(Block::SIZE as _)).unwrap();

    let mut first_chars = [0u8; b"ello World!".len()];
    reader.read_exact(&mut first_chars).unwrap();

    assert_eq!(&first_chars, b"ello World!");
}

#[test]
fn cluster_serde() {
    let mut cluster = Cluster::default();
    // Range 1   (1 -> 2)
    cluster.extend(Block::at(1));
    cluster.extend(Block::at(2));
    cluster.extend(Block::at(3));
    // Range 2   (5)
    cluster.extend(Block::at(5));

    let mut data = vec![];
    cluster.serialize(&mut data).unwrap();

    assert_eq!(&data, &vec![
        // the number of ranges (2)
        0b0000_0000, 0b0000_0000, 0b0000_0000, 0b0000_0010,

        // Range 1: the high bit marks a range of several indices, then the start index (1)
        0b1000_0000, 0b0000_0000, 0b0000_0000, 0b0000_0001,
        // the length of the range (3)
        0b0000_0000, 0b0000_0000, 0b0000_0000, 0b0000_0011,

        // Range 2: a single index (5)
        0b0000_0000, 0b0000_0000, 0b0000_0000, 0b0000_0101,
    ]);

    let mut cluster2 = Cluster::default();
    cluster2.deserialize(&*data).unwrap();
    assert_eq!(cluster, cluster2);
}

fn cluster_of(indices: &[usize]) -> Cluster {
    let mut cluster = Cluster::default();
    for i in indices {
        cluster.extend(Block::at(*i));
    }
    cluster
}

#[test]
fn runs_follow_the_order_of_the_blocks() {
    let cluster = cluster_of(&[3, 4, 5, 2, 6]);
    let mut data = vec![];
    assert_eq!(cluster.serialize(&mut data), Ok(20));
    assert_eq!(
        data,
        vec![0, 0, 0, 3, 0x80, 0, 0, 3, 0, 0, 0, 3, 0, 0, 0, 2, 0, 0, 0, 6]
    );
    assert_eq!(Cluster::deserialize_into_default(&data), Ok(cluster));
}

#[test]
fn an_empty_cluster_is_four_zero_bytes() {
    let mut data = vec![];
    assert_eq!(Cluster::default().serialize(&mut data), Ok(4));
    assert_eq!(data, vec![0, 0, 0, 0]);
    assert_eq!(Cluster::deserialize_into_default(&data), Ok(Cluster::default()));
}

#[test]
fn a_block_index_of_31_bits_at_most_is_written() {
    let mut data = vec![7];
    assert_eq!(cluster_of(&[0x7fff_ffff]).serialize(&mut data), Ok(8));
    assert_eq!(data, vec![7, 0, 0, 0, 1, 0x7f, 0xff, 0xff, 0xff]);
    let mut data = vec![7];
    assert_eq!(
        cluster_of(&[1, 0x8000_0000]).serialize(&mut data),
        Err(Error::InvalidInput)
    );
    assert_eq!(data, vec![7]);
}

#[test]
fn a_cluster_that_ends_too_early_does_not_decode() {
    let mut cluster = cluster_of(&[9]);
    assert_eq!(cluster.deserialize(&[0, 0, 0]), Err(Error::InvalidInput));
    assert_eq!(
        cluster.deserialize(&[0, 0, 0, 2, 0, 0, 0, 1]),
        Err(Error::InvalidInput)
    );
    assert_eq!(
        cluster.deserialize(&[0, 0, 0, 1, 0x80, 0, 0, 1, 0, 0]),
        Err(Error::InvalidInput)
    );
    assert_eq!(cluster, cluster_of(&[9]));
    assert_eq!(
        cluster.deserialize(&[0, 0, 0, 1, 0x80, 0, 0, 1, 0, 0, 0, 2, 0xaa]),
        Ok(12)
    );
    assert_eq!(cluster, cluster_of(&[9, 1, 2]));
}

#[test]
fn a_cluster_counts_512_bytes_for_each_block() {
    assert_eq!(Cluster::default().len(), 0);
    assert_eq!(cluster_of(&[4, 1, 7]).len(), 1536);
    assert_eq!((Block::at(4) + 3).index, 7);
}

#[test]
fn one_read_stays_in_one_block() {
    let mut heap = HeapMemory::default();
    heap.grow(2).unwrap();
    let data: Vec<u8> = (0..2048).map(|i| (i % 251) as u8).collect();
    assert_eq!(heap.write(0, &data), Ok(2048));

    let cluster = cluster_of(&[3, 1]);
    let mut r = cluster.reader(heap.reader());
    r.seek(SeekFrom::Start(500)).unwrap();
    let mut buf = [0u8; 100];
    assert_eq!(r.read(&mut buf), Ok(12));
    assert_eq!(&buf[..12], &data[3 * 512 + 500..4 * 512]);
    assert_eq!(r.offset, 512);
    assert_eq!(r.read(&mut buf), Ok(100));
    assert_eq!(&buf[..], &data[512..612]);

    r.seek(SeekFrom::Start(1024)).unwrap();
    assert_eq!(r.read(&mut buf), Ok(0));
    r.seek(SeekFrom::End(-1)).unwrap();
    assert_eq!(r.offset, 1023);
    assert_eq!(r.read_exact(&mut buf[..2]), Err(Error::InvalidInput));

    r.seek(SeekFrom::Start(0)).unwrap();
    let mut all = vec![1, 2];
    assert_eq!(r.read_to_end(&mut all), Ok(1024));
    assert_eq!(&all[2..514], &data[1536..2048]);
    assert_eq!(&all[514..], &data[512..1024]);
}

#[test]
fn a_block_past_the_end_of_the_store_ends_the_stream() {
    let mut heap = HeapMemory::default();
    heap.grow(1).unwrap();
    let cluster = cluster_of(&[1, 2, 0]);
    let mut r = cluster.reader(heap.reader());
    let mut all = vec![];
    assert_eq!(r.read_to_end(&mut all), Ok(512));
}

#[test]
fn one_byte_at_the_end_of_a_block_takes_one_block_and_the_next_byte_a_second() {
    let mut heap = HeapMemory::default();
    let mut bitmap = Bitmap::new::<HeapMemory>();
    let mut cluster = Cluster::default();
    {
        let mut w = cluster.writer(&mut bitmap, heap.writer());
        w.seek(SeekFrom::Start(511)).unwrap();
        assert_eq!(w.write(b"a"), Ok(1));
        assert_eq!(w.cluster.blocks().len(), 1);
        assert_eq!(w.write(b"b"), Ok(1));
        assert_eq!(w.cluster.blocks().len(), 2);
        assert_eq!(w.offset, 513);
    }
    assert_eq!(cluster, cluster_of(&[0, 1]));

    let mut cluster = cluster_of(&[5, 6]);
    {
        let mut w = cluster.writer(&mut bitmap, heap.writer());
        w.seek(SeekFrom::Start(3 * 512 - 1)).unwrap();
        assert_eq!(w.write(b"ab"), Ok(1));
        assert_eq!(w.cluster.blocks().len(), 3);
        assert_eq!(w.write(b"b"), Ok(1));
        assert_eq!(w.cluster.blocks().len(), 4);
    }
    assert_eq!(cluster, cluster_of(&[5, 6, 2, 3]));
}

#[test]
fn a_write_far_into_an_empty_cluster_takes_every_block_up_to_it() {
    let mut heap = HeapMemory::default();
    let mut bitmap = Bitmap::new::<HeapMemory>();
    bitmap.occupy(1);
    let mut cluster = Cluster::default();
    {
        let mut w = cluster.writer(&mut bitmap, heap.writer());
        w.seek(SeekFrom::Start(3 * 512 - 1)).unwrap();
        assert_eq!(w.write(b"a"), Ok(1));
        assert_eq!(w.flush(), Ok(()));
    }
    assert_eq!(cluster, cluster_of(&[0, 2, 3]));
    assert_eq!(heap.page_count(), Ok(2));
    let mut byte = [0u8];
    assert_eq!(heap.read(3 * 512 + 511, &mut byte), Ok(1));
    assert_eq!(byte, [b'a']);
}

#[test]
fn a_full_bitmap_fails_a_write_that_needs_a_block() {
    let mut heap = HeapMemory::default();
    let mut bitmap = Bitmap::new::<HeapMemory>();
    for _ in 0..511 {
        bitmap.occupy_next().unwrap();
    }
    let mut cluster = Cluster::default();
    {
        let mut w = cluster.writer(&mut bitmap, heap.writer());
        assert_eq!(w.write_all(&[1u8; 513]), Err(Error::OutOfMemory));
        assert_eq!(w.offset, 512);
    }
    assert_eq!(cluster, cluster_of(&[511]));
    assert_eq!(bitmap.occupy_next(), None);
}

fn bits_of(bitmap: &Bitmap) -> Vec<BitState> {
    let mut bits = vec![];
    let mut it = bitmap.iter();
    while let Some(state) = it.next() {
        bits.push(state);
    }
    bits
}

#[test]
fn a_write_that_finds_no_free_block_changes_nothing() {
    let mut heap = HeapMemory::default();
    let mut bitmap = Bitmap::new::<HeapMemory>();
    for _ in 0..512 {
        bitmap.occupy_next().unwrap();
    }
    let mut cluster = Cluster::default();
    {
        let mut w = cluster.writer(&mut bitmap, heap.writer());
        assert_eq!(w.write(b"x"), Err(Error::OutOfMemory));
        assert_eq!(w.write_all(b"x"), Err(Error::OutOfMemory));
        assert_eq!(w.offset, 0);
    }
    assert_eq!(cluster, Cluster::default());
    assert_eq!(heap.page_count(), Ok(0));
    assert!(bits_of(&bitmap).iter().all(|state| *state == BitState::Occupied));
}

#[test]
fn a_write_that_runs_out_of_blocks_keeps_the_blocks_it_took() {
    let mut heap = HeapMemory::default();
    let mut bitmap = Bitmap::new::<HeapMemory>();
    for _ in 0..510 {
        bitmap.occupy_next().unwrap();
    }
    let mut cluster = Cluster::default();
    {
        let mut w = cluster.writer(&mut bitmap, heap.writer());
        w.seek(SeekFrom::Start(3 * 512)).unwrap();
        assert_eq!(w.write(b"x"), Err(Error::OutOfMemory));
        assert_eq!(w.offset, 3 * 512);
    }
    assert_eq!(cluster, cluster_of(&[510, 511]));
    assert_eq!(bitmap.get(510), BitState::Occupied);
    assert_eq!(bitmap.get(511), BitState::Occupied);
    assert_eq!(heap.page_count(), Ok(0));
}

#[test]
fn bytes_written_through_a_cluster_are_read_back_through_it() {
    let mut heap = HeapMemory::default();
    let mut bitmap = Bitmap::new::<HeapMemory>();
    bitmap.occupy(0);
    bitmap.occupy(2);
    bitmap.occupy(3);
    let mut cluster = cluster_of(&[3, 0]);
    let data: Vec<u8> = (0..2000u32).map(|i| (i % 251) as u8).collect();
    {
        let mut w = cluster.writer(&mut bitmap, heap.writer());
        w.seek(SeekFrom::Start(100)).unwrap();
        assert_eq!(w.write_all(&data), Ok(()));
    }
    assert_eq!(cluster, cluster_of(&[3, 0, 1, 4, 5]));
    let mut back = vec![0u8; 2000];
    let mut r = cluster.reader(heap.reader());
    r.seek(SeekFrom::Start(100)).unwrap();
    assert_eq!(r.read_exact(&mut back), Ok(()));
    assert_eq!(back, data);
}
