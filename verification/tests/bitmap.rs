use boxfs::bitmap::{BitState, Bitmap};
use boxfs::heap_memory::HeapMemory;
use boxfs::serde::{Deserialize, Serialize};

#[test]
fn bitmap() {
    let mut bitmap: Bitmap = Bitmap::new::<HeapMemory>();

    assert_eq!(bitmap[7], BitState::Free);

    bitmap.occupy(7);

    assert_eq!(bitmap[7], BitState::Occupied);

    let slots = Bitmap::len_for_memory_impl::<HeapMemory>();

    assert_eq!(bitmap[slots - 1], BitState::Free);
    assert_eq!(bitmap[0], BitState::Free);

    bitmap.occupy(slots - 1);
    bitmap.occupy(0);

    assert_eq!(bitmap[slots - 1], BitState::Occupied);
    assert_eq!(bitmap[0], BitState::Occupied);

    bitmap.free(slots - 1);
    assert_eq!(bitmap[slots - 1], BitState::Free);
}

#[test]
fn bitmap_has_one_bit_for_each_block() {
    let bitmap = Bitmap::new::<HeapMemory>();
    assert_eq!(Bitmap::len_for_memory_impl::<HeapMemory>(), 64);
    assert_eq!(bitmap.len(), 64);
    let mut states = bitmap.iter();
    let mut count = 0;
    while let Some(state) = states.next() {
        assert_eq!(state, BitState::Free);
        count += 1;
    }
    assert_eq!(count, 512);
}

#[test]
fn occupy_next_takes_the_lowest_free_bits_in_order() {
    let mut bitmap = Bitmap::new::<HeapMemory>();
    bitmap.occupy(0);
    bitmap.occupy(1);
    bitmap.occupy(3);
    bitmap.occupy(4);
    bitmap.occupy(6);
    assert_eq!(bitmap.occupy_next(), Some(2));
    assert_eq!(bitmap.occupy_next(), Some(5));
    assert_eq!(bitmap.occupy_next(), Some(7));
    assert_eq!(bitmap.occupy_next(), Some(8));
    assert_eq!(bitmap.get(2), BitState::Occupied);
    assert_eq!(bitmap.get(9), BitState::Free);
}

#[test]
fn occupy_next_on_a_full_bitmap_is_none() {
    let mut bitmap = Bitmap::new::<HeapMemory>();
    for i in 0..512 {
        assert_eq!(bitmap.occupy_next(), Some(i));
    }
    assert_eq!(bitmap.occupy_next(), None);
    bitmap.free(100);
    assert_eq!(bitmap.occupy_next(), Some(100));
}

#[test]
fn bitmap_is_written_as_its_bytes() {
    let mut bitmap = Bitmap::new::<HeapMemory>();
    bitmap.occupy(0);
    bitmap.occupy(9);
    let mut data = vec![];
    assert_eq!(bitmap.serialize(&mut data), Ok(64));
    assert_eq!(data.len(), 64);
    assert_eq!(data[0], 1);
    assert_eq!(data[1], 2);
    assert_eq!(data[2], 0);

    let mut copy = Bitmap::new::<HeapMemory>();
    data.push(0xff);
    assert_eq!(copy.deserialize(&data), Ok(64));
    assert_eq!(copy[0], BitState::Occupied);
    assert_eq!(copy[9], BitState::Occupied);
    assert_eq!(copy[1], BitState::Free);
    assert_eq!(copy.deserialize(&data[..63]), Err(boxfs::error::Error::InvalidInput));
}
