use boxfs::error::Error;
use boxfs::serde::{deserialize_bytes, read_be, write_be, Deserialize, Serialize};

#[test]
fn serde_serde() {
    let mut buf = vec![];

    let string = "This is a message".to_string();
    string.as_str().serialize(&mut buf).unwrap();
    let mut actual = String::new();
    actual.deserialize(&*buf).unwrap();
    assert_eq!(string, actual);
}

#[test]
fn integers_are_written_big_endian() {
    let mut buf = vec![];
    assert_eq!(0x0102030405060708u64.serialize(&mut buf), Ok(8));
    assert_eq!(buf, vec![1, 2, 3, 4, 5, 6, 7, 8]);
    assert_eq!(0xabusize.serialize(&mut buf), Ok(8));
    assert_eq!(&buf[8..], &[0, 0, 0, 0, 0, 0, 0, 0xab]);
    assert_eq!(7u8.serialize(&mut buf), Ok(1));
    assert_eq!(buf.len(), 17);
    assert_eq!(buf[16], 7);

    let mut a = 0u64;
    assert_eq!(a.deserialize(&buf), Ok(8));
    assert_eq!(a, 0x0102030405060708);
    let mut b = 0usize;
    assert_eq!(b.deserialize(&buf[8..]), Ok(8));
    assert_eq!(b, 0xab);
    let mut c = 0u8;
    assert_eq!(c.deserialize(&buf[16..]), Ok(1));
    assert_eq!(c, 7);
    assert_eq!(c.deserialize(&buf[17..]), Err(Error::InvalidInput));
    assert_eq!(a.deserialize(&buf[10..]), Err(Error::InvalidInput));
    assert_eq!(a, 0x0102030405060708);
}

#[test]
fn write_be_and_read_be_agree() {
    let mut buf = vec![0xee];
    write_be(&mut buf, 0x80000001, 4);
    assert_eq!(buf, vec![0xee, 0x80, 0, 0, 1]);
    assert_eq!(read_be(&buf[1..]), 0x80000001);
    assert_eq!(read_be(&[]), 0);
}

#[test]
fn a_sequence_is_its_length_and_its_items() {
    let items: Vec<u8> = vec![5, 6, 7];
    let mut buf = vec![];
    assert_eq!(items.serialize(&mut buf), Ok(11));
    assert_eq!(buf, vec![0, 0, 0, 0, 0, 0, 0, 3, 5, 6, 7]);

    let mut back: Vec<u8> = vec![9];
    assert_eq!(back.deserialize(&buf), Ok(11));
    assert_eq!(back, vec![9, 5, 6, 7]);
    assert_eq!(Vec::<u8>::deserialize_into_default(&buf), Ok(vec![5, 6, 7]));

    assert_eq!(back.deserialize(&buf[..10]), Err(Error::InvalidInput));
    assert_eq!(back, vec![9, 5, 6, 7]);

    let nested: Vec<Vec<u8>> = vec![vec![1], vec![], vec![2, 3]];
    let mut buf = vec![];
    assert_eq!(nested.serialize(&mut buf), Ok(8 + 9 + 8 + 10));
    assert_eq!(Vec::<Vec<u8>>::deserialize_into_default(&buf), Ok(nested));
}

#[test]
fn bytes_are_written_as_they_are() {
    let mut buf = vec![1];
    let bytes: &[u8] = &[2, 3];
    assert_eq!(bytes.serialize(&mut buf), Ok(2));
    assert_eq!(buf, vec![1, 2, 3]);
}

#[test]
fn a_text_is_its_length_and_its_bytes() {
    let mut buf = vec![];
    assert_eq!("h\u{e9}".serialize(&mut buf), Ok(11));
    assert_eq!(buf, vec![0, 0, 0, 0, 0, 0, 0, 3, b'h', 0xc3, 0xa9]);
    let mut text = String::new();
    assert_eq!(text.deserialize(&buf), Ok(11));
    assert_eq!(text, "h\u{e9}");
    assert_eq!(text.deserialize(&buf[..10]), Err(Error::InvalidInput));
}

#[test]
fn malformed_text_is_read_with_replacement_characters() {
    let buf = vec![0, 0, 0, 0, 0, 0, 0, 3, b'a', 0xff, b'b'];
    let mut text = String::new();
    assert_eq!(text.deserialize(&buf), Ok(11));
    assert_eq!(text, "a\u{fffd}b");
}

#[test]
fn bytes_are_read_into_a_slice_of_their_length() {
    let mut buf = [0u8; 3];
    assert_eq!(deserialize_bytes(&mut buf, &[1, 2, 3, 4]), Ok(3));
    assert_eq!(buf, [1, 2, 3]);
    assert_eq!(deserialize_bytes(&mut buf, &[9, 9]), Err(Error::InvalidInput));
    assert_eq!(buf, [1, 2, 3]);
    let mut none: [u8; 0] = [];
    assert_eq!(deserialize_bytes(&mut none, &[]), Ok(0));
}
