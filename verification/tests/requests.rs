use boxfs::directory::{Directory, EntryKind};
use boxfs::error::Error;
use boxfs::file_system::FileSystem;
use boxfs::heap_memory::HeapMemory;
use boxfs::requests::resolve_range;

fn fresh() -> FileSystem<HeapMemory> {
    FileSystem::new(HeapMemory::default()).unwrap()
}

#[test]
fn a_range_counts_from_the_end_where_an_offset_is_negative() {
    assert_eq!(resolve_range(10, None, None), Ok((0, 10)));
    assert_eq!(resolve_range(10, Some(2), None), Ok((2, 10)));
    assert_eq!(resolve_range(10, Some(-4), Some(-1)), Ok((6, 9)));
    assert_eq!(resolve_range(10, Some(-10), Some(-9)), Ok((0, 1)));
    assert_eq!(resolve_range(10, Some(3), Some(3)), Ok((3, 3)));
    assert_eq!(resolve_range(10, None, Some(0)), Ok((0, 0)));
}

#[test]
fn a_range_that_is_malformed_is_refused() {
    assert_eq!(resolve_range(10, Some(4), Some(3)), Err(Error::InvalidInput));
    assert_eq!(resolve_range(10, Some(-1), Some(-2)), Err(Error::InvalidInput));
    assert_eq!(resolve_range(10, Some(-11), Some(-2)), Err(Error::InvalidInput));
    assert_eq!(resolve_range(10, None, Some(11)), Err(Error::InvalidInput));
    assert_eq!(
        resolve_range(10, Some(i64::MIN), Some(i64::MAX)),
        Err(Error::InvalidInput)
    );
}

#[test]
fn a_file_is_written_and_read_in_ranges() {
    let mut fs = fresh();
    fs.create_directory(&["docs"]).unwrap();
    fs.write_file(&["docs", "note.txt"], b"Hello, World!", None)
        .unwrap();
    assert_eq!(fs.open_file(&["docs", "note.txt"]), Ok(13));
    assert_eq!(
        fs.read_file(&["docs", "note.txt"], None, None),
        Ok(b"Hello, World!".to_vec())
    );
    assert_eq!(
        fs.read_file(&["docs", "note.txt"], Some(-6), Some(-1)),
        Ok(b"World".to_vec())
    );
    assert_eq!(
        fs.read_file(&["docs", "note.txt"], Some(7), None),
        Ok(b"World!".to_vec())
    );
    assert_eq!(
        fs.read_file(&["docs", "note.txt"], Some(5), Some(4)),
        Err(Error::InvalidInput)
    );
    assert_eq!(
        fs.read_file(&["docs", "note.txt"], None, Some(14)),
        Err(Error::InvalidInput)
    );

    fs.write_file(&["docs", "note.txt"], b"there", Some(7)).unwrap();
    assert_eq!(
        fs.read_file(&["docs", "note.txt"], None, None),
        Ok(b"Hello, there!".to_vec())
    );
    fs.write_file(&["docs", "note.txt"], b"!!", Some(13)).unwrap();
    assert_eq!(fs.open_file(&["docs", "note.txt"]), Ok(15));
    assert_eq!(fs.list(&["docs"]), Ok(vec!["note.txt".to_string()]));
}

#[test]
fn a_large_file_spans_blocks_and_survives_a_restart() {
    let mut fs = fresh();
    let data: Vec<u8> = (0..3000).map(|i| (i * 7 % 256) as u8).collect();
    fs.write_file(&["big"], &data, None).unwrap();
    fs.write_file(&["small"], b"x", None).unwrap();
    fs.write_file(&["big"], &data, Some(3000)).unwrap();
    fs.persist().unwrap();

    let fs = FileSystem::open(fs.memory).unwrap();
    assert_eq!(fs.open_file(&["big"]), Ok(6000));
    assert_eq!(
        fs.read_file(&["big"], Some(2990), Some(3010)).unwrap(),
        [&data[2990..], &data[..10]].concat()
    );
    assert_eq!(fs.read_file(&["small"], None, None), Ok(b"x".to_vec()));
    let root = fs.open_directory(&[]).unwrap();
    assert_eq!(root.entries.len(), 2);
    assert_eq!(root.entries[0].kind, EntryKind::File);
    assert!(root.entries[0].size <= 512 * root.entries[0].cluster.blocks().len());
    assert_eq!(root.entries[0].cluster.blocks().len(), 12);
}

#[test]
fn requests_fail_as_the_walk_does() {
    let mut fs = fresh();
    fs.create_directory(&["a", "b"]).unwrap();
    fs.create_file(&["a", "f"]).unwrap();
    assert_eq!(fs.open_file(&["a", "f"]), Ok(0));
    assert_eq!(fs.read_file(&["a", "f"], None, None), Ok(vec![]));
    assert_eq!(fs.read_file(&[], None, None), Err(Error::InvalidInput));
    assert_eq!(fs.open_file(&["a", "nope"]), Err(Error::NotFound));
    assert_eq!(fs.open_file(&["nope", "f"]), Err(Error::NotFound));
    assert_eq!(fs.open_file(&["a", "b"]), Err(Error::Other));
    assert_eq!(fs.open_file(&["a", "f", "g"]), Err(Error::InvalidInput));
    assert_eq!(fs.write_file(&["a", "b"], b"x", None), Err(Error::Other));
    assert_eq!(fs.write_file(&["zz", "b"], b"x", None), Err(Error::NotFound));
    assert_eq!(fs.write_file(&[], b"x", None), Err(Error::InvalidInput));
    assert_eq!(
        fs.write_file(&["a", "f"], b"x", Some(-1)),
        Err(Error::InvalidInput)
    );
    assert_eq!(fs.create_file(&[]), Err(Error::InvalidInput));
    assert_eq!(fs.create_file(&["zz", "f"]), Err(Error::NotFound));
    assert_eq!(fs.list(&["a"]), Ok(vec!["b".to_string(), "f".to_string()]));
    assert_eq!(fs.list(&["a", "f"]), Err(Error::InvalidInput));
    assert_eq!(fs.open_directory(&["a", "b"]).unwrap().entries.len(), 0);
}

#[test]
fn reading_past_the_size_of_an_entry_returns_nothing() {
    let mut fs = fresh();
    fs.write_file(&["f"], &[7u8; 600], None).unwrap();
    fs.with_directory_mut(&[], |dir, _| {
        dir.entries[0].size = 10;
        Ok(())
    })
    .unwrap();
    let root = fs.open_directory(&[]).unwrap();
    let entry = &root.entries[0];
    assert_eq!(entry.cluster.blocks().len(), 2);
    let mut reader = entry.read_from_file_system(&fs);
    let mut buf = [0u8; 32];
    assert_eq!(reader.read(&mut buf), Ok(10));
    assert_eq!(reader.read(&mut buf), Ok(0));
    reader.seek(boxfs::memory::SeekFrom::Start(10)).unwrap();
    assert_eq!(reader.read(&mut buf), Ok(0));
    reader.seek(boxfs::memory::SeekFrom::Start(300)).unwrap();
    assert_eq!(reader.read(&mut buf), Ok(0));
    let mut all = vec![];
    reader.seek(boxfs::memory::SeekFrom::Start(4)).unwrap();
    assert_eq!(reader.read_to_end(&mut all), Ok(6));
}

#[test]
fn the_size_of_an_entry_is_a_high_water_mark() {
    let mut fs = fresh();
    fs.write_file(&["f"], b"0123456789", None).unwrap();
    fs.write_file(&["f"], b"ab", Some(2)).unwrap();
    assert_eq!(fs.open_file(&["f"]), Ok(10));
    assert_eq!(fs.read_file(&["f"], None, None), Ok(b"01ab456789".to_vec()));
    fs.write_file(&["f"], b"", Some(100)).unwrap();
    assert_eq!(fs.open_file(&["f"]), Ok(10));
}

#[test]
fn a_change_is_made_in_the_directory_that_the_path_leads_to() {
    let mut fs = fresh();
    fs.create_directory(&["a", "b"]).unwrap();
    assert_eq!(fs.update(&["a", "b"], "f", Some((3, &b"xyz"[..]))), Ok(()));
    assert_eq!(fs.update(&["a", "b"], "f", None), Ok(()));
    assert_eq!(fs.update(&["a"], "b", Some((0, &b"x"[..]))), Err(Error::Other));
    assert_eq!(fs.update(&["a", "c"], "f", None), Err(Error::NotFound));
    assert_eq!(
        fs.list(&["a", "b"]),
        Ok(vec!["f".to_string(), "f".to_string()])
    );
    assert_eq!(
        fs.read_file(&["a", "b", "f"], None, None),
        Ok(vec![0, 0, 0, b'x', b'y', b'z'])
    );
    assert_eq!(fs.tree().unwrap(), "/\n| a/\n    | b/\n        | f\n        | f");
}

#[test]
fn a_directory_is_changed_in_place() {
    let mut fs = fresh();
    let mut dir = Directory::default();
    assert_eq!(dir.edit(&mut fs, "f", None), Ok(()));
    assert_eq!(dir.edit(&mut fs, "f", Some((510, &[1u8, 2, 3][..]))), Ok(()));
    assert_eq!(dir.entries.len(), 1);
    assert_eq!(dir.entries[0].size, 513);
    assert_eq!(dir.entries[0].cluster.blocks().len(), 2);
    assert_eq!(dir.edit(&mut fs, "g", Some((0, &[][..]))), Ok(()));
    assert_eq!(dir.entries.len(), 2);
    assert_eq!(dir.entries[1].size, 0);
    assert_eq!(dir.entries[1].cluster.blocks().len(), 0);
    dir.add_directory("d");
    assert_eq!(dir.edit(&mut fs, "d", Some((0, &[1u8][..]))), Err(Error::Other));
    assert_eq!(dir.update(&mut fs, &[], "h", None), Ok(()));
    assert_eq!(dir.entries.len(), 4);
    assert_eq!(dir.update(&mut fs, &["f"], "h", None), Err(Error::InvalidInput));
}

#[test]
fn an_empty_path_names_no_file() {
    let fs = fresh();
    assert_eq!(fs.open_file(&[]), Err(Error::InvalidInput));
    assert_eq!(fs.read_file(&[], Some(0), Some(0)), Err(Error::InvalidInput));
}
