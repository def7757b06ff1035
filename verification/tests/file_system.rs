use boxfs::bitmap::{BitState, Bitmap};
use boxfs::block::Block;
use boxfs::directory::{Directory, EntryKind};
use boxfs::error::Error;
use boxfs::file_system::FileSystem;
use boxfs::heap_memory::HeapMemory;
use boxfs::memory::Memory;
use boxfs::serde::{Deserialize, Serialize};

#[test]
fn test() {
    const DATA_BLOCKS: usize = 128;

    let data: Vec<u8> = (0..Block::SIZE * DATA_BLOCKS)
        .map(|_| rand::random())
        .collect();

    let mut memory = HeapMemory::default();

    {
        let mut fs = FileSystem::new(&mut memory).unwrap();

        fs.bitmap.occupy(42);
        fs.bitmap.occupy(39);
        fs.bitmap.occupy(58);

        {
            let mut writer = fs.write_into_root_cluster();
            writer.write_all(&data).unwrap();
        }

        {
            let mut reader = fs.read_from_root_cluster();
            let mut read_data = vec![];
            reader.read_to_end(&mut read_data).unwrap();
            assert_eq!(read_data, data);
        }

        let mut occupied = 0;
        let mut states = fs.bitmap.iter();
        while let Some(state) = states.next() {
            if state == BitState::Occupied {
                occupied += 1;
            }
        }
        assert_eq!(
            occupied,
            FileSystem::<HeapMemory>::preamble_blocks() + DATA_BLOCKS + 3
        );

        fs.persist().unwrap();
    }

    {
        let fs = FileSystem::open(memory).unwrap();
        let mut reader = fs.read_from_root_cluster();

        let mut read_data = vec![];
        reader.read_to_end(&mut read_data).unwrap();
        assert_eq!(read_data, data);
    }
}

#[test]
fn a_file() {
    let mut mem = HeapMemory::default();

    {
        let mut fs = FileSystem::new(&mut mem).unwrap();

        fs.with_root_directory_mut(|root, fs| {
            root.add_file("my-file.txt")
                .write_to_file_system(fs)
                .write_all(b"Hello World")
        })
        .unwrap();

        fs.persist().unwrap();
    }

    {
        let fs = FileSystem::open(&mut mem).unwrap();

        fs.with_root_directory(|root| {
            let entry = &root.entries[0];
            assert_eq!(entry.kind, EntryKind::File);

            let mut r = entry.read_from_file_system(&fs);
            let mut result = [0u8; 5];
            r.read_exact(&mut result)?;

            assert_eq!(&result, b"Hello");
            Ok(())
        })
        .unwrap();
    }
}

#[test]
fn a_nested_dir() {
    let mut mem = HeapMemory::default();

    {
        let mut fs = FileSystem::new(&mut mem).unwrap();

        fs.with_root_directory_mut(|root, fs| {
            let mut dir = Directory::default();
            dir.add_file("my_file.txt")
                .write_to_file_system(fs)
                .write_all(b"Hello, World!")?;

            root.add_directory("my_dir")
                .write_to_file_system(fs)
                .write_directory(&dir)?;
            Ok(())
        })
        .unwrap();

        fs.persist().unwrap();
    }

    {
        let fs = FileSystem::open(&mut mem).unwrap();

        fs.with_root_directory(|root| {
            let dir_entry = &root.entries[0];
            assert_eq!(&dir_entry.name, "my_dir");

            let file_entry = &dir_entry
                .read_from_file_system(&fs)
                .read_directory()?
                .entries[0];
            assert_eq!(&file_entry.name, "my_file.txt");

            let mut bytes = vec![];
            file_entry
                .read_from_file_system(&fs)
                .read_to_end(&mut bytes)?;
            let result = String::from_utf8(bytes).unwrap();
            assert_eq!(&result, "Hello, World!");
            Ok(())
        })
        .unwrap();
    }
}

#[test]
fn make_dir_recursive() {
    let mut fs = FileSystem::new(HeapMemory::default()).unwrap();

    let path = vec!["one", "two", "three"];
    fs.make_directory_recursive(&path).unwrap();

    assert_eq!(
        fs.tree().unwrap(),
        "/
| one/
    | two/
        | three/"
    )
}

#[test]
fn the_preamble_of_a_heap_store_takes_nine_blocks() {
    assert_eq!(FileSystem::<HeapMemory>::preamble_blocks(), 9);
    let fs = FileSystem::new(HeapMemory::default()).unwrap();
    for i in 0..9 {
        assert_eq!(fs.bitmap[i], BitState::Occupied);
    }
    assert_eq!(fs.root_cluster.blocks(), &[Block::at(9)]);
    assert_eq!(fs.bitmap[9], BitState::Occupied);
    assert_eq!(fs.bitmap[10], BitState::Free);
    assert_eq!(fs.memory.page_count(), Ok(5));
    let mut bytes = [1u8; 8];
    assert_eq!(fs.memory.read(9 * 512, &mut bytes), Ok(8));
    assert_eq!(bytes, [0u8; 8]);
}

#[test]
fn allocate_does_not_touch_the_store() {
    let fs = FileSystem::allocate(HeapMemory::default());
    assert_eq!(fs.memory.page_count(), Ok(0));
    assert_eq!(fs.root_cluster.blocks().len(), 0);
    assert_eq!(fs.bitmap.len(), 64);
}

#[test]
fn persist_writes_the_bitmap_and_the_root_cluster_at_the_start() {
    let mut fs = FileSystem::new(HeapMemory::default()).unwrap();
    fs.persist().unwrap();
    let mut head = [0u8; 72];
    assert_eq!(fs.memory.read(0, &mut head), Ok(72));
    assert_eq!(&head[..3], &[0xff, 0x03, 0]);
    assert_eq!(&head[64..], &[0, 0, 0, 1, 0, 0, 0, 9]);

    let fs = FileSystem::open(fs.memory).unwrap();
    assert_eq!(fs.root_cluster.blocks(), &[Block::at(9)]);
    assert_eq!(fs.bitmap[9], BitState::Occupied);
    assert_eq!(fs.bitmap[10], BitState::Free);
    assert_eq!(fs.read_root_directory().unwrap().entries.len(), 0);
}

#[test]
fn a_store_that_ends_too_early_does_not_open() {
    assert_eq!(
        FileSystem::open(HeapMemory::default()).err(),
        Some(Error::InvalidInput)
    );
}

#[test]
fn a_walk_finds_directories_and_stops_at_files() {
    let mut fs = FileSystem::new(HeapMemory::default()).unwrap();
    fs.make_directory_recursive(&["one", "two", "three"]).unwrap();
    fs.with_directory_mut(&["one", "two"], |dir, fs| {
        dir.add_file("note")
            .write_to_file_system(fs)
            .write_all(b"abc")
    })
    .unwrap();

    let names = fs
        .with_directory(&["one", "two"], |dir| {
            Ok(dir
                .entries
                .iter()
                .map(|e| (e.name.clone(), e.kind, e.size))
                .collect::<Vec<_>>())
        })
        .unwrap();
    assert_eq!(
        names,
        vec![
            ("three".to_string(), EntryKind::Directory, 8),
            ("note".to_string(), EntryKind::File, 3)
        ]
    );
    assert_eq!(
        fs.with_directory(&["one", "nope"], |_| Ok(())),
        Err(Error::NotFound)
    );
    assert_eq!(
        fs.with_directory(&["one", "two", "note"], |_| Ok(())),
        Err(Error::InvalidInput)
    );
    assert_eq!(
        fs.with_directory_mut(&["one", "two", "note", "x"], |_, _| Ok(())),
        Err(Error::InvalidInput)
    );
    assert_eq!(
        fs.with_directory_mut(&["zero"], |_, _| Ok(())),
        Err(Error::NotFound)
    );
    assert_eq!(
        fs.tree().unwrap(),
        "/\n| one/\n    | two/\n        | three/\n        | note"
    );
}

#[test]
fn making_directories_twice_changes_nothing_and_a_file_is_in_the_way() {
    let mut fs = FileSystem::new(HeapMemory::default()).unwrap();
    fs.make_directory_recursive(&["a", "b"]).unwrap();
    fs.make_directory_recursive(&["a", "b"]).unwrap();
    fs.make_directory_recursive(&["a", "c"]).unwrap();
    assert_eq!(fs.tree().unwrap(), "/\n| a/\n    | b/\n    | c/");
    fs.with_directory_mut(&["a"], |dir, _| {
        dir.add_file("f");
        Ok(())
    })
    .unwrap();
    assert_eq!(
        fs.make_directory_recursive(&["a", "f", "g"]),
        Err(Error::InvalidInput)
    );
    assert_eq!(fs.tree().unwrap(), "/\n| a/\n    | b/\n    | c/\n    | f");
}

#[test]
fn a_directory_that_grows_is_written_back_with_its_new_size() {
    let mut fs = FileSystem::new(HeapMemory::default()).unwrap();
    fs.make_directory_recursive(&["d"]).unwrap();
    fs.with_directory_mut(&["d"], |dir, fs| {
        for i in 0..40 {
            let name = format!("file-number-{}", i);
            dir.add_file(&name)
                .write_to_file_system(fs)
                .write_all(name.as_bytes())?;
        }
        Ok(())
    })
    .unwrap();
    fs.persist().unwrap();

    let fs = FileSystem::open(fs.memory).unwrap();
    let (size, blocks) = fs
        .with_root_directory(|root| Ok((root.entries[0].size, root.entries[0].cluster.blocks().len())))
        .unwrap();
    assert!(size > 512);
    assert!(size <= 512 * blocks);
    fs.with_directory(&["d"], |dir| {
        assert_eq!(dir.entries.len(), 40);
        let entry = dir.entry_with_name("file-number-17").unwrap();
        let mut bytes = vec![];
        entry.read_from_file_system(&fs).read_to_end(&mut bytes)?;
        assert_eq!(bytes, b"file-number-17");
        Ok(())
    })
    .unwrap();
}

#[test]
fn a_store_that_is_full_fails_a_write_with_out_of_memory() {
    let mut fs = FileSystem::new(HeapMemory::default()).unwrap();
    let big = vec![5u8; 512 * 400];
    assert_eq!(fs.write_file(&["a"], &big, None), Ok(()));
    assert_eq!(
        fs.write_file(&["b"], &big, None),
        Err(Error::OutOfMemory)
    );
    assert_eq!(fs.read_file(&["a"], Some(512 * 400 - 2), None), Ok(vec![5, 5]));
}

#[test]
fn a_walk_hands_back_what_the_closure_returns() {
    let mut fs = FileSystem::new(HeapMemory::default()).unwrap();
    fs.make_directory_recursive(&["x", "y"]).unwrap();
    assert_eq!(fs.with_root_directory(|root| Ok(root.entries.len())), Ok(1));
    assert_eq!(
        fs.with_directory(&["x"], |dir| Ok(dir.entries[0].name.clone())),
        Ok("y".to_string())
    );
    assert_eq!(
        fs.with_root_directory_mut(|root, _| Ok(root.entries[0].name.clone())),
        Ok("x".to_string())
    );
    assert_eq!(
        fs.with_directory_mut(&["x", "y"], |dir, _| Ok(dir.entries.len())),
        Ok(0)
    );
    assert_eq!(
        fs.with_root_directory(|_| Err::<(), Error>(Error::Other)),
        Err(Error::Other)
    );
    assert_eq!(
        fs.with_directory(&["x"], |_| Err::<(), Error>(Error::NotFound)),
        Err(Error::NotFound)
    );
    assert_eq!(fs.tree().unwrap(), "/\n| x/\n    | y/");
}

#[test]
fn a_closure_that_fails_at_the_root_leaves_its_changes_in_the_root_directory() {
    let mut fs = FileSystem::new(HeapMemory::default()).unwrap();
    assert_eq!(
        fs.with_root_directory_mut(|root, _| {
            root.add_file("kept");
            Err::<(), Error>(Error::Other)
        }),
        Err(Error::Other)
    );
    assert_eq!(fs.tree().unwrap(), "/\n| kept");
    assert_eq!(
        fs.with_directory_mut(&[], |root, _| {
            root.add_file("too");
            Err::<(), Error>(Error::NotFound)
        }),
        Err(Error::NotFound)
    );
    assert_eq!(fs.tree().unwrap(), "/\n| kept\n| too");
}

#[test]
fn a_closure_that_fails_below_the_root_has_nothing_written_back() {
    let mut fs = FileSystem::new(HeapMemory::default()).unwrap();
    fs.make_directory_recursive(&["x", "y"]).unwrap();
    assert_eq!(
        fs.with_directory_mut(&["x", "y"], |dir, _| {
            dir.add_file("lost");
            Err::<(), Error>(Error::Other)
        }),
        Err(Error::Other)
    );
    assert_eq!(fs.tree().unwrap(), "/\n| x/\n    | y/");
    assert_eq!(
        fs.with_directory_mut(&["x", "y"], |dir, _| {
            dir.add_file("found");
            Ok(7)
        }),
        Ok(7)
    );
    assert_eq!(fs.tree().unwrap(), "/\n| x/\n    | y/\n        | found");
}

fn bits_of(bitmap: &Bitmap) -> Vec<BitState> {
    let mut bits = vec![];
    let mut it = bitmap.iter();
    while let Some(state) = it.next() {
        bits.push(state);
    }
    bits
}

#[test]
fn a_file_system_is_written_as_its_bitmap_and_its_root_cluster() {
    let mut fs = FileSystem::new(HeapMemory::default()).unwrap();
    fs.make_directory_recursive(&["a"]).unwrap();
    let mut bytes = vec![7u8];
    assert_eq!(fs.serialize(&mut bytes), Ok(64 + 8));
    assert_eq!(bytes.len(), 1 + 64 + 8);
    assert_eq!(&bytes[..4], &[7, 0xff, 0x07, 0]);
    assert_eq!(&bytes[65..], &[0, 0, 0, 1, 0, 0, 0, 9]);

    let mut other = FileSystem::allocate(HeapMemory::default());
    assert_eq!(other.deserialize(&bytes[1..]), Ok(64 + 8));
    assert_eq!(bits_of(&other.bitmap), bits_of(&fs.bitmap));
    assert_eq!(other.root_cluster, fs.root_cluster);
    assert_eq!(other.memory.page_count(), Ok(0));

    let mut short = FileSystem::allocate(HeapMemory::default());
    assert_eq!(short.deserialize(&bytes[1..70]), Err(Error::InvalidInput));
    assert_eq!(short.deserialize(&bytes[1..60]), Err(Error::InvalidInput));
    assert!(bits_of(&short.bitmap).iter().all(|state| *state == BitState::Free));
    assert_eq!(short.root_cluster.blocks().len(), 0);
}

#[test]
fn a_file_in_the_way_is_invalid_input_and_the_tree_stays() {
    let mut fs = FileSystem::new(HeapMemory::default()).unwrap();
    fs.make_directory_recursive(&["a"]).unwrap();
    fs.with_directory_mut(&["a"], |dir, _| {
        dir.add_file("f");
        Ok(())
    })
    .unwrap();
    let bytes: Vec<u8> = fs.memory.iter().copied().collect();
    assert_eq!(
        fs.make_directory_recursive(&["a", "f", "g", "h"]),
        Err(Error::InvalidInput)
    );
    assert_eq!(fs.tree().unwrap(), "/\n| a/\n    | f");
    assert!(fs.memory.iter().copied().eq(bytes.iter().copied()));
}
