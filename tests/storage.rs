use cstack::layout::PAGE_SIZE;
use cstack::storage::{InMemoryStorageFactory, Storage, StorageFactory};

#[test]
fn in_memory_sanity() {
    let mut factory = InMemoryStorageFactory::new();
    let mut storage = factory.open("foobar");
    let text1 = b"first";
    storage.write(0, text1);

    let text2 = b"second";
    storage.write(1, text2);

    let mut buf = [0u8; PAGE_SIZE];
    storage.read(0, &mut buf);
    assert_eq!(text1, &buf[..text1.len()]);

    let mut buf = [0u8; PAGE_SIZE];
    storage.read(1, &mut buf);
    assert_eq!(text2, &buf[..text2.len()]);
}

#[test]
fn in_memory_flush_reopen() {
    let mut factory = InMemoryStorageFactory::new();
    let text1 = b"first";

    {
        let mut storage = factory.open("foobar");
        storage.write(0, text1);
    }

    {
        let mut storage = factory.open("foobar");
        let mut buf = [0u8; PAGE_SIZE];
        storage.read(0, &mut buf);
        assert_eq!(text1, &buf[..text1.len()]);
    }
}

#[test]
fn in_memory_size_counts_whole_pages() {
    let mut factory = InMemoryStorageFactory::new();
    let mut storage = factory.open("pages");
    assert_eq!(storage.size(), 0);
    storage.write(2, b"x");
    assert_eq!(storage.size(), 3 * PAGE_SIZE as u64);
    let mut buf = [7u8; PAGE_SIZE];
    storage.read(1, &mut buf);
    assert!(buf.iter().all(|b| *b == 0));
    let mut buf = [7u8; PAGE_SIZE];
    storage.read(5, &mut buf);
    assert!(buf.iter().all(|b| *b == 7));
}

#[test]
fn in_memory_names_are_separate() {
    let mut factory = InMemoryStorageFactory::new();
    {
        let mut storage = factory.open("a");
        storage.write(0, b"aaa");
    }
    let mut storage = factory.open("b");
    assert_eq!(storage.size(), 0);
}
