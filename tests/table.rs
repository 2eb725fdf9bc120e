use cstack::layout::PAGE_SIZE;
use cstack::pager::OpenError;
use cstack::serialization::{deserialize_row, Row};
use cstack::storage::{InMemoryStorageFactory, Storage, StorageFactory};
use cstack::table::Table;

fn row(id: u32) -> Row {
    Row { id, username: format!("user{id}").into_bytes(), email: format!("person{id}@example.com").into_bytes() }
}

fn fill<S: Storage>(table: &mut Table<S>, ids: &[u32]) {
    for id in ids {
        let cursor = table.find(*id);
        table.leaf_node_insert(cursor, *id, &row(*id)).unwrap();
    }
}

#[test]
fn cursor_walks_every_row_in_order() {
    let mut factory = InMemoryStorageFactory::new();
    let mut table = Table::open(&mut factory, "db").unwrap();
    let ids: Vec<u32> = (1..=30u32).rev().collect();
    fill(&mut table, &ids);
    let mut cursor = table.start();
    let mut seen = Vec::new();
    while !cursor.end_of_table {
        seen.push(deserialize_row(cursor.value(&table)).unwrap().id);
        cursor.advance(&table);
    }
    assert_eq!(seen, (1..=30u32).collect::<Vec<_>>());
}

#[test]
fn start_of_empty_table_is_the_end() {
    let mut factory = InMemoryStorageFactory::new();
    let table = Table::open(&mut factory, "db").unwrap();
    assert!(table.start().end_of_table);
}

#[test]
fn find_gives_insertion_position() {
    let mut factory = InMemoryStorageFactory::new();
    let mut table = Table::open(&mut factory, "db").unwrap();
    fill(&mut table, &[10, 20, 30]);
    assert_eq!(table.find(5).cell_num, 0);
    assert_eq!(table.find(20).cell_num, 1);
    assert_eq!(table.find(25).cell_num, 2);
    assert_eq!(table.find(99).cell_num, 3);
}

#[test]
fn new_table_has_one_root_leaf() {
    let mut factory = InMemoryStorageFactory::new();
    let table = Table::open(&mut factory, "db").unwrap();
    assert_eq!(table.pager.num_pages, 1);
    assert!(table.pager.page(0).is_root());
    let storage = table.close();
    let mut storage = storage;
    assert_eq!(storage.size(), PAGE_SIZE as u64);
}

#[test]
fn split_root_makes_three_pages() {
    let mut factory = InMemoryStorageFactory::new();
    let mut table = Table::open(&mut factory, "db").unwrap();
    fill(&mut table, &(1..=14u32).collect::<Vec<_>>());
    assert_eq!(table.pager.num_pages, 3);
    assert_eq!(table.pager.get_unused_page_num(), 3);
}

#[test]
fn open_rejects_a_page_that_is_no_node() {
    let mut factory = InMemoryStorageFactory::new();
    {
        let mut storage = factory.open("bad");
        let mut page = vec![0u8; PAGE_SIZE];
        page[0] = 7;
        storage.write(0, &page);
    }
    assert_eq!(Table::open(&mut factory, "bad").err(), Some(OpenError::CorruptPage));
}

#[test]
fn open_rejects_pages_that_are_no_tree() {
    let mut factory = InMemoryStorageFactory::new();
    {
        // A well-formed leaf that is not marked as the root.
        let mut storage = factory.open("bad");
        let mut page = vec![0u8; PAGE_SIZE];
        page[0] = 1;
        storage.write(0, &page);
    }
    assert_eq!(Table::open(&mut factory, "bad").err(), Some(OpenError::CorruptTree));
}

#[test]
fn open_rejects_too_many_pages() {
    let mut factory = InMemoryStorageFactory::new();
    {
        let mut storage = factory.open("big");
        storage.write(100, b"x");
    }
    assert_eq!(Table::open(&mut factory, "big").err(), Some(OpenError::TooManyPages));
}
