use cstack::layout::PAGE_SIZE;
use cstack::node::Node;
use cstack::pager::{OpenError, Pager};
use cstack::storage::{InMemoryStorageFactory, Storage, StorageFactory};
use cstack::table::Table;
use cstack::vm::{execute_statement, Statement};

#[test]
fn open_reads_no_page() {
    let mut factory = InMemoryStorageFactory::new();
    {
        let mut table = Table::open(&mut factory, "db").unwrap();
        for i in 1..=14u32 {
            let q = format!("insert {i} user{i} person{i}@example.com");
            execute_statement(&Statement::try_from(q.as_str()).unwrap(), &mut table).unwrap();
        }
        table.close();
    }
    let storage = factory.open("db");
    let pager = Pager::open(storage).unwrap();
    assert_eq!(pager.num_pages, 3);
    assert_eq!(pager.file_pages, 3);
    assert!(pager.slots.iter().all(|s| s.is_none()));
}

#[test]
fn get_page_loads_on_a_miss() {
    let mut factory = InMemoryStorageFactory::new();
    {
        let table = Table::open(&mut factory, "db").unwrap();
        table.close();
    }
    let storage = factory.open("db");
    let mut pager = Pager::open(storage).unwrap();
    pager.get_page(0).unwrap();
    match pager.page(0) {
        Node::Leaf(l) => {
            assert!(l.node.is_root());
            assert_eq!(l.cells.len(), 0);
        }
        Node::Internal(_) => panic!("page 0 should be a leaf"),
    }
    assert!(pager.slots[1].is_none());
    assert_eq!(pager.num_pages, 1);
}

#[test]
fn get_page_past_the_end_is_a_zeroed_page() {
    let mut factory = InMemoryStorageFactory::new();
    let storage = factory.open("db");
    let mut pager = Pager::open(storage).unwrap();
    assert_eq!(pager.num_pages, 0);
    pager.get_page(4).unwrap();
    assert_eq!(pager.num_pages, 5);
    match pager.page(4) {
        Node::Internal(n) => {
            assert_eq!(n.cells.len(), 0);
            assert_eq!(n.right_child, 0);
            assert!(!n.node.is_root());
        }
        Node::Leaf(_) => panic!("a zeroed page reads as an internal node"),
    }
    let mut storage = pager.close();
    assert_eq!(storage.size(), 5 * PAGE_SIZE as u64);
}

#[test]
fn get_page_reports_a_corrupt_page() {
    let mut factory = InMemoryStorageFactory::new();
    {
        let mut storage = factory.open("bad");
        let mut page = vec![0u8; PAGE_SIZE];
        page[0] = 9;
        storage.write(0, &page);
    }
    let storage = factory.open("bad");
    let mut pager = Pager::open(storage).unwrap();
    assert_eq!(pager.get_page(0), Err(OpenError::CorruptPage));
    assert!(pager.slots[0].is_none());
}

#[test]
fn new_pages_at_any_number() {
    let mut factory = InMemoryStorageFactory::new();
    let storage = factory.open("db");
    let mut pager = Pager::open(storage).unwrap();
    pager.new_leaf_page(7);
    assert_eq!(pager.num_pages, 8);
    pager.new_internal_page(2);
    assert_eq!(pager.num_pages, 8);
    match pager.page(7) {
        Node::Leaf(l) => {
            assert_eq!(l.next_leaf, 0);
            assert_eq!(l.node.parent(), 0);
            assert!(!l.node.is_root());
        }
        Node::Internal(_) => panic!("page 7 should be a leaf"),
    }
    match pager.page(2) {
        Node::Internal(n) => assert_eq!(n.cells.len(), 0),
        Node::Leaf(_) => panic!("page 2 should be internal"),
    }
    assert_eq!(pager.get_unused_page_num(), 8);
}
