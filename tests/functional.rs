use cstack::repl::{print_constants, print_tree};
use cstack::storage::InMemoryStorageFactory;
use cstack::table::Table;
use cstack::vm::{execute_statement, Statement};

fn insert_query(i: u32) -> String {
    format!("insert {i} user{i} person{i}@example.com")
}

#[test]
fn functional_prints_constants() {
    let text = String::from_utf8(print_constants()).unwrap();
    let lines: Vec<&str> = text.lines().collect();
    assert_eq!(
        lines,
        vec![
            "ROW_SIZE: 299",
            "COMMON_NODE_HEADER_SIZE: 8",
            "LEAF_NODE_HEADER_SIZE: 16",
            "LEAF_NODE_CELL_SIZE: 303",
            "LEAF_NODE_SPACE_FOR_CELLS: 4080",
            "LEAF_NODE_MAX_CELLS: 13",
        ]
    );
}

#[test]
fn functional_prints_structure_of_one_node_btree() {
    let mut factory = InMemoryStorageFactory::new();
    let mut table = Table::open(&mut factory, "db").unwrap();
    for i in [3u32, 1, 2] {
        let statement = Statement::try_from(insert_query(i).as_str()).unwrap();
        execute_statement(&statement, &mut table).unwrap();
    }
    let text = String::from_utf8(print_tree(&table)).unwrap();
    assert_eq!(text, "- leaf (size 3)\n  - 1\n  - 2\n  - 3\n");
}

#[test]
fn prints_structure_of_three_node_btree() {
    let mut factory = InMemoryStorageFactory::new();
    let mut table = Table::open(&mut factory, "db").unwrap();
    for i in 1..=14u32 {
        let statement = Statement::try_from(insert_query(i).as_str()).unwrap();
        execute_statement(&statement, &mut table).unwrap();
    }
    let text = String::from_utf8(print_tree(&table)).unwrap();
    let expected: Vec<&str> = vec![
        "- internal (size 1)",
        "  - leaf (size 7)",
        "    - 1",
        "    - 2",
        "    - 3",
        "    - 4",
        "    - 5",
        "    - 6",
        "    - 7",
        "  - key 7",
        "  - leaf (size 7)",
        "    - 8",
        "    - 9",
        "    - 10",
        "    - 11",
        "    - 12",
        "    - 13",
        "    - 14",
    ];
    assert_eq!(text.lines().collect::<Vec<_>>(), expected);
    let statement = Statement::try_from(insert_query(15).as_str()).unwrap();
    assert!(execute_statement(&statement, &mut table).is_ok());
}

#[test]
fn print_all_rows_in_a_multi_level_tree() {
    let mut factory = InMemoryStorageFactory::new();
    let mut table = Table::open(&mut factory, "db").unwrap();
    for i in 1..=15u32 {
        let statement = Statement::try_from(insert_query(i).as_str()).unwrap();
        execute_statement(&statement, &mut table).unwrap();
    }
    let rows = execute_statement(&Statement::Select, &mut table).unwrap();
    let got: Vec<String> = rows.iter().map(|r| String::from_utf8(r.to_text()).unwrap()).collect();
    let expected: Vec<String> =
        (1..=15u32).map(|i| format!("({i}, user{i}, person{i}@example.com)")).collect();
    assert_eq!(got, expected);
}

#[test]
fn internal_root_gains_keys_as_leaves_split() {
    let mut factory = InMemoryStorageFactory::new();
    let mut table = Table::open(&mut factory, "db").unwrap();
    for i in 1..=21u32 {
        let statement = Statement::try_from(insert_query(i).as_str()).unwrap();
        execute_statement(&statement, &mut table).unwrap();
    }
    let text = String::from_utf8(print_tree(&table)).unwrap();
    let lines: Vec<&str> = text.lines().collect();
    assert_eq!(lines[0], "- internal (size 2)");
    assert!(lines.contains(&"  - key 7"));
    assert!(lines.contains(&"  - key 14"));
    let leaves = lines.iter().filter(|l| l.starts_with("  - leaf")).count();
    assert_eq!(leaves, 3);
}
