use cstack::serialization::Row;
use cstack::storage::InMemoryStorageFactory;
use cstack::table::{ExecuteError, Table};
use cstack::vm::{do_meta_command, execute_statement, MetaCommand, MetaCommandError, PrepareError, Statement};

fn texts(rows: &[Row]) -> Vec<String> {
    rows.iter().map(|r| String::from_utf8(r.to_text()).unwrap()).collect()
}

fn insert_query(i: u32) -> String {
    format!("insert {i} user{i} person{i}@example.com")
}

#[test]
fn strings_too_long() {
    let username: String = std::iter::repeat("a").take(33).collect();
    let email: String = std::iter::repeat("a").take(256).collect();
    let query = format!("insert 1 {} {}", username, email);
    let result = Statement::try_from(query.as_str()).unwrap_err();
    assert_eq!(result, PrepareError::StringTooLong);
}

#[test]
fn id_negative() {
    let query = "insert -1 cstack foo@bar.com";
    let result = Statement::try_from(query).unwrap_err();
    assert_eq!(result, PrepareError::NegativeId);
}

#[test]
fn select_nothing() {
    let mut storage_factory = InMemoryStorageFactory::new();
    let mut table = Table::open(&mut storage_factory, "foobar").unwrap();
    let rows = execute_statement(&Statement::Select, &mut table).unwrap();
    assert_eq!(rows.len(), 0);
}

#[test]
fn insert_and_select() {
    let mut storage_factory = InMemoryStorageFactory::new();
    let mut table = Table::open(&mut storage_factory, "foobar").unwrap();

    let insert_statement = Statement::try_from("insert 1 a b").unwrap();
    execute_statement(&insert_statement, &mut table).unwrap();

    let rows = execute_statement(&Statement::Select, &mut table).unwrap();
    assert_eq!(texts(&rows), vec!["(1, a, b)"]);
}

#[test]
fn table_full_is_an_error() {
    let mut storage_factory = InMemoryStorageFactory::new();
    let mut table = Table::open(&mut storage_factory, "foobar").unwrap();
    let mut full = None;
    for i in 0..1401u32 {
        let query = format!("insert {i} user{i} person{i}@email.com");
        let statement = Statement::try_from(query.as_str()).unwrap();
        match execute_statement(&statement, &mut table) {
            Ok(_) => {}
            Err(e) => {
                assert_eq!(e, ExecuteError::TableFull);
                full = Some(i);
                break;
            }
        }
    }
    // Four leaves of thirteen under a root of three keys, one more leaf split being refused.
    let stopped_at = full.expect("the table never became full");
    let rows = execute_statement(&Statement::Select, &mut table).unwrap();
    assert_eq!(rows.len() as u32, stopped_at);
    let statement = Statement::try_from(insert_query(stopped_at).as_str()).unwrap();
    assert_eq!(execute_statement(&statement, &mut table).unwrap_err(), ExecuteError::TableFull);
}

#[test]
fn insert_duplicate_id() {
    let statement = Statement::try_from("insert 1 foo bar").unwrap();

    let mut storage_factory = InMemoryStorageFactory::new();
    let mut table = Table::open(&mut storage_factory, "foobar").unwrap();

    execute_statement(&statement, &mut table).unwrap();
    let error = execute_statement(&statement, &mut table).unwrap_err();
    assert_eq!(error, ExecuteError::DuplicateKey);
    let rows = execute_statement(&Statement::Select, &mut table).unwrap();
    assert_eq!(rows.len(), 1);
}

#[test]
fn vm_insert_strings_of_max_length() {
    let username = "aaaaaaaaaaaaaaaaaaaaaaaaaaaaaaaa";
    let email: String = std::iter::repeat("a").take(255).collect();
    let query = format!("insert 1 {} {}", username, email);
    let statement = Statement::try_from(query.as_str()).unwrap();

    let mut storage_factory = InMemoryStorageFactory::new();
    let mut table = Table::open(&mut storage_factory, "foobar").unwrap();

    execute_statement(&statement, &mut table).unwrap();
    let rows = execute_statement(&Statement::Select, &mut table).unwrap();
    assert_eq!(texts(&rows), vec![format!("(1, {}, {})", username, email)]);
}

#[test]
fn keep_data_after_close() {
    let statement = Statement::try_from("insert 1 foo bar").unwrap();
    let mut storage_factory = InMemoryStorageFactory::new();

    {
        let mut table = Table::open(&mut storage_factory, "foobar").unwrap();
        execute_statement(&statement, &mut table).unwrap();
        table.close();
    }

    {
        let mut table = Table::open(&mut storage_factory, "foobar").unwrap();
        let rows = execute_statement(&Statement::Select, &mut table).unwrap();
        assert_eq!(texts(&rows), vec!["(1, foo, bar)"]);
    }
}

#[test]
fn many_rows_survive_close_and_reopen() {
    let mut storage_factory = InMemoryStorageFactory::new();
    let ids: Vec<u32> = vec![30, 3, 17, 44, 1, 25, 9, 38, 12, 50, 6, 21, 33, 15, 41, 2, 28, 47, 19, 36];
    let before;
    {
        let mut table = Table::open(&mut storage_factory, "db").unwrap();
        for id in &ids {
            let statement = Statement::try_from(insert_query(*id).as_str()).unwrap();
            execute_statement(&statement, &mut table).unwrap();
        }
        before = texts(&execute_statement(&Statement::Select, &mut table).unwrap());
        table.close();
    }
    let mut table = Table::open(&mut storage_factory, "db").unwrap();
    let after = texts(&execute_statement(&Statement::Select, &mut table).unwrap());
    assert_eq!(before, after);
    assert_eq!(after.len(), ids.len());
}

#[test]
fn select_is_in_ascending_id_order() {
    let mut storage_factory = InMemoryStorageFactory::new();
    let mut table = Table::open(&mut storage_factory, "db").unwrap();
    let ids: Vec<u32> = (0..40u32).map(|i| (i * 17) % 41).collect();
    for id in &ids {
        let statement = Statement::try_from(insert_query(*id).as_str()).unwrap();
        execute_statement(&statement, &mut table).unwrap();
    }
    let rows = execute_statement(&Statement::Select, &mut table).unwrap();
    let got: Vec<u32> = rows.iter().map(|r| r.id).collect();
    let mut expected = ids.clone();
    expected.sort();
    assert_eq!(got, expected);
}

#[test]
fn prepare_select_and_unrecognized() {
    assert!(matches!(Statement::try_from("select"), Ok(Statement::Select)));
    assert_eq!(Statement::try_from("selec").unwrap_err(), PrepareError::UnrecognizedStatement);
    assert_eq!(Statement::try_from("update 1").unwrap_err(), PrepareError::UnrecognizedStatement);
    assert_eq!(Statement::try_from("").unwrap_err(), PrepareError::UnrecognizedStatement);
}

#[test]
fn prepare_syntax_errors() {
    assert_eq!(Statement::try_from("insert 1 a").unwrap_err(), PrepareError::SyntaxError);
    assert_eq!(Statement::try_from("insert x a b").unwrap_err(), PrepareError::SyntaxError);
    assert_eq!(Statement::try_from("insert 2147483648 a b").unwrap_err(), PrepareError::SyntaxError);
    assert_eq!(Statement::try_from("insert - a b").unwrap_err(), PrepareError::SyntaxError);
}

#[test]
fn prepare_insert_fields() {
    match Statement::try_from("insert +42 bob bob@x.org extra") {
        Ok(Statement::Insert(row)) => {
            assert_eq!(row.id, 42);
            assert_eq!(row.username, b"bob".to_vec());
            assert_eq!(row.email, b"bob@x.org".to_vec());
        }
        other => panic!("unexpected {:?}", other),
    }
    match Statement::try_from("insert 2147483647 a b") {
        Ok(Statement::Insert(row)) => assert_eq!(row.id, 2147483647),
        other => panic!("unexpected {:?}", other),
    }
    assert_eq!(Statement::try_from("insert -2147483648 a b").unwrap_err(), PrepareError::NegativeId);
}

#[test]
fn meta_commands() {
    let mut storage_factory = InMemoryStorageFactory::new();
    let table = Table::open(&mut storage_factory, "db").unwrap();
    assert_eq!(do_meta_command(".exit", &table), Ok(MetaCommand::Exit));
    assert_eq!(do_meta_command(".foo", &table), Err(MetaCommandError::UnrecognizedCommand));
    assert_eq!(do_meta_command(".", &table), Err(MetaCommandError::UnrecognizedCommand));
    match do_meta_command(".btree", &table) {
        Ok(MetaCommand::Print(text)) => {
            assert_eq!(String::from_utf8(text).unwrap(), "Tree:\n- leaf (size 0)\n")
        }
        other => panic!("unexpected {:?}", other),
    }
}
