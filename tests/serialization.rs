use cstack::serialization::{deserialize_row, serialize_row, Row, ROW_SIZE};

fn row(id: u32, username: &str, email: &str) -> Row {
    Row { id, username: username.as_bytes().to_vec(), email: email.as_bytes().to_vec() }
}

#[test]
fn serialize_and_deserialize_row() {
    let expected = row(1234, "John Doe", "johndoe@example.com");
    let mut row_bytes = [0u8; ROW_SIZE];
    serialize_row(&expected, &mut row_bytes);
    let actual = deserialize_row(&row_bytes).unwrap();
    assert_eq!(expected, actual);
}

#[test]
fn row_layout_is_fixed_width() {
    let r = row(0x01020304, "ab", "c");
    let mut bytes = [9u8; ROW_SIZE];
    serialize_row(&r, &mut bytes);
    assert_eq!(&bytes[0..4], &[4, 3, 2, 1]);
    assert_eq!(&bytes[4..8], &[2, 0, 0, 0]);
    assert_eq!(&bytes[8..10], b"ab");
    assert!(bytes[10..40].iter().all(|b| *b == 0));
    assert_eq!(&bytes[40..44], &[1, 0, 0, 0]);
    assert_eq!(bytes[44], b'c');
    assert!(bytes[45..].iter().all(|b| *b == 0));
}

#[test]
fn row_round_trip_at_max_lengths() {
    let username = "a".repeat(32);
    let email = "b".repeat(255);
    let expected = row(u32::MAX, &username, &email);
    let mut bytes = [0u8; ROW_SIZE];
    serialize_row(&expected, &mut bytes);
    assert_eq!(deserialize_row(&bytes).unwrap(), expected);
}

#[test]
fn deserialize_rejects_long_length_field() {
    let mut bytes = [0u8; ROW_SIZE];
    bytes[4] = 33;
    assert!(deserialize_row(&bytes).is_none());
    let mut bytes = [0u8; ROW_SIZE];
    bytes[40] = 0;
    bytes[41] = 1;
    assert!(deserialize_row(&bytes).is_none());
}

#[test]
fn row_text() {
    let r = row(1, "a", "b");
    assert_eq!(String::from_utf8(r.to_text()).unwrap(), "(1, a, b)");
    let r = row(4294967295, "user", "e@x");
    assert_eq!(String::from_utf8(r.to_text()).unwrap(), "(4294967295, user, e@x)");
}
