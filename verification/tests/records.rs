use ddbb::log::{decode, Op};
use ddbb::record::{encode_delete, encode_insert, parse_record, LogError, Record};

fn insert_of(line: &[u8]) -> (Vec<u8>, Vec<u8>) {
    match parse_record(line) {
        Ok(Record::Insert { key, value }) => (key, value),
        other => panic!("no insertion: {:?}", other),
    }
}

fn delete_of(line: &[u8]) -> Vec<u8> {
    match parse_record(line) {
        Ok(Record::Delete { key }) => key,
        other => panic!("no deletion: {:?}", other),
    }
}

#[test]
fn insert_line_has_the_exact_bytes() {
    assert_eq!(encode_insert(b"key1", b"1"), b"INSERT key1 1\n".to_vec());
}

#[test]
fn delete_line_has_the_exact_bytes() {
    assert_eq!(encode_delete(b"key2"), b"DELETE key2\n".to_vec());
}

#[test]
fn written_records_read_back() {
    assert_eq!(
        insert_of(&encode_insert(b"apple", b"42")),
        (b"apple".to_vec(), b"42".to_vec())
    );
    assert_eq!(delete_of(&encode_delete(b"apple")), b"apple".to_vec());
}

#[test]
fn fields_may_be_separated_by_any_white_space() {
    assert_eq!(
        insert_of(b"  INSERT\tk \x0b v\r\n"),
        (b"k".to_vec(), b"v".to_vec())
    );
    assert_eq!(delete_of(b"DELETE   k"), b"k".to_vec());
}

#[test]
fn fields_beyond_those_of_the_record_are_ignored() {
    assert_eq!(
        insert_of(b"INSERT k v extra\n"),
        (b"k".to_vec(), b"v".to_vec())
    );
    assert_eq!(delete_of(b"DELETE k v\n"), b"k".to_vec());
}

#[test]
fn unknown_first_field_is_corrupt() {
    assert!(matches!(parse_record(b"UPDATE k v\n"), Err(LogError::LogCorrupt)));
    assert!(matches!(parse_record(b"insert k v\n"), Err(LogError::LogCorrupt)));
    assert!(matches!(parse_record(b"INSERTS k v\n"), Err(LogError::LogCorrupt)));
    assert!(matches!(parse_record(b"INSER k v\n"), Err(LogError::LogCorrupt)));
}

#[test]
fn empty_line_is_corrupt() {
    assert!(matches!(parse_record(b""), Err(LogError::LogCorrupt)));
    assert!(matches!(parse_record(b" \t\n"), Err(LogError::LogCorrupt)));
}

#[test]
fn missing_field_is_corrupt() {
    assert!(matches!(parse_record(b"INSERT\n"), Err(LogError::LogCorrupt)));
    assert!(matches!(parse_record(b"INSERT k\n"), Err(LogError::LogCorrupt)));
    assert!(matches!(parse_record(b"DELETE\n"), Err(LogError::LogCorrupt)));
}

#[test]
fn decode_gives_the_change_of_the_record() {
    let insert = Record::Insert { key: b"k".to_vec(), value: b"1".to_vec() };
    let delete = Record::Delete { key: b"k".to_vec() };
    assert!(matches!(decode(&insert, Some(5u32), Some(6u32)), Ok(Op::Insert(5, 6))));
    assert!(matches!(decode(&delete, Some(5u32), None::<u32>), Ok(Op::Delete(5))));
    assert!(matches!(decode(&delete, Some(5u32), Some(6u32)), Ok(Op::Delete(5))));
}

#[test]
fn decode_fails_where_a_needed_field_did_not_decode() {
    let insert = Record::Insert { key: b"k".to_vec(), value: b"x".to_vec() };
    let delete = Record::Delete { key: b"k".to_vec() };
    assert!(matches!(decode(&insert, None::<u32>, Some(6u32)), Err(LogError::LogCorrupt)));
    assert!(matches!(decode(&insert, Some(5u32), None::<u32>), Err(LogError::LogCorrupt)));
    assert!(matches!(decode(&delete, None::<u32>, Some(6u32)), Err(LogError::LogCorrupt)));
}
