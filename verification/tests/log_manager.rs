use ddbb::log::{decode, LogManager, Op};
use ddbb::record::{parse_record, LogError, Record};

/// Reads a log back as a store would at its start: every line is parsed, its
/// fields are decoded, and the change is replayed.
fn reopen(log: &[Vec<u8>]) -> Result<LogManager<String, i32>, LogError> {
    let mut store = LogManager::new();
    let mut ops = Vec::new();
    for line in log {
        let record = parse_record(line)?;
        let (key, value) = match &record {
            Record::Insert { key, value } => (
                String::from_utf8(key.clone()).ok(),
                String::from_utf8(value.clone()).ok().and_then(|v| v.parse::<i32>().ok()),
            ),
            Record::Delete { key } => (String::from_utf8(key.clone()).ok(), None),
        };
        ops.push(decode(&record, key, value)?);
    }
    store.recover_state(ops);
    Ok(store)
}

#[test]
fn test_log_manager_complex() {
    let mut log: Vec<Vec<u8>> = Vec::new();
    let mut log_manager = LogManager::new();

    // Insert 100 key-value pairs
    for i in 1..=100 {
        log.push(log_manager.insert(format!("key{}", i), i));
    }

    // Check if all key-value pairs were inserted correctly
    for i in 1..=100 {
        assert_eq!(log_manager.search(&format!("key{}", i)), Some(i));
    }

    // Delete some key-value pairs
    for i in 1..=100 {
        if i % 2 == 0 {
            log.push(log_manager.delete(&format!("key{}", i)));
        }
    }

    // Check if the deleted key-value pairs are removed
    for i in 1..=100 {
        if i % 2 == 0 {
            assert_eq!(log_manager.search(&format!("key{}", i)), None);
        } else {
            assert_eq!(log_manager.search(&format!("key{}", i)), Some(i));
        }
    }

    let log = log_manager.shutdown();
    println!("Log manager shutdown");

    let log_manager2 = reopen(&log).unwrap();

    // Check if the state is preserved after shutdown
    for i in 1..=100 {
        if i % 2 == 0 {
            assert_eq!(log_manager2.search(&format!("key{}", i)), None);
        } else {
            assert_eq!(log_manager2.search(&format!("key{}", i)), Some(i));
        }
    }
}

#[test]
fn replay_without_compaction_gives_the_same_contents() {
    let mut log: Vec<Vec<u8>> = Vec::new();
    let mut store = LogManager::new();
    for i in 1..=100 {
        log.push(store.insert(format!("key{}", i), i));
    }
    for i in 1..=100 {
        if i % 2 == 0 {
            log.push(store.delete(&format!("key{}", i)));
        }
    }
    assert_eq!(log.len(), 150);
    let reopened = reopen(&log).unwrap();
    for i in 1..=100 {
        let expected = if i % 2 == 0 { None } else { Some(i) };
        assert_eq!(reopened.search(&format!("key{}", i)), expected);
    }
}

#[test]
fn compacted_log_holds_one_insertion_for_each_entry() {
    let mut store = LogManager::new();
    for i in 1..=100 {
        store.insert(format!("key{}", i), i);
    }
    for i in 1..=100 {
        if i % 2 == 0 {
            store.delete(&format!("key{}", i));
        }
    }
    let log = store.shutdown();
    assert_eq!(log.len(), 50);
    for line in log.iter() {
        assert!(matches!(parse_record(line), Ok(Record::Insert { .. })));
    }
    assert_eq!(log[0], b"INSERT key1 1\n".to_vec());
    assert_eq!(log[1], b"INSERT key11 11\n".to_vec());
    assert_eq!(log[49], b"INSERT key99 99\n".to_vec());
}

#[test]
fn records_name_the_key_and_value_as_they_display() {
    let mut store = LogManager::new();
    assert_eq!(store.insert(String::from("a"), -5), b"INSERT a -5\n".to_vec());
    assert_eq!(store.delete(&String::from("a")), b"DELETE a\n".to_vec());
    assert_eq!(store.delete(&String::from("never")), b"DELETE never\n".to_vec());
}

#[test]
fn insert_of_a_present_key_is_logged_and_changes_nothing() {
    let mut store = LogManager::new();
    store.insert(String::from("k"), 1);
    assert_eq!(store.insert(String::from("k"), 2), b"INSERT k 2\n".to_vec());
    assert_eq!(store.search(&String::from("k")), Some(1));
}

#[test]
fn new_store_holds_nothing() {
    let store: LogManager<String, i32> = LogManager::new();
    assert_eq!(store.search(&String::from("k")), None);
    assert!(store.shutdown().is_empty());
}

#[test]
fn apply_replays_one_change() {
    let mut store: LogManager<u32, u32> = LogManager::new();
    store.apply(Op::Insert(1, 10));
    store.apply(Op::Insert(1, 20));
    store.apply(Op::Insert(2, 30));
    store.apply(Op::Delete(2));
    store.apply(Op::Delete(3));
    assert_eq!(store.search(&1), Some(10));
    assert_eq!(store.search(&2), None);
}

#[test]
fn corrupt_record_refuses_the_whole_log() {
    let log = vec![b"INSERT a 1\n".to_vec(), b"REMOVE a\n".to_vec()];
    assert!(matches!(reopen(&log), Err(LogError::LogCorrupt)));
    let log = vec![b"INSERT a one\n".to_vec()];
    assert!(matches!(reopen(&log), Err(LogError::LogCorrupt)));
}
