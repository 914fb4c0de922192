use kvs::{KvStore, KvsError, LogPointer};

fn s(text: &str) -> String {
    text.to_owned()
}

#[test]
fn basic_set_get() {
    let mut store = KvStore::open(0, Vec::new()).unwrap();
    store.set(s("k"), s("v")).unwrap();
    assert_eq!(store.get(s("k")).unwrap(), Some(s("v")));
    assert_eq!(store.get(s("missing")).unwrap(), None);
}

#[test]
fn set_writes_the_record_as_json() {
    let mut store = KvStore::new();
    store.set(s("k"), s("v")).unwrap();
    assert_eq!(store.log().as_slice(), br#"{"Set":{"key":"k","value":"v"}}"#.as_slice());
    store.remove(s("k")).unwrap();
    assert_eq!(
        store.log().as_slice(),
        br#"{"Set":{"key":"k","value":"v"}}{"Rm":{"key":"k"}}"#.as_slice()
    );
}

#[test]
fn overwrite() {
    let mut store = KvStore::new();
    store.set(s("k"), s("a")).unwrap();
    let first = store.log().len();
    assert_eq!(store.garbage(), 0);
    store.set(s("k"), s("b")).unwrap();
    assert_eq!(store.get(s("k")).unwrap(), Some(s("b")));
    assert_eq!(
        store.log().as_slice(),
        br#"{"Set":{"key":"k","value":"a"}}{"Set":{"key":"k","value":"b"}}"#.as_slice()
    );
    assert_eq!(store.garbage(), first);
    assert_eq!(store.garbage(), 31);
    assert_eq!(store.pointer(&s("k")), Some(LogPointer { offset: 31, size: 31 }));
    assert_eq!(store.file_number(), 0);
}

#[test]
fn remove_semantics() {
    let mut store = KvStore::new();
    store.set(s("k"), s("v")).unwrap();
    store.remove(s("k")).unwrap();
    assert_eq!(store.get(s("k")).unwrap(), None);
    assert_eq!(store.remove(s("k")), Err(KvsError::NotFound { key: s("k") }));
}

#[test]
fn remove_of_an_absent_key_still_appends_its_record() {
    let mut store = KvStore::new();
    assert_eq!(store.remove(s("k")), Err(KvsError::NotFound { key: s("k") }));
    assert_eq!(store.log().as_slice(), br#"{"Rm":{"key":"k"}}"#.as_slice());
    assert_eq!(store.garbage(), 0);
    assert_eq!(store.len(), 0);
    let again = KvStore::open(0, store.log().clone()).unwrap();
    assert_eq!(again.get(s("k")).unwrap(), None);
}

#[test]
fn remove_counts_the_removed_record_as_garbage() {
    let mut store = KvStore::new();
    store.set(s("k"), s("v")).unwrap();
    let size = store.log().len();
    store.remove(s("k")).unwrap();
    assert_eq!(store.garbage(), size);
    assert_eq!(store.len(), 0);
    assert_eq!(store.pointer(&s("k")), None);
}

#[test]
fn persistence_across_open() {
    let mut a = KvStore::open(0, Vec::new()).unwrap();
    a.set(s("a"), s("1")).unwrap();
    a.set(s("b"), s("2")).unwrap();
    a.remove(s("a")).unwrap();
    let bytes = a.log().clone();
    let number = a.file_number();
    drop(a);
    let b = KvStore::open(number, bytes).unwrap();
    assert_eq!(b.get(s("a")).unwrap(), None);
    assert_eq!(b.get(s("b")).unwrap(), Some(s("2")));
}

#[test]
fn reopening_gives_the_same_index_and_garbage() {
    let mut a = KvStore::new();
    a.set(s("a"), s("1")).unwrap();
    a.set(s("b"), s("2")).unwrap();
    a.set(s("a"), s("3")).unwrap();
    a.remove(s("b")).unwrap();
    let b = KvStore::open(a.file_number(), a.log().clone()).unwrap();
    assert_eq!(b.garbage(), a.garbage());
    assert_eq!(b.len(), a.len());
    assert_eq!(b.pointer(&s("a")), a.pointer(&s("a")));
    assert_eq!(b.pointer(&s("b")), None);
    assert_eq!(b.get(s("a")).unwrap(), Some(s("3")));
    assert_eq!(b.log(), a.log());
}

#[test]
fn compaction_correctness() {
    let mut store = KvStore::open(0, Vec::new()).unwrap();
    let mut last = String::new();
    for i in 0..2000 {
        let mut value = format!("{:08}", i);
        while value.len() < 1024 {
            value.push('x');
        }
        store.set(s("k"), value.clone()).unwrap();
        last = value;
    }
    assert_eq!(store.get(s("k")).unwrap(), Some(last.clone()));
    assert!(store.file_number() >= 1);
    assert!(store.garbage() <= 1024 * 1024);
    assert!(store.log().len() < 2 * 1024 * 1024);
    let again = KvStore::open(store.file_number(), store.log().clone()).unwrap();
    assert_eq!(again.get(s("k")).unwrap(), Some(last));
}

#[test]
fn index_fidelity_after_compaction() {
    let mut store = KvStore::new();
    let mut expected = Vec::new();
    for i in 0..100 {
        store.set(format!("key{}", i), format!("first{}", i)).unwrap();
        expected.push(format!("first{}", i));
    }
    let filler = "y".repeat(4096);
    let mut round = 0;
    while store.file_number() == 0 {
        for i in 0..50 {
            let value = format!("{}-{}-{}", round, i, filler);
            store.set(format!("key{}", i), value.clone()).unwrap();
            expected[i] = value;
            if store.file_number() != 0 {
                break;
            }
        }
        round += 1;
        assert!(round < 100);
    }
    assert_eq!(store.file_number(), 1);
    assert_eq!(store.garbage(), 0);
    assert_eq!(store.len(), 100);
    let mut reachable = 0;
    for i in 0..100 {
        let key = format!("key{}", i);
        assert_eq!(store.get(key.clone()).unwrap(), Some(expected[i].clone()));
        let record = kvs::record::encode(&kvs::record::LogCommand::Put {
            key: key.clone(),
            value: expected[i].clone(),
        })
        .unwrap();
        let ptr = store.pointer(&key).unwrap();
        assert_eq!(ptr.size, record.len());
        assert_eq!(&store.log()[ptr.offset..ptr.offset + ptr.size], record.as_slice());
        reachable += record.len();
    }
    assert_eq!(store.log().len(), reachable);
}

#[test]
fn compact_leaves_one_record_per_key_in_index_order() {
    let mut store = KvStore::new();
    store.set(s("a"), s("1")).unwrap();
    store.set(s("b"), s("2")).unwrap();
    store.set(s("a"), s("3")).unwrap();
    store.set(s("c"), s("4")).unwrap();
    store.remove(s("b")).unwrap();
    assert!(store.garbage() > 0);
    store.compact().unwrap();
    assert_eq!(store.garbage(), 0);
    assert_eq!(store.file_number(), 1);
    assert_eq!(
        store.log().as_slice(),
        br#"{"Set":{"key":"a","value":"3"}}{"Set":{"key":"c","value":"4"}}"#.as_slice()
    );
    assert_eq!(store.pointer(&s("a")), Some(LogPointer { offset: 0, size: 31 }));
    assert_eq!(store.pointer(&s("c")), Some(LogPointer { offset: 31, size: 31 }));
    assert_eq!(store.get(s("a")).unwrap(), Some(s("3")));
    assert_eq!(store.get(s("b")).unwrap(), None);
    assert_eq!(store.get(s("c")).unwrap(), Some(s("4")));
}

#[test]
fn compaction_runs_exactly_when_garbage_exceeds_the_threshold() {
    // Each record is 31 + 5 + 1000 bytes long.
    let value = "z".repeat(1000);
    let record = br#"{"Set":{"key":"k","value":""}}"#.len() + 1000;
    let mut store = KvStore::new();
    store.set(s("k"), value.clone()).unwrap();
    let mut dead = 0;
    loop {
        store.set(s("k"), value.clone()).unwrap();
        dead += record;
        if dead > 1024 * 1024 {
            break;
        }
        assert_eq!(store.file_number(), 0);
        assert_eq!(store.garbage(), dead);
    }
    assert_eq!(store.file_number(), 1);
    assert_eq!(store.garbage(), 0);
    assert_eq!(store.log().len(), record);
    assert_eq!(store.get(s("k")).unwrap(), Some(value));
}

#[test]
fn compact_fails_when_the_file_numbers_are_used_up() {
    let mut store = KvStore::open(usize::MAX, Vec::new()).unwrap();
    store.set(s("k"), s("v")).unwrap();
    let before = store.log().clone();
    assert_eq!(store.compact(), Err(KvsError::CantOpen));
    assert_eq!(store.log(), &before);
    assert_eq!(store.file_number(), usize::MAX);
    assert_eq!(store.get(s("k")).unwrap(), Some(s("v")));
}

#[test]
fn set_twice_is_idempotent() {
    let mut once = KvStore::new();
    once.set(s("k"), s("v")).unwrap();
    let mut twice = KvStore::new();
    twice.set(s("k"), s("v")).unwrap();
    twice.set(s("k"), s("v")).unwrap();
    assert_eq!(once.get(s("k")).unwrap(), twice.get(s("k")).unwrap());
    assert_eq!(once.len(), twice.len());
    assert_eq!(twice.get(s("other")).unwrap(), None);
}

#[test]
fn last_update_of_a_key_decides() {
    let mut store = KvStore::new();
    store.set(s("a"), s("1")).unwrap();
    store.set(s("b"), s("2")).unwrap();
    store.remove(s("a")).unwrap();
    store.set(s("b"), s("3")).unwrap();
    store.set(s("a"), s("4")).unwrap();
    store.set(s("c"), s("5")).unwrap();
    store.remove(s("c")).unwrap();
    assert_eq!(store.get(s("a")).unwrap(), Some(s("4")));
    assert_eq!(store.get(s("b")).unwrap(), Some(s("3")));
    assert_eq!(store.get(s("c")).unwrap(), None);
}

#[test]
fn empty_key_and_empty_value_round_trip() {
    let mut store = KvStore::new();
    store.set(s(""), s("")).unwrap();
    assert_eq!(store.get(s("")).unwrap(), Some(s("")));
    store.set(s("k"), s("")).unwrap();
    store.set(s(""), s("v")).unwrap();
    assert_eq!(store.get(s("k")).unwrap(), Some(s("")));
    assert_eq!(store.get(s("")).unwrap(), Some(s("v")));
    let again = KvStore::open(0, store.log().clone()).unwrap();
    assert_eq!(again.get(s("k")).unwrap(), Some(s("")));
    assert_eq!(again.get(s("")).unwrap(), Some(s("v")));
}

#[test]
fn values_with_quotes_whitespace_and_unicode_round_trip() {
    let values = [
        "with \"quotes\" inside",
        " leading and trailing ",
        "line\nbreak\ttab\r\n",
        "back\\slash and }} braces {\"Set\":",
        "caf\u{e9} \u{4e2d}\u{6587} \u{1f980}",
        "\u{0}\u{1}\u{1f}\u{7f}",
    ];
    let mut store = KvStore::new();
    for (i, value) in values.iter().enumerate() {
        store.set(format!("key {}", i), s(value)).unwrap();
        store.set(s(value), format!("value {}", i)).unwrap();
    }
    let again = KvStore::open(0, store.log().clone()).unwrap();
    for (i, value) in values.iter().enumerate() {
        assert_eq!(store.get(format!("key {}", i)).unwrap(), Some(s(value)));
        assert_eq!(store.get(s(value)).unwrap(), Some(format!("value {}", i)));
        assert_eq!(again.get(format!("key {}", i)).unwrap(), Some(s(value)));
        assert_eq!(again.get(s(value)).unwrap(), Some(format!("value {}", i)));
    }
}

#[test]
fn opening_an_empty_log_gives_an_empty_store() {
    let store = KvStore::open(7, Vec::new()).unwrap();
    assert_eq!(store.get(s("k")).unwrap(), None);
    assert_eq!(store.get(s("")).unwrap(), None);
    assert_eq!(store.len(), 0);
    assert_eq!(store.garbage(), 0);
    assert_eq!(store.file_number(), 7);
    assert!(store.log().is_empty());
}

#[test]
fn new_and_default_are_empty() {
    let store = KvStore::new();
    assert_eq!(store.get(s("hello")).unwrap(), None);
    assert_eq!(store.file_number(), 0);
    let other = KvStore::default();
    assert_eq!(other.len(), 0);
    assert!(other.log().is_empty());
}

#[test]
fn open_rejects_a_partial_trailing_record() {
    let mut store = KvStore::new();
    store.set(s("a"), s("1")).unwrap();
    store.set(s("b"), s("2")).unwrap();
    let mut bytes = store.log().clone();
    bytes.truncate(bytes.len() - 1);
    assert_eq!(KvStore::open(0, bytes).err(), Some(KvsError::ParseError));
}

#[test]
fn open_rejects_bytes_that_are_no_record() {
    assert_eq!(KvStore::open(0, b"garbage".to_vec()).err(), Some(KvsError::ParseError));
    assert_eq!(KvStore::open(0, b" ".to_vec()).err(), Some(KvsError::ParseError));
    assert_eq!(
        KvStore::open(0, br#"{"Set":{"key":"k","value":"v"}} "#.to_vec()).err(),
        Some(KvsError::ParseError)
    );
    assert_eq!(
        KvStore::open(0, br#"{"Get":{"key":"k"}}"#.to_vec()).err(),
        Some(KvsError::ParseError)
    );
}

#[test]
fn open_replays_sets_and_removes() {
    let log = br#"{"Set":{"key":"a","value":"1"}}{"Rm":{"key":"a"}}{"Set":{"key":"b","value":"2"}}{"Rm":{"key":"zz"}}"#;
    let store = KvStore::open(0, log.to_vec()).unwrap();
    assert_eq!(store.get(s("a")).unwrap(), None);
    assert_eq!(store.get(s("b")).unwrap(), Some(s("2")));
    assert_eq!(store.garbage(), 31);
    assert_eq!(store.pointer(&s("b")), Some(LogPointer { offset: 31 + 18, size: 31 }));
    assert_eq!(store.len(), 1);
}

#[test]
fn compaction_writes_escaped_text_anew() {
    // "A" is another way to write "A"; the compacted record holds "A".
    let log = br#"{"Set":{"key":"k","value":"A"}}"#;
    let mut store = KvStore::open(0, log.to_vec()).unwrap();
    assert_eq!(store.get(s("k")).unwrap(), Some(s("A")));
    store.compact().unwrap();
    assert_eq!(store.log().as_slice(), br#"{"Set":{"key":"k","value":"A"}}"#.as_slice());
    assert_eq!(store.pointer(&s("k")), Some(LogPointer { offset: 0, size: 31 }));
    assert_eq!(store.get(s("k")).unwrap(), Some(s("A")));
}

#[test]
fn open_does_not_compact_but_the_next_update_does() {
    let value = "w".repeat(64 * 1024);
    let record = kvs::record::encode(&kvs::record::LogCommand::Put {
        key: s("k"),
        value: value.clone(),
    })
    .unwrap();
    let mut log = Vec::new();
    for _ in 0..18 {
        log.extend_from_slice(&record);
    }
    let mut store = KvStore::open(2, log.clone()).unwrap();
    assert_eq!(store.file_number(), 2);
    assert_eq!(store.garbage(), 17 * record.len());
    assert!(store.garbage() > 1024 * 1024);
    assert_eq!(store.log(), &log);
    assert_eq!(store.get(s("k")).unwrap(), Some(value.clone()));
    store.set(s("other"), s("v")).unwrap();
    assert_eq!(store.file_number(), 3);
    assert_eq!(store.garbage(), 0);
    assert_eq!(store.log().len(), record.len() + br#"{"Set":{"key":"other","value":"v"}}"#.len());
    assert_eq!(store.get(s("k")).unwrap(), Some(value));
    assert_eq!(store.get(s("other")).unwrap(), Some(s("v")));
}

#[test]
fn remove_compacts_when_it_leaves_too_many_dead_bytes() {
    let value = "v".repeat(600 * 1024);
    let mut store = KvStore::new();
    store.set(s("a"), value.clone()).unwrap();
    store.set(s("b"), value.clone()).unwrap();
    store.set(s("c"), s("kept")).unwrap();
    store.remove(s("a")).unwrap();
    assert_eq!(store.file_number(), 0);
    assert!(store.garbage() > 600 * 1024);
    store.remove(s("b")).unwrap();
    assert_eq!(store.file_number(), 1);
    assert_eq!(store.garbage(), 0);
    assert_eq!(store.log().as_slice(), br#"{"Set":{"key":"c","value":"kept"}}"#.as_slice());
    assert_eq!(store.get(s("a")).unwrap(), None);
    assert_eq!(store.get(s("b")).unwrap(), None);
    assert_eq!(store.get(s("c")).unwrap(), Some(s("kept")));
}

#[test]
fn a_failed_remove_does_not_compact() {
    let value = "v".repeat(64 * 1024);
    let record = kvs::record::encode(&kvs::record::LogCommand::Put {
        key: s("k"),
        value: value.clone(),
    })
    .unwrap();
    let mut log = Vec::new();
    for _ in 0..18 {
        log.extend_from_slice(&record);
    }
    let mut store = KvStore::open(0, log).unwrap();
    assert!(store.garbage() > 1024 * 1024);
    assert_eq!(store.remove(s("absent")), Err(KvsError::NotFound { key: s("absent") }));
    assert_eq!(store.file_number(), 0);
    assert_eq!(store.garbage(), 17 * record.len());
}
