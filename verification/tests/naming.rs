use kvs::naming::{log_file_name, log_file_number, pick_active_log};
use kvs::{KvStore, LogChange, LogMark};

#[test]
fn log_file_name_is_the_number_and_the_extension() {
    assert_eq!(log_file_name(0), "0.log");
    assert_eq!(log_file_name(7), "7.log");
    assert_eq!(log_file_name(10), "10.log");
    assert_eq!(log_file_name(1203), "1203.log");
    assert_eq!(log_file_name(usize::MAX), format!("{}.log", usize::MAX));
}

#[test]
fn log_file_number_reads_names_of_log_files() {
    assert_eq!(log_file_number("0.log"), Some(0));
    assert_eq!(log_file_number("9.log"), Some(9));
    assert_eq!(log_file_number("10.log"), Some(10));
    assert_eq!(log_file_number("1203.log"), Some(1203));
    assert_eq!(log_file_number(&format!("{}.log", usize::MAX)), Some(usize::MAX));
}

#[test]
fn log_file_number_rejects_other_names() {
    for name in [
        "", ".log", "log", "0", "0.txt", "0.log ", " 0.log", "00.log", "01.log", "-1.log",
        "+1.log", "1.5.log", "a.log", "1a.log", "0.LOG", "0.logs", "\u{663}.log", "1.log.bak",
    ] {
        assert_eq!(log_file_number(name), None, "{:?}", name);
    }
    assert_eq!(log_file_number(&format!("{}0.log", usize::MAX)), None);
    let digits = format!("{}", usize::MAX);
    let mut bigger = digits.into_bytes();
    let last = bigger.len() - 1;
    bigger[last] += 1;
    let bigger = String::from_utf8(bigger).unwrap();
    assert_eq!(log_file_number(&format!("{}.log", bigger)), None);
}

#[test]
fn names_and_numbers_round_trip() {
    for number in [0usize, 1, 9, 10, 11, 99, 100, 101, 65535, 65536, usize::MAX - 1, usize::MAX] {
        assert_eq!(log_file_number(&log_file_name(number)), Some(number));
    }
}

#[test]
fn pick_active_log_takes_the_highest_number() {
    let names: Vec<String> =
        ["notes.txt", "2.log", "10.log", "9.log", "x.log"].iter().map(|n| n.to_string()).collect();
    assert_eq!(pick_active_log(&names), Some((2, 10)));
    let names: Vec<String> = ["0.log"].iter().map(|n| n.to_string()).collect();
    assert_eq!(pick_active_log(&names), Some((0, 0)));
    let names: Vec<String> = ["3.log", "3.log"].iter().map(|n| n.to_string()).collect();
    assert_eq!(pick_active_log(&names), Some((0, 3)));
}

#[test]
fn pick_active_log_finds_none_without_log_files() {
    assert_eq!(pick_active_log(&Vec::new()), None);
    let names: Vec<String> = ["a.txt", "log", "01.log"].iter().map(|n| n.to_string()).collect();
    assert_eq!(pick_active_log(&names), None);
}

#[test]
fn change_since_tells_appends_from_compactions() {
    let mut store = KvStore::open(4, Vec::new()).unwrap();
    let start = store.mark();
    assert_eq!(start, LogMark { file_number: 4, len: 0 });
    assert_eq!(store.change_since(start), LogChange::Unchanged);
    store.set("k".to_owned(), "v".to_owned()).unwrap();
    assert_eq!(store.change_since(start), LogChange::Appended { from: 0 });
    let then = store.mark();
    assert_eq!(then, LogMark { file_number: 4, len: 31 });
    assert!(store.remove("absent".to_owned()).is_err());
    assert_eq!(store.change_since(then), LogChange::Appended { from: 31 });
    assert_eq!(&store.log()[31..], br#"{"Rm":{"key":"absent"}}"#.as_slice());
    let last = store.mark();
    store.compact().unwrap();
    assert_eq!(store.change_since(last), LogChange::Replaced { retired: 4 });
    assert_eq!(store.file_number(), 5);
    assert_eq!(store.change_since(store.mark()), LogChange::Unchanged);
    let _ = store.get("k".to_owned()).unwrap();
    assert_eq!(store.change_since(store.mark()), LogChange::Unchanged);
}
