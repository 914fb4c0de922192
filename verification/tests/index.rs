use kvs::index::Index;
use kvs::LogPointer;

fn p(offset: usize, size: usize) -> LogPointer {
    LogPointer { offset, size }
}

fn k(text: &str) -> String {
    text.to_owned()
}

#[test]
fn new_index_is_empty() {
    let index = Index::new();
    assert_eq!(index.len(), 0);
    assert_eq!(index.get(&k("a")), None);
    assert!(index.entry(0).is_none());
}

#[test]
fn insert_gives_back_the_old_pointer() {
    let mut index = Index::new();
    assert_eq!(index.insert(k("a"), p(0, 10)), None);
    assert_eq!(index.insert(k("b"), p(10, 5)), None);
    assert_eq!(index.insert(k("a"), p(15, 7)), Some(p(0, 10)));
    assert_eq!(index.len(), 2);
    assert_eq!(index.get(&k("a")), Some(p(15, 7)));
    assert_eq!(index.get(&k("b")), Some(p(10, 5)));
    assert_eq!(index.get(&k("c")), None);
}

#[test]
fn entries_keep_the_order_in_which_keys_came() {
    let mut index = Index::new();
    index.insert(k("b"), p(0, 1));
    index.insert(k("a"), p(1, 2));
    index.insert(k("b"), p(3, 4));
    index.insert(k("c"), p(7, 8));
    assert_eq!(index.entry(0), Some((&k("b"), p(3, 4))));
    assert_eq!(index.entry(1), Some((&k("a"), p(1, 2))));
    assert_eq!(index.entry(2), Some((&k("c"), p(7, 8))));
    assert_eq!(index.entry(3), None);
}

#[test]
fn remove_takes_the_entry_out() {
    let mut index = Index::new();
    index.insert(k("a"), p(0, 1));
    index.insert(k("b"), p(1, 2));
    index.insert(k("c"), p(3, 4));
    assert_eq!(index.remove(&k("b")), Some(p(1, 2)));
    assert_eq!(index.remove(&k("b")), None);
    assert_eq!(index.remove(&k("zz")), None);
    assert_eq!(index.len(), 2);
    assert_eq!(index.entry(0), Some((&k("a"), p(0, 1))));
    assert_eq!(index.entry(1), Some((&k("c"), p(3, 4))));
    assert_eq!(index.get(&k("b")), None);
}

#[test]
fn relocate_replaces_pointers_in_order() {
    let mut index = Index::new();
    index.insert(k("a"), p(0, 1));
    index.insert(k("b"), p(1, 2));
    index.insert(k("c"), p(3, 4));
    index.relocate(&vec![p(100, 10), p(110, 20)]);
    assert_eq!(index.get(&k("a")), Some(p(100, 10)));
    assert_eq!(index.get(&k("b")), Some(p(110, 20)));
    assert_eq!(index.get(&k("c")), Some(p(3, 4)));
    index.relocate(&vec![p(0, 1), p(1, 1), p(2, 1), p(3, 1)]);
    assert_eq!(index.entry(2), Some((&k("c"), p(2, 1))));
    assert_eq!(index.len(), 3);
}

#[test]
fn empty_key_is_a_key() {
    let mut index = Index::new();
    assert_eq!(index.insert(k(""), p(0, 3)), None);
    assert_eq!(index.get(&k("")), Some(p(0, 3)));
    assert_eq!(index.remove(&k("")), Some(p(0, 3)));
    assert_eq!(index.len(), 0);
}
