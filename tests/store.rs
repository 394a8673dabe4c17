use rcore_fs_dfs::store::{bytes_eq, MemStore, Store};

#[test]
fn simple() {
    let mut store: Box<dyn Store> = Box::new(MemStore::new());
    store.put(b"foo", b"bar").unwrap();
    assert_eq!(store.get(b"foo").unwrap().unwrap(), b"bar");
    store.delete(b"foo").unwrap();
    assert_eq!(store.get(b"foo").unwrap(), None);
}

#[test]
fn put_replaces_and_keys_stay_apart() {
    let mut store = MemStore::new();
    store.put(b"a", b"1").unwrap();
    store.put(b"ab", b"2").unwrap();
    store.put(b"a", b"3").unwrap();
    assert_eq!(store.get(b"a").unwrap(), Some(b"3".to_vec()));
    assert_eq!(store.get(b"ab").unwrap(), Some(b"2".to_vec()));
    assert_eq!(store.get(b"").unwrap(), None);
    store.delete(b"a").unwrap();
    assert_eq!(store.get(b"a").unwrap(), None);
    assert_eq!(store.get(b"ab").unwrap(), Some(b"2".to_vec()));
    store.delete(b"missing").unwrap();
    store.put(b"", b"").unwrap();
    assert_eq!(store.get(b"").unwrap(), Some(Vec::new()));
}

#[test]
fn byte_equality() {
    assert!(bytes_eq(b"abc", b"abc"));
    assert!(!bytes_eq(b"abc", b"abd"));
    assert!(!bytes_eq(b"abc", b"ab"));
    assert!(bytes_eq(b"", b""));
}
