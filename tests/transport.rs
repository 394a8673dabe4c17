use rcore_fs_dfs::block::{BlockStore, TransportError};
use rcore_fs_dfs::transport::{node_port, route, MemTransport, Route, Transport};

#[test]
fn transport() {
    // two nodes; over sockets node 1 would listen on the base port 3000 plus its id
    assert_eq!(node_port(3000, 1), Some(3001));
    let mut t1 = MemTransport::new(0, 2);
    t1.set(0, 1, b"foo").unwrap();
    t1.set(1, 1, b"bar").unwrap();
    let mut t2 = t1.seen_from(1);
    t2.set(0, 2, b"baz").unwrap();
    let t1 = t2.seen_from(0);
    let mut buf = vec![0u8; 4096];
    let n = t1.get(0, 1, &mut buf).unwrap();
    assert_eq!(b"foo", &buf[..n]);
    let n = t1.get(1, 1, &mut buf).unwrap();
    assert_eq!(b"bar", &buf[..n]);
    let n = t1.get(0, 2, &mut buf).unwrap();
    assert_eq!(b"baz", &buf[..n]);
}

#[test]
fn identity_and_population() {
    let t = MemTransport::new(1, 3);
    assert_eq!(t.nid(), 1);
    assert_eq!(t.len(), 3);
}

#[test]
fn round_trip_local_and_remote() {
    let mut t = MemTransport::new(0, 2);
    let data: Vec<u8> = (0..512u32).map(|i| (i % 251) as u8).collect();
    for nid in 0..2u64 {
        t.set(nid, 7, &data).unwrap();
        let mut buf = vec![0u8; 4096];
        let n = t.get(nid, 7, &mut buf).unwrap();
        assert_eq!(n, 512);
        assert_eq!(&buf[..n], &data[..]);
        assert!(buf[n..].iter().all(|b| *b == 0));
    }
}

#[test]
fn overwrite_keeps_last_write() {
    let mut t = MemTransport::new(0, 2);
    t.set(1, 3, b"first").unwrap();
    t.set(1, 3, b"second").unwrap();
    let mut buf = vec![0u8; 16];
    let n = t.get(1, 3, &mut buf).unwrap();
    assert_eq!(&buf[..n], b"second");
}

#[test]
fn unwritten_block_is_not_found() {
    let mut t = MemTransport::new(0, 2);
    let mut buf = vec![7u8; 8];
    assert_eq!(t.get(0, 0, &mut buf), Err(TransportError::NotFound));
    assert_eq!(t.get(1, 99, &mut buf), Err(TransportError::NotFound));
    t.set(0, 1, b"x").unwrap();
    assert_eq!(t.get(0, 2, &mut buf), Err(TransportError::NotFound));
    assert_eq!(buf, vec![7u8; 8]);
}

#[test]
fn small_buffer_is_refused_on_both_paths() {
    let mut t = MemTransport::new(0, 2);
    t.set(0, 1, b"abcdef").unwrap();
    t.set(1, 1, b"abcdef").unwrap();
    let mut buf = vec![0u8; 4];
    assert_eq!(t.get(0, 1, &mut buf), Err(TransportError::TooSmall));
    assert_eq!(t.get(1, 1, &mut buf), Err(TransportError::TooSmall));
}

#[test]
fn unknown_node_fails() {
    let mut t = MemTransport::new(0, 2);
    let mut buf = vec![0u8; 4];
    assert_eq!(t.get(5, 1, &mut buf), Err(TransportError::Failure));
    assert_eq!(t.set(5, 1, b"a"), Err(TransportError::Failure));
}

#[test]
fn block_store_get_and_set() {
    let mut s = BlockStore::new();
    assert!(!s.contains(4));
    s.set(4, b"data");
    assert!(s.contains(4));
    let mut buf = vec![0u8; 6];
    assert_eq!(s.get(4, &mut buf), Ok(4));
    assert_eq!(buf, b"data\0\0".to_vec());
    assert_eq!(s.lookup(4), Some(b"data".to_vec()));
    assert_eq!(s.lookup(5), None);
}

#[test]
fn routes_and_ports() {
    assert_eq!(route(1, 3000, 1), Route::Local);
    assert_eq!(route(1, 3000, 0), Route::Remote { port: 3000 });
    assert_eq!(route(0, 3000, 7), Route::Remote { port: 3007 });
    assert_eq!(route(0, 65530, 10), Route::Unreachable);
    assert_eq!(node_port(65530, 5), Some(65535));
    assert_eq!(node_port(65530, 6), None);
}
