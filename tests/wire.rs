use rcore_fs_dfs::block::{BlockStore, TransportError};
use rcore_fs_dfs::wire::{
    check_ack, decode_request, encode_request, parse_read_response, read_response_len, serve,
    u64_from_be, u64_to_be, Request,
};

#[test]
fn big_endian_integers() {
    assert_eq!(u64_to_be(0x0102030405060708), vec![1, 2, 3, 4, 5, 6, 7, 8]);
    assert_eq!(u64_from_be(&[1, 2, 3, 4, 5, 6, 7, 8]), 0x0102030405060708);
    assert_eq!(u64_from_be(&u64_to_be(u64::MAX)), u64::MAX);
}

#[test]
fn request_frames() {
    let r = encode_request(&Request::Read { bid: 5 });
    assert_eq!(r, vec![0, 0, 0, 0, 0, 0, 0, 0, 0, 0, 0, 0, 0, 0, 0, 5]);
    let w = encode_request(&Request::Write { bid: 2, data: b"hi".to_vec() });
    let mut expected = vec![0, 0, 0, 0, 0, 0, 0, 1, 0, 0, 0, 0, 0, 0, 0, 2];
    expected.extend_from_slice(&[0, 0, 0, 0, 0, 0, 0, 2, b'h', b'i']);
    assert_eq!(w, expected);
    match decode_request(&w) {
        Some(Request::Write { bid, data }) => {
            assert_eq!(bid, 2);
            assert_eq!(data, b"hi".to_vec());
        }
        _ => panic!("write frame not parsed"),
    }
    assert!(matches!(decode_request(&r), Some(Request::Read { bid: 5 })));
}

#[test]
fn malformed_frames_are_refused() {
    assert!(decode_request(&[0u8; 15]).is_none());
    let mut bad_op = vec![0u8; 16];
    bad_op[7] = 2;
    assert!(decode_request(&bad_op).is_none());
    let mut short = encode_request(&Request::Write { bid: 2, data: b"hi".to_vec() });
    short.pop();
    assert!(decode_request(&short).is_none());
    let mut long_read = encode_request(&Request::Read { bid: 1 });
    long_read.push(0);
    assert!(decode_request(&long_read).is_none());
}

#[test]
fn serving_reads_and_writes() {
    let mut store = BlockStore::new();
    let resp = serve(&mut store, &Request::Read { bid: 9 });
    assert_eq!(resp, vec![0u8; 8]);
    let ack = serve(&mut store, &Request::Write { bid: 9, data: b"abc".to_vec() });
    assert_eq!(ack.len(), 8);
    assert_eq!(check_ack(&ack), Ok(()));
    let resp = serve(&mut store, &Request::Read { bid: 9 });
    assert_eq!(resp, vec![0, 0, 0, 0, 0, 0, 0, 3, b'a', b'b', b'c']);
}

#[test]
fn read_responses() {
    let mut buf = vec![9u8; 4];
    assert_eq!(parse_read_response(&[0, 0, 0, 0, 0, 0, 0, 2, 1, 2], &mut buf), Ok(2));
    assert_eq!(buf, vec![1, 2, 9, 9]);
    assert_eq!(parse_read_response(&[0u8; 8], &mut buf), Err(TransportError::NotFound));
    assert_eq!(
        parse_read_response(&[0, 0, 0, 0, 0, 0, 0, 5, 1, 2, 3, 4, 5], &mut buf),
        Err(TransportError::TooSmall)
    );
    assert_eq!(
        parse_read_response(&[0, 0, 0, 0, 0, 0, 0, 3, 1, 2], &mut buf),
        Err(TransportError::Failure)
    );
    assert_eq!(parse_read_response(&[0, 0, 0], &mut buf), Err(TransportError::Failure));
    assert_eq!(read_response_len(&[0, 0, 0, 0, 0, 0, 1, 0], 4096), Ok(256));
    assert_eq!(check_ack(&[0, 0, 0]), Err(TransportError::Failure));
}

#[test]
fn remote_parity_between_two_nodes() {
    // node B's store, reached by node A through frames only
    let mut node_b = BlockStore::new();
    let data = b"remote block".to_vec();
    let frame = encode_request(&Request::Write { bid: 42, data: data.clone() });
    let req = decode_request(&frame).unwrap();
    let ack = serve(&mut node_b, &req);
    assert_eq!(check_ack(&ack), Ok(()));
    let frame = encode_request(&Request::Read { bid: 42 });
    let req = decode_request(&frame).unwrap();
    let resp = serve(&mut node_b, &req);
    let mut buf = vec![0u8; 4096];
    let n = parse_read_response(&resp, &mut buf).unwrap();
    assert_eq!(&buf[..n], &data[..]);
}
