//! The protocol between nodes: one request and one response per connection, with every
//! integer sent as eight big-endian bytes.
//!
//! ```text
//! read request:   0 | block id
//! read response:  length | bytes[length]          (length 0: not found)
//! write request:  1 | block id | length | bytes[length]
//! write response: ack
//! ```
use crate::block::{copy_into, filled, BlockStore, TransportError};
use vstd::prelude::*;

verus! {

/// Opcode of a read request.
pub const OP_READ: u64 = 0;

/// Opcode of a write request.
pub const OP_WRITE: u64 = 1;

/// Length of the fixed part of a request: opcode and block id.
pub const HEADER_LEN: usize = 16;

/// The eight big-endian bytes of `x`.
pub open spec fn be64(x: u64) -> Seq<u8> {
    seq![
        (x >> 56u64) as u8,
        (x >> 48u64) as u8,
        (x >> 40u64) as u8,
        (x >> 32u64) as u8,
        (x >> 24u64) as u8,
        (x >> 16u64) as u8,
        (x >> 8u64) as u8,
        x as u8,
    ]
}

/// The integer whose big-endian bytes are the first eight of `s`.
pub open spec fn from_be64(s: Seq<u8>) -> u64 {
    ((s[0] as u64) << 56u64) | ((s[1] as u64) << 48u64) | ((s[2] as u64) << 40u64) | ((
    s[3] as u64) << 32u64) | ((s[4] as u64) << 24u64) | ((s[5] as u64) << 16u64) | ((
    s[6] as u64) << 8u64) | (s[7] as u64)
}

/// Reading back the bytes of an integer gives the integer.
pub proof fn lemma_from_be64_of_be64(x: u64)
    ensures
        from_be64(be64(x)) == x,
{
    let s = be64(x);
    let (b0, b1, b2, b3, b4, b5, b6, b7) = (s[0], s[1], s[2], s[3], s[4], s[5], s[6], s[7]);
    assert(((b0 as u64) << 56u64) | ((b1 as u64) << 48u64) | ((b2 as u64) << 40u64) | ((
    b3 as u64) << 32u64) | ((b4 as u64) << 24u64) | ((b5 as u64) << 16u64) | ((b6 as u64)
        << 8u64) | (b7 as u64) == x) by (bit_vector)
        requires
            b0 == (x >> 56u64) as u8,
            b1 == (x >> 48u64) as u8,
            b2 == (x >> 40u64) as u8,
            b3 == (x >> 32u64) as u8,
            b4 == (x >> 24u64) as u8,
            b5 == (x >> 16u64) as u8,
            b6 == (x >> 8u64) as u8,
            b7 == x as u8,
    ;
}

/// The big-endian bytes of `x`.
pub fn u64_to_be(x: u64) -> (r: Vec<u8>)
    ensures
        r@ == be64(x),
{
    let r = vec![
        (x >> 56u64) as u8,
        (x >> 48u64) as u8,
        (x >> 40u64) as u8,
        (x >> 32u64) as u8,
        (x >> 24u64) as u8,
        (x >> 16u64) as u8,
        (x >> 8u64) as u8,
        x as u8,
    ];
    assert(r@ =~= be64(x));
    r
}

/// The integer whose big-endian bytes start `b`.
pub fn u64_from_be(b: &[u8]) -> (r: u64)
    requires
        b@.len() >= 8,
    ensures
        r == from_be64(b@),
{
    ((b[0] as u64) << 56u64) | ((b[1] as u64) << 48u64) | ((b[2] as u64) << 40u64) | ((
    b[3] as u64) << 32u64) | ((b[4] as u64) << 24u64) | ((b[5] as u64) << 16u64) | ((
    b[6] as u64) << 8u64) | (b[7] as u64)
}

/// A request as a value: what a node asks of the node that owns a block.
pub enum RequestView {
    Read { bid: u64 },
    Write { bid: u64, data: Seq<u8> },
}

/// A request that one node sends to another.
pub enum Request {
    /// Asks for the content of block `bid`.
    Read { bid: u64 },
    /// Asks to overwrite block `bid` with `data`.
    Write { bid: u64, data: Vec<u8> },
}

impl View for Request {
    type V = RequestView;

    open spec fn view(&self) -> RequestView {
        match self {
            Request::Read { bid } => RequestView::Read { bid: *bid },
            Request::Write { bid, data } => RequestView::Write { bid: *bid, data: data@ },
        }
    }
}

/// The bytes that carry request `q`.
pub open spec fn request_bytes(q: RequestView) -> Seq<u8> {
    match q {
        RequestView::Read { bid } => be64(OP_READ) + be64(bid),
        RequestView::Write { bid, data } => be64(OP_WRITE) + be64(bid) + be64(data.len() as u64)
            + data,
    }
}

/// The request that the bytes `f` carry, if they are one whole request.
pub open spec fn parse_request(f: Seq<u8>) -> Option<RequestView> {
    if f.len() < HEADER_LEN {
        None
    } else {
        let op = from_be64(f.subrange(0, 8));
        let bid = from_be64(f.subrange(8, 16));
        if op == OP_READ && f.len() == HEADER_LEN {
            Some(RequestView::Read { bid })
        } else if op == OP_WRITE && f.len() >= HEADER_LEN + 8 && f.len() - (HEADER_LEN + 8)
            == from_be64(f.subrange(16, 24)) {
            Some(RequestView::Write { bid, data: f.subrange(24, f.len() as int) })
        } else {
            None
        }
    }
}

/// A request's bytes parse back to the request.
pub proof fn lemma_parse_request_bytes(q: RequestView)
    requires
        q matches RequestView::Write { data, .. } ==> data.len() <= u64::MAX,
    ensures
        parse_request(request_bytes(q)) == Some(q),
{
    let f = request_bytes(q);
    match q {
        RequestView::Read { bid } => {
            lemma_from_be64_of_be64(OP_READ);
            lemma_from_be64_of_be64(bid);
            assert(f.subrange(0, 8) =~= be64(OP_READ));
            assert(f.subrange(8, 16) =~= be64(bid));
        },
        RequestView::Write { bid, data } => {
            lemma_from_be64_of_be64(OP_WRITE);
            lemma_from_be64_of_be64(bid);
            lemma_from_be64_of_be64(data.len() as u64);
            assert(f.subrange(0, 8) =~= be64(OP_WRITE));
            assert(f.subrange(8, 16) =~= be64(bid));
            assert(f.subrange(16, 24) =~= be64(data.len() as u64));
            assert(f.subrange(24, f.len() as int) =~= data);
        },
    }
}

/// The bytes that carry `q`.
pub fn encode_request(q: &Request) -> (r: Vec<u8>)
    ensures
        r@ == request_bytes(q@),
{
    match q {
        Request::Read { bid } => {
            let mut r = u64_to_be(OP_READ);
            let mut b = u64_to_be(*bid);
            r.append(&mut b);
            r
        },
        Request::Write { bid, data } => {
            let mut r = u64_to_be(OP_WRITE);
            let mut b = u64_to_be(*bid);
            r.append(&mut b);
            let mut n = u64_to_be(data.len() as u64);
            r.append(&mut n);
            let mut i: usize = 0;
            while i < data.len()
                invariant
                    i <= data@.len(),
                    r@ == be64(OP_WRITE) + be64(*bid) + be64(data@.len() as u64) + data@.subrange(
                        0,
                        i as int,
                    ),
                decreases data@.len() - i,
            {
                r.push(data[i]);
                i = i + 1;
                assert(data@.subrange(0, i as int) =~= data@.subrange(0, i - 1) + seq![
                    data@[i - 1],
                ]);
            }
            assert(data@.subrange(0, data@.len() as int) =~= data@);
            r
        },
    }
}

/// The request that `f` carries, if it is one whole request.
pub fn decode_request(f: &[u8]) -> (r: Option<Request>)
    ensures
        match r {
            Some(q) => parse_request(f@) == Some(q@),
            None => parse_request(f@) is None,
        },
{
    if f.len() < HEADER_LEN {
        return None;
    }
    let op = u64_from_be(f);
    let rest = vstd::slice::slice_subrange(f, 8, f.len());
    let bid = u64_from_be(rest);
    proof {
        assert(f@.subrange(0, 8) =~= f@.subrange(0, 8));
        assert(from_be64(f@) == from_be64(f@.subrange(0, 8)));
        assert(from_be64(rest@) == from_be64(f@.subrange(8, 16)));
    }
    if op == OP_READ && f.len() == HEADER_LEN {
        Some(Request::Read { bid })
    } else if op == OP_WRITE && f.len() >= HEADER_LEN + 8 {
        let tail = vstd::slice::slice_subrange(f, HEADER_LEN, f.len());
        let len = u64_from_be(tail);
        assert(from_be64(tail@) == from_be64(f@.subrange(16, 24)));
        if (f.len() - (HEADER_LEN + 8)) as u64 == len {
            let data = vstd::slice::slice_to_vec(vstd::slice::slice_subrange(f, HEADER_LEN + 8, f.len()));
            Some(Request::Write { bid, data })
        } else {
            None
        }
    } else {
        None
    }
}

/// What a node that holds the blocks `s` does with request `q`: the blocks it holds
/// afterwards, and the bytes of its response.
pub open spec fn serve_spec(s: Map<u64, Seq<u8>>, q: RequestView) -> (Map<u64, Seq<u8>>, Seq<u8>) {
    match q {
        RequestView::Read { bid } => if s.contains_key(bid) {
            (s, be64(s[bid].len() as u64) + s[bid])
        } else {
            (s, be64(0))
        },
        RequestView::Write { bid, data } => (s.insert(bid, data), be64(0)),
    }
}

/// The response of a node that holds `store` to a read of block `bid`.
pub fn serve_read(store: &BlockStore, bid: u64) -> (resp: Vec<u8>)
    ensures
        resp@ == serve_spec(store@, RequestView::Read { bid }).1,
{
    match store.lookup(bid) {
        Some(mut v) => {
            let mut r = u64_to_be(v.len() as u64);
            r.append(&mut v);
            r
        },
        None => u64_to_be(0),
    }
}

/// Carries out request `q` on the blocks of this node and returns the response.
pub fn serve(store: &mut BlockStore, q: &Request) -> (resp: Vec<u8>)
    ensures
        (final(store)@, resp@) == serve_spec(old(store)@, q@),
{
    match q {
        Request::Read { bid } => serve_read(store, *bid),
        Request::Write { bid, data } => {
            store.set(*bid, data.as_slice());
            u64_to_be(0)
        },
    }
}

/// What the eight-byte head of a read response announces for a buffer of `cap` bytes: the
/// length of the content that follows, or why there is none to take.
pub open spec fn reply_len(head: Seq<u8>, cap: nat) -> Result<nat, TransportError> {
    let n = from_be64(head);
    if n == 0 {
        Err(TransportError::NotFound)
    } else if n > cap {
        Err(TransportError::TooSmall)
    } else {
        Ok(n as nat)
    }
}

/// The content that the read response `resp` carries, for a buffer of `cap` bytes.
pub open spec fn read_reply(resp: Seq<u8>, cap: nat) -> Result<Seq<u8>, TransportError> {
    if resp.len() < 8 {
        Err(TransportError::Failure)
    } else {
        match reply_len(resp.subrange(0, 8), cap) {
            Err(e) => Err(e),
            Ok(n) => if resp.len() == 8 + n {
                Ok(resp.subrange(8, resp.len() as int))
            } else {
                Err(TransportError::Failure)
            },
        }
    }
}

/// The length of the content that follows the head of a read response, checked against the
/// `cap` bytes of the buffer that is to take it.
pub fn read_response_len(head: &[u8], cap: usize) -> (r: Result<usize, TransportError>)
    requires
        head@.len() == 8,
    ensures
        match reply_len(head@, cap as nat) {
            Ok(n) => r == Ok::<usize, TransportError>(n as usize),
            Err(e) => r == Err::<usize, TransportError>(e),
        },
{
    let n = u64_from_be(head);
    if n == 0 {
        Err(TransportError::NotFound)
    } else if n > cap as u64 {
        Err(TransportError::TooSmall)
    } else {
        Ok(n as usize)
    }
}

/// Takes the content of the read response `resp` into the front of `buf`.
pub fn parse_read_response(resp: &[u8], buf: &mut [u8]) -> (r: Result<usize, TransportError>)
    ensures
        match read_reply(resp@, old(buf)@.len()) {
            Ok(c) => r == Ok::<usize, TransportError>(c.len() as usize) && final(buf)@ == filled(
                old(buf)@,
                c,
            ),
            Err(e) => r == Err::<usize, TransportError>(e) && final(buf)@ == old(buf)@,
        },
{
    if resp.len() < 8 {
        return Err(TransportError::Failure);
    }
    let head = vstd::slice::slice_subrange(resp, 0, 8);
    let n = match read_response_len(head, buf.len()) {
        Ok(n) => n,
        Err(e) => return Err(e),
    };
    if resp.len() - 8 != n {
        return Err(TransportError::Failure);
    }
    copy_into(buf, vstd::slice::slice_subrange(resp, 8, resp.len()));
    Ok(n)
}

/// Whether `resp` is the acknowledgement of a write: eight bytes, whatever their value.
pub fn check_ack(resp: &[u8]) -> (r: Result<(), TransportError>)
    ensures
        r is Ok <==> resp@.len() == 8,
        r matches Err(e) ==> e == TransportError::Failure,
{
    if resp.len() == 8 {
        Ok(())
    } else {
        Err(TransportError::Failure)
    }
}

/// A write sent over the wire and then read back over the wire gives the bytes written:
/// the owning node parses each request as it was sent, the write is acknowledged, and the
/// read's response carries the data, for any buffer that can take it.
pub proof fn lemma_remote_parity(store: Map<u64, Seq<u8>>, bid: u64, data: Seq<u8>, cap: nat)
    requires
        0 < data.len() <= cap,
        data.len() <= u64::MAX,
    ensures
        ({
            let w = RequestView::Write { bid, data };
            let q = RequestView::Read { bid };
            let (s1, ack) = serve_spec(store, w);
            let (s2, resp) = serve_spec(s1, q);
            &&& parse_request(request_bytes(w)) == Some(w)
            &&& parse_request(request_bytes(q)) == Some(q)
            &&& ack.len() == 8
            &&& s2 == store.insert(bid, data)
            &&& read_reply(resp, cap) == Ok::<Seq<u8>, TransportError>(data)
        }),
{
    let w = RequestView::Write { bid, data };
    let q = RequestView::Read { bid };
    lemma_parse_request_bytes(w);
    lemma_parse_request_bytes(q);
    let (s1, ack) = serve_spec(store, w);
    let (s2, resp) = serve_spec(s1, q);
    lemma_from_be64_of_be64(data.len() as u64);
    assert(resp.subrange(0, 8) =~= be64(data.len() as u64));
    assert(resp.subrange(8, resp.len() as int) =~= data);
}

} // verus!
