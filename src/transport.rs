//! The block transport: atomic reads and writes of whole blocks addressed by
//! (node id, block id), served from this node's own map or from the owning node.
//!
//! Every node has a 64-bit id and exposes 64 bits of block ids; the pair names one block
//! and fits a 128-bit network address. A block that was never written is absent, and its
//! reads fail with `NotFound`.
use crate::block::{fetch, read_matches, BlockStore, TransportError, MAX_INODE_SIZE};
use crate::wire::{
    check_ack, decode_request, encode_request, lemma_from_be64_of_be64, lemma_parse_request_bytes,
    parse_read_response, serve, serve_read, Request,
};
use vstd::prelude::*;

verus! {

/// Access to the blocks of all nodes, as seen from one of them.
///
/// The contracts below hold of a transport for which `faithful` holds. The transports of this
/// crate establish it and keep it; a transport written elsewhere keeps the default `false`,
/// and then nothing is claimed of it.
pub trait Transport {
    /// Whether the contracts of this trait describe this transport.
    open spec fn faithful(&self) -> bool {
        false
    }

    /// The content of every block there is, by (node id, block id).
    open spec fn blocks(&self) -> Map<(u64, u64), Seq<u8>> {
        Map::empty()
    }

    /// The id of this node.
    open spec fn node_id(&self) -> u64 {
        0
    }

    /// The number of nodes.
    open spec fn node_count(&self) -> u64 {
        0
    }

    /// This node's id.
    fn nid(&self) -> (r: u64)
        ensures
            self.faithful() ==> r == self.node_id(),
    ;

    /// The number of nodes.
    fn len(&self) -> (r: u64)
        ensures
            self.faithful() ==> r == self.node_count(),
    ;

    /// Reads block `bid` of node `nid` into the front of `buf` and returns its length; fails
    /// with `NotFound` if it was never written and with `TooSmall` if `buf` cannot hold it.
    /// `Failure` stands for an exchange with the owning node that went wrong.
    fn get(&self, nid: u64, bid: u64, buf: &mut [u8]) -> (r: Result<usize, TransportError>)
        ensures
            final(buf)@.len() == old(buf)@.len(),
            self.faithful() && r != Err::<usize, TransportError>(TransportError::Failure)
                ==> read_matches(self.blocks(), (nid, bid), old(buf)@, final(buf)@, r),
    ;

    /// Overwrites block `bid` of node `nid` with `buf`. On `Failure` the write may or may
    /// not have taken place.
    fn set(&mut self, nid: u64, bid: u64, buf: &[u8]) -> (r: Result<(), TransportError>)
        requires
            0 < buf@.len() <= MAX_INODE_SIZE,
        ensures
            old(self).faithful() ==> {
                &&& final(self).faithful()
                &&& final(self).node_id() == old(self).node_id()
                &&& final(self).node_count() == old(self).node_count()
                &&& r is Ok ==> final(self).blocks() == old(self).blocks().insert((nid, bid), buf@)
                &&& r is Err ==> r == Err::<(), TransportError>(TransportError::Failure) && (
                final(self).blocks() == old(self).blocks() || final(self).blocks() == old(
                    self,
                ).blocks().insert((nid, bid), buf@))
            },
    ;

    /// A block id for a new block on this node, chosen so that it is unlikely to be in use.
    fn next(&mut self) -> (r: u64)
        ensures
            old(self).faithful() ==> {
                &&& final(self).faithful()
                &&& final(self).node_id() == old(self).node_id()
                &&& final(self).node_count() == old(self).node_count()
                &&& final(self).blocks() == old(self).blocks()
            },
    ;
}

/// Relies on rand's `thread_rng().next_u64()`: a random number, of which nothing is known.
#[verifier::external_body]
fn random_u64() -> u64 {
    rand::RngCore::next_u64(&mut rand::thread_rng())
}

/// A cluster of nodes held in this process, seen from node `nid`. The node's own blocks are
/// read and written in its map directly; those of the other nodes go through the wire
/// protocol, as a request that the owning node parses and serves.
pub struct MemTransport {
    nid: u64,
    nodes: Vec<BlockStore>,
}

impl MemTransport {
    /// A cluster of `len` nodes, none of which holds a block, seen from node `nid`.
    pub fn new(nid: u64, len: u64) -> (r: MemTransport)
        ensures
            r.faithful(),
            r.node_id() == nid,
            r.node_count() == len,
            r.blocks() == Map::<(u64, u64), Seq<u8>>::empty(),
    {
        let mut nodes: Vec<BlockStore> = Vec::new();
        let mut i: u64 = 0;
        while i < len
            invariant
                i <= len,
                nodes@.len() == i,
                forall|j: int| 0 <= j < i ==> nodes@[j]@ == Map::<u64, Seq<u8>>::empty(),
            decreases len - i,
        {
            nodes.push(BlockStore::new());
            i = i + 1;
        }
        let r = MemTransport { nid, nodes };
        assert(r.blocks() =~= Map::<(u64, u64), Seq<u8>>::empty());
        r
    }

    /// The same cluster, seen from node `nid`.
    pub fn seen_from(self, nid: u64) -> (r: MemTransport)
        ensures
            r.faithful() == self.faithful(),
            r.blocks() == self.blocks(),
            r.node_id() == nid,
            r.node_count() == self.node_count(),
    {
        let r = MemTransport { nid, nodes: self.nodes };
        assert(r.blocks() =~= self.blocks());
        r
    }
}

impl Transport for MemTransport {
    closed spec fn faithful(&self) -> bool {
        forall|a: (u64, u64)| #[trigger]
            self.blocks().contains_key(a) ==> 0 < self.blocks()[a].len() <= MAX_INODE_SIZE
    }

    closed spec fn blocks(&self) -> Map<(u64, u64), Seq<u8>> {
        Map::new(
            |a: (u64, u64)| a.0 < self.nodes@.len() && self.nodes@[a.0 as int]@.contains_key(a.1),
            |a: (u64, u64)| self.nodes@[a.0 as int]@[a.1],
        )
    }

    closed spec fn node_id(&self) -> u64 {
        self.nid
    }

    closed spec fn node_count(&self) -> u64 {
        self.nodes@.len() as u64
    }

    fn nid(&self) -> (r: u64) {
        self.nid
    }

    fn len(&self) -> (r: u64) {
        self.nodes.len() as u64
    }

    fn get(&self, nid: u64, bid: u64, buf: &mut [u8]) -> (r: Result<usize, TransportError>)
        ensures
            self.faithful() ==> (r == Err::<usize, TransportError>(TransportError::Failure) <==> nid
                >= self.node_count()),
    {
        if nid >= self.nodes.len() as u64 {
            return Err(TransportError::Failure);
        }
        let store = &self.nodes[nid as usize];
        proof {
            assert(self.blocks().contains_key((nid, bid)) == store@.contains_key(bid));
        }
        if nid == self.nid {
            store.get(bid, buf)
        } else {
            let frame = encode_request(&Request::Read { bid });
            proof {
                lemma_parse_request_bytes(crate::wire::RequestView::Read { bid });
            }
            match decode_request(frame.as_slice()) {
                Some(Request::Read { bid: b }) => {
                    let resp = serve_read(store, b);
                    proof {
                        if store@.contains_key(bid) {
                            assert(self.blocks().contains_key((nid, bid)));
                            assert(self.blocks()[(nid, bid)] == store@[bid]);
                            lemma_from_be64_of_be64(store@[bid].len() as u64);
                            assert(resp@.subrange(0, 8) =~= crate::wire::be64(
                                store@[bid].len() as u64,
                            ));
                            assert(resp@.subrange(8, resp@.len() as int) =~= store@[bid]);
                        } else {
                            lemma_from_be64_of_be64(0);
                            assert(resp@.subrange(0, 8) =~= resp@);
                        }
                    }
                    parse_read_response(resp.as_slice(), buf)
                },
                _ => Err(TransportError::Failure),
            }
        }
    }

    fn set(&mut self, nid: u64, bid: u64, buf: &[u8]) -> (r: Result<(), TransportError>)
        ensures
            r is Ok <==> nid < old(self).node_count(),
    {
        if nid >= self.nodes.len() as u64 {
            return Err(TransportError::Failure);
        }
        let ghost before = self.blocks();
        if nid == self.nid {
            self.nodes[nid as usize].set(bid, buf);
            assert(self.blocks() =~= before.insert((nid, bid), buf@));
            Ok(())
        } else {
            let q = Request::Write { bid, data: vstd::slice::slice_to_vec(buf) };
            let frame = encode_request(&q);
            proof {
                lemma_parse_request_bytes(q@);
            }
            match decode_request(frame.as_slice()) {
                Some(parsed) => {
                    let resp = serve(&mut self.nodes[nid as usize], &parsed);
                    assert(self.blocks() =~= before.insert((nid, bid), buf@));
                    check_ack(resp.as_slice())
                },
                None => Err(TransportError::Failure),
            }
        }
    }

    fn next(&mut self) -> (r: u64) {
        random_u64()
    }
}

/// A block read after it was written holds exactly the bytes written, for any buffer that
/// can take them: `set` leaves `blocks.insert(a, data)`, and `get` reads by `fetch`.
pub proof fn lemma_round_trip<A>(blocks: Map<A, Seq<u8>>, a: A, data: Seq<u8>, cap: nat)
    requires
        data.len() <= cap,
    ensures
        fetch(blocks.insert(a, data), a, cap) == Ok::<Seq<u8>, TransportError>(data),
{
}

/// The blocks after each write of `writes` took place in turn, starting from `blocks`.
pub open spec fn apply_writes<A>(blocks: Map<A, Seq<u8>>, writes: Seq<(A, Seq<u8>)>) -> Map<
    A,
    Seq<u8>,
>
    decreases writes.len(),
{
    if writes.len() == 0 {
        blocks
    } else {
        let w = writes.last();
        apply_writes(blocks, writes.drop_last()).insert(w.0, w.1)
    }
}

/// Whatever was written since a transport was made, a block that none of the writes touched
/// reads as `NotFound`: a new transport holds no block.
pub proof fn lemma_unwritten_not_found<A>(writes: Seq<(A, Seq<u8>)>, a: A, cap: nat)
    requires
        forall|i: int| 0 <= i < writes.len() ==> (#[trigger] writes[i]).0 != a,
    ensures
        fetch(apply_writes(Map::<A, Seq<u8>>::empty(), writes), a, cap) == Err::<
            Seq<u8>,
            TransportError,
        >(TransportError::NotFound),
    decreases writes.len(),
{
    if writes.len() > 0 {
        let rest = writes.drop_last();
        assert forall|i: int| 0 <= i < rest.len() implies (#[trigger] rest[i]).0 != a by {
            assert(rest[i] == writes[i]);
        }
        lemma_unwritten_not_found(rest, a, cap);
        assert(writes.last() == writes[writes.len() - 1]);
    }
}

/// How node `own` reaches node `nid`.
#[derive(Clone, Copy, Debug, PartialEq, Eq, Structural)]
pub enum Route {
    /// The block is this node's own: its map is read and written directly.
    Local,
    /// The owning node listens on this port.
    Remote { port: u16 },
    /// No port is left for the node: its id is too large for the base port.
    Unreachable,
}

/// The port on which node `nid` listens, when node ports are given out one by one from
/// `base`.
pub open spec fn port_of(base: u16, nid: u64) -> Option<u16> {
    if base as int + nid as int <= u16::MAX as int {
        Some((base as int + nid as int) as u16)
    } else {
        None
    }
}

/// The port on which node `nid` listens.
pub fn node_port(base: u16, nid: u64) -> (r: Option<u16>)
    ensures
        r == port_of(base, nid),
{
    if nid <= (u16::MAX - base) as u64 {
        Some(base + nid as u16)
    } else {
        None
    }
}

/// How node `own` reaches the blocks of node `nid`: its own directly, those of another node
/// through the port that node listens on.
pub fn route(own: u64, base: u16, nid: u64) -> (r: Route)
    ensures
        nid == own ==> r == Route::Local,
        nid != own ==> r == match port_of(base, nid) {
            Some(port) => Route::Remote { port },
            None => Route::Unreachable,
        },
{
    if nid == own {
        Route::Local
    } else {
        match node_port(base, nid) {
            Some(port) => Route::Remote { port },
            None => Route::Unreachable,
        }
    }
}

} // verus!
