//! Blocks, their sizes, and the map that holds the blocks a node owns.
use std::collections::HashMap;
use vstd::prelude::*;

verus! {

broadcast use vstd::std_specs::hash::group_hash_axioms;

/// Capacity of a metadata block, in bytes.
pub const MAX_INODE_SIZE: usize = 4096;

/// Size of a data block, in bytes.
pub const BLOCK_SIZE: usize = 512;

/// How a block operation failed.
#[derive(Clone, Copy, Debug, PartialEq, Eq, Structural)]
pub enum TransportError {
    /// The block was never written.
    NotFound,
    /// The block holds more bytes than the buffer it was read into.
    TooSmall,
    /// The exchange with the owning node failed or was cut short.
    Failure,
}

/// What reading the block at `a` into a buffer of `cap` bytes yields: its content, or the
/// reason it cannot be had.
pub open spec fn fetch<A>(blocks: Map<A, Seq<u8>>, a: A, cap: nat) -> Result<
    Seq<u8>,
    TransportError,
> {
    if !blocks.contains_key(a) {
        Err(TransportError::NotFound)
    } else if blocks[a].len() > cap {
        Err(TransportError::TooSmall)
    } else {
        Ok(blocks[a])
    }
}

/// The buffer after a read: on success the content fills its front and the rest is kept.
pub open spec fn filled(buf: Seq<u8>, content: Seq<u8>) -> Seq<u8> {
    content + buf.subrange(content.len() as int, buf.len() as int)
}

/// Whether `r` and the buffer `after` are what a read of `a` into `before` gives.
pub open spec fn read_matches<A>(
    blocks: Map<A, Seq<u8>>,
    a: A,
    before: Seq<u8>,
    after: Seq<u8>,
    r: Result<usize, TransportError>,
) -> bool {
    match fetch(blocks, a, before.len()) {
        Ok(c) => r == Ok::<usize, TransportError>(c.len() as usize) && after == filled(before, c),
        Err(e) => r == Err::<usize, TransportError>(e) && after == before,
    }
}

/// Copies `src` to the front of `dst`.
pub fn copy_into(dst: &mut [u8], src: &[u8])
    requires
        src@.len() <= old(dst)@.len(),
    ensures
        final(dst)@ == filled(old(dst)@, src@),
{
    let n = src.len();
    let mut i: usize = 0;
    while i < n
        invariant
            n == src@.len(),
            n <= dst@.len(),
            i <= n,
            dst@.len() == old(dst)@.len(),
            forall|j: int| 0 <= j < i ==> dst@[j] == src@[j],
            forall|j: int| i <= j < dst@.len() ==> dst@[j] == old(dst)@[j],
        decreases n - i,
    {
        dst[i] = src[i];
        i = i + 1;
    }
    assert(dst@ =~= filled(old(dst)@, src@));
}

/// The blocks that one node owns, by block id.
pub struct BlockStore {
    map: HashMap<u64, Vec<u8>>,
}

impl View for BlockStore {
    type V = Map<u64, Seq<u8>>;

    closed spec fn view(&self) -> Map<u64, Seq<u8>> {
        self.map@.map_values(|v: Vec<u8>| v@)
    }
}

impl BlockStore {
    /// A store in which no block was ever written.
    pub fn new() -> (r: BlockStore)
        ensures
            r@ == Map::<u64, Seq<u8>>::empty(),
    {
        let r = BlockStore { map: HashMap::new() };
        assert(r@ =~= Map::<u64, Seq<u8>>::empty());
        r
    }

    /// Whether block `bid` was ever written.
    pub fn contains(&self, bid: u64) -> (r: bool)
        ensures
            r == self@.contains_key(bid),
    {
        self.map.contains_key(&bid)
    }

    /// Reads block `bid` into the front of `buf` and returns its length.
    pub fn get(&self, bid: u64, buf: &mut [u8]) -> (r: Result<usize, TransportError>)
        ensures
            read_matches(self@, bid, old(buf)@, final(buf)@, r),
    {
        match self.map.get(&bid) {
            None => Err(TransportError::NotFound),
            Some(v) => {
                if v.len() > buf.len() {
                    Err(TransportError::TooSmall)
                } else {
                    copy_into(buf, v.as_slice());
                    Ok(v.len())
                }
            },
        }
    }

    /// A copy of block `bid`, if it was ever written.
    pub fn lookup(&self, bid: u64) -> (r: Option<Vec<u8>>)
        ensures
            r is Some <==> self@.contains_key(bid),
            r matches Some(v) ==> v@ == self@[bid],
    {
        match self.map.get(&bid) {
            None => None,
            Some(v) => Some(vstd::slice::slice_to_vec(v.as_slice())),
        }
    }

    /// Overwrites block `bid` with `data`.
    pub fn set(&mut self, bid: u64, data: &[u8])
        ensures
            final(self)@ == old(self)@.insert(bid, data@),
    {
        self.map.insert(bid, vstd::slice::slice_to_vec(data));
        assert(self@ =~= old(self)@.insert(bid, data@));
    }
}

} // verus!
