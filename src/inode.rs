//! Inodes: directories and files kept in blocks. An inode is named by the address of its
//! metadata block; every operation reads that record afresh through the transport.
use crate::block::{copy_into, fetch, filled, TransportError, BLOCK_SIZE, MAX_INODE_SIZE};
use crate::codec::{
    decode_meta, empty_record, encode_meta, entries_view, lemma_empty_record_fits,
    lemma_empty_record_reads_back, lemma_record_round_trip, meta_layout, record_of, DFileType, DMetadata, MetaView,
};
use crate::transport::Transport;
use vstd::prelude::*;
use vstd::string::StringExecFns;

verus! {

/// How an inode operation failed.
#[derive(Clone, Copy, Debug, PartialEq, Eq, Structural)]
pub enum DfsError {
    /// The inode is not a directory.
    NotDir,
    /// The directory has no such entry.
    EntryNotFound,
    /// The directory already has an entry of that name.
    EntryExists,
    /// A bad offset or block index, a record that does not fit its block, or a block whose
    /// bytes are not what they should be.
    InvalidParam,
    /// The transport failed; the inner error tells how.
    Transport(TransportError),
}

/// Mode of the root directory when it is first made.
pub const ROOT_MODE: u16 = 0o777;

/// The most data blocks a file can have: the record of a file with more does not fit its
/// metadata block.
pub const FILE_BLOCKS_MAX: usize = 254;

/// The blocks as the inode layer sees them.
pub type Blocks = Map<(u64, u64), Seq<u8>>;

/// The record of the inode at `a`: the block read into a buffer of `MAX_INODE_SIZE` bytes and
/// decoded.
pub open spec fn load(blocks: Blocks, a: (u64, u64)) -> Result<MetaView, DfsError> {
    match fetch(blocks, a, MAX_INODE_SIZE as nat) {
        Err(e) => Err(DfsError::Transport(e)),
        Ok(c) => match record_of(c) {
            Some(m) => Ok(m),
            None => Err(DfsError::InvalidParam),
        },
    }
}

/// The blocks after record `m` was written at `a`, or the error if it does not fit.
pub open spec fn save(blocks: Blocks, a: (u64, u64), m: MetaView) -> Result<Blocks, DfsError> {
    if meta_layout(m).len() > MAX_INODE_SIZE {
        Err(DfsError::InvalidParam)
    } else {
        Ok(blocks.insert(a, meta_layout(m)))
    }
}

/// Whether the transport failed in its own right.
pub open spec fn is_failure<V>(r: Result<V, DfsError>) -> bool {
    r matches Err(DfsError::Transport(TransportError::Failure))
}

/// Whether `t` still speaks for itself and the same node after an operation.
pub open spec fn kept<T: Transport>(before: T, after: T) -> bool {
    before.faithful() ==> {
        &&& after.faithful()
        &&& after.node_id() == before.node_id()
        &&& after.node_count() == before.node_count()
    }
}

/// Reads and decodes the record at `a`.
fn load_meta<T: Transport>(trans: &T, a: (u64, u64)) -> (r: Result<DMetadata, DfsError>)
    ensures
        trans.faithful() && !is_failure(r) ==> match load(trans.blocks(), a) {
            Ok(m) => r matches Ok(d) && d@ == m,
            Err(e) => r == Err::<DMetadata, DfsError>(e),
        },
{
    let mut buf = vec![0u8; MAX_INODE_SIZE];
    let n = match trans.get(a.0, a.1, buf.as_mut_slice()) {
        Ok(n) => n,
        Err(e) => return Err(DfsError::Transport(e)),
    };
    if n > buf.len() {
        // a transport that reports more bytes than the buffer holds has failed
        return Err(DfsError::Transport(TransportError::Failure));
    }
    proof {
        if trans.faithful() {
            assert(buf@.subrange(0, n as int) =~= trans.blocks()[a]);
        }
    }
    match decode_meta(vstd::slice::slice_subrange(buf.as_slice(), 0, n)) {
        Some(m) => Ok(m),
        None => Err(DfsError::InvalidParam),
    }
}

/// Encodes `m` and writes it at `a`.
fn store_meta<T: Transport>(trans: &mut T, a: (u64, u64), m: &DMetadata) -> (r: Result<(), DfsError>)
    ensures
        kept(*old(trans), *final(trans)),
        old(trans).faithful() && !is_failure(r) ==> match save(old(trans).blocks(), a, m@) {
            Ok(b) => r is Ok && final(trans).blocks() == b,
            Err(e) => r == Err::<(), DfsError>(e) && final(trans).blocks() == old(trans).blocks(),
        },
{
    let bytes = encode_meta(m);
    if bytes.len() > MAX_INODE_SIZE {
        return Err(DfsError::InvalidParam);
    }
    match trans.set(a.0, a.1, bytes.as_slice()) {
        Ok(()) => Ok(()),
        Err(e) => Err(DfsError::Transport(e)),
    }
}

/// The smaller of `a` and `b`.
pub open spec fn min(a: int, b: int) -> int {
    if a < b {
        a
    } else {
        b
    }
}

/// What reading the file at `a` from byte `offset` into a buffer of `want` bytes gives: the
/// bytes from `offset` to the end of its block or to the end of the buffer, whichever comes
/// first. A block index past the allocated blocks is a bad parameter, and so is a data block
/// of the wrong length.
pub open spec fn read_result(blocks: Blocks, a: (u64, u64), offset: usize, want: nat) -> Result<
    Seq<u8>,
    DfsError,
> {
    match load(blocks, a) {
        Err(e) => Err(e),
        Ok(m) => {
            let blk = offset / BLOCK_SIZE;
            let off = offset % BLOCK_SIZE;
            if blk >= m.blocks.len() {
                Err(DfsError::InvalidParam)
            } else {
                match fetch(blocks, m.blocks[blk as int], MAX_INODE_SIZE as nat) {
                    Err(e) => Err(DfsError::Transport(e)),
                    Ok(d) => if d.len() != BLOCK_SIZE {
                        Err(DfsError::InvalidParam)
                    } else {
                        Ok(d.subrange(off as int, off + min(BLOCK_SIZE - off, want as int)))
                    },
                }
            }
        },
    }
}

/// Reads data block `d` whole, checking that it is a data block.
fn load_data<T: Transport>(trans: &T, d: (u64, u64)) -> (r: Result<Vec<u8>, DfsError>)
    ensures
        trans.faithful() && !is_failure(r) ==> match fetch(trans.blocks(), d, MAX_INODE_SIZE as nat) {
            Err(e) => r == Err::<Vec<u8>, DfsError>(DfsError::Transport(e)),
            Ok(c) => if c.len() != BLOCK_SIZE {
                r == Err::<Vec<u8>, DfsError>(DfsError::InvalidParam)
            } else {
                r matches Ok(v) && v@ == c
            },
        },
        r matches Ok(v) ==> v@.len() == BLOCK_SIZE,
{
    let mut buf = vec![0u8; MAX_INODE_SIZE];
    let n = match trans.get(d.0, d.1, buf.as_mut_slice()) {
        Ok(n) => n,
        Err(e) => return Err(DfsError::Transport(e)),
    };
    if n != BLOCK_SIZE {
        if n > buf.len() {
            // a transport that reports more bytes than the buffer holds has failed
            return Err(DfsError::Transport(TransportError::Failure));
        }
        return Err(DfsError::InvalidParam);
    }
    buf.truncate(BLOCK_SIZE);
    proof {
        if trans.faithful() {
            assert(buf@ =~= trans.blocks()[d]);
        }
    }
    Ok(buf)
}

/// A data block of zeros.
pub open spec fn zeros() -> Seq<u8> {
    Seq::new(BLOCK_SIZE as nat, |i: int| 0u8)
}

/// The blocks after a zero data block was written at (`n`, `ids[0]`), (`n`, `ids[1]`), ...,
/// in turn.
pub open spec fn zero_fill(blocks: Blocks, n: u64, ids: Seq<u64>) -> Blocks
    decreases ids.len(),
{
    if ids.len() == 0 {
        blocks
    } else {
        zero_fill(blocks, n, ids.drop_last()).insert((n, ids.last()), zeros())
    }
}

/// The addresses of blocks `ids` of node `n`.
pub open spec fn addrs_on(n: u64, ids: Seq<u64>) -> Seq<(u64, u64)> {
    ids.map_values(|id: u64| (n, id))
}

/// Record `m` with `more` data blocks after its own.
pub open spec fn with_blocks(m: MetaView, more: Seq<(u64, u64)>) -> MetaView {
    MetaView { kind: m.kind, mode: m.mode, entries: m.entries, blocks: m.blocks + more, size: m.size }
}

/// Record `m` with size `size`.
pub open spec fn with_size(m: MetaView, size: usize) -> MetaView {
    MetaView { kind: m.kind, mode: m.mode, entries: m.entries, blocks: m.blocks, size }
}

/// Block content `c` with the first `n` bytes of `data` written at `off`.
pub open spec fn patch(c: Seq<u8>, off: int, data: Seq<u8>, n: int) -> Seq<u8> {
    c.subrange(0, off) + data.subrange(0, n) + c.subrange(off + n, c.len() as int)
}

/// How many data blocks a write at byte `offset` of the file at `a` adds: those missing up to
/// and including the block that holds that byte.
pub open spec fn new_blocks(blocks: Blocks, a: (u64, u64), offset: usize) -> nat {
    let blk = offset / BLOCK_SIZE;
    match load(blocks, a) {
        Ok(m) => if blk < FILE_BLOCKS_MAX && m.blocks.len() <= blk {
            (blk + 1 - m.blocks.len()) as nat
        } else {
            0
        },
        Err(_) => 0,
    }
}

/// How many data blocks a write into block `blk` adds to a file with record `m`.
pub open spec fn new_blocks_of(m: MetaView, blk: int) -> nat {
    if m.blocks.len() <= blk {
        (blk + 1 - m.blocks.len()) as nat
    } else {
        0
    }
}

/// What writing `data` at byte `offset` of the file at `a` gives, and the blocks afterwards,
/// when the data blocks it adds get the ids `ids` on the file's node. The missing data blocks
/// are written as zeros; then as much of `data` as fits in the block that holds byte `offset`
/// is written there, and the record, with the new blocks and a size that covers the write.
pub open spec fn write_result(
    blocks: Blocks,
    a: (u64, u64),
    offset: usize,
    data: Seq<u8>,
    ids: Seq<u64>,
) -> (Result<usize, DfsError>, Blocks) {
    match load(blocks, a) {
        Err(e) => (Err(e), blocks),
        Ok(m) => {
            let blk = offset / BLOCK_SIZE;
            let off = offset % BLOCK_SIZE;
            if blk >= FILE_BLOCKS_MAX {
                (Err(DfsError::InvalidParam), blocks)
            } else {
                write_tail(zero_fill(blocks, a.0, ids), a, with_blocks(m, addrs_on(a.0, ids)), offset, data)
            }
        },
    }
}

/// What writing `data` at byte `offset` of the file at `a` gives once the file has record `m`,
/// which has the block that holds that byte: the patched data block and then the record with
/// a size that covers the write.
pub open spec fn write_tail(blocks: Blocks, a: (u64, u64), m: MetaView, offset: usize, data: Seq<u8>) -> (
    Result<usize, DfsError>,
    Blocks,
) {
    let blk = offset / BLOCK_SIZE;
    let off = offset % BLOCK_SIZE;
    let d = m.blocks[blk as int];
    match fetch(blocks, d, MAX_INODE_SIZE as nat) {
        Err(e) => (Err(DfsError::Transport(e)), blocks),
        Ok(c) => if c.len() != BLOCK_SIZE {
            (Err(DfsError::InvalidParam), blocks)
        } else {
            let n = min(BLOCK_SIZE - off, data.len() as int);
            let end = offset + n;
            let m2 = with_size(m, if end > m.size { end as usize } else { m.size });
            if meta_layout(m2).len() > MAX_INODE_SIZE {
                (Err(DfsError::InvalidParam), blocks)
            } else {
                (Ok(n as usize), blocks.insert(d, patch(c, off as int, data, n)).insert(a, meta_layout(m2)))
            }
        },
    }
}

/// Adds zero data blocks on node `nid` to the file with record `meta` until it has block `blk`,
/// and returns the ids they got.
fn add_blocks<T: Transport>(trans: &mut T, nid: u64, meta: &mut DMetadata, blk: usize) -> (r: (
    Result<(), DfsError>,
    Ghost<Seq<u64>>,
))
    requires
        blk < FILE_BLOCKS_MAX,
    ensures
        kept(*old(trans), *final(trans)),
        r.0 is Ok ==> final(meta).blocks@.len() > blk,
        old(trans).faithful() && !is_failure(r.0) ==> {
            &&& r.0 is Ok
            &&& final(trans).blocks() == zero_fill(old(trans).blocks(), nid, r.1@)
            &&& final(meta)@ == with_blocks(old(meta)@, addrs_on(nid, r.1@))
            &&& r.1@.len() == new_blocks_of(old(meta)@, blk as int)
        },
{
    let ghost b0 = trans.blocks();
    let ghost m0 = meta@;
    let ghost mut ids: Seq<u64> = Seq::empty();
    let zero = vec![0u8; BLOCK_SIZE];
    assert(zero@ =~= zeros());
    assert(addrs_on(nid, ids) =~= Seq::<(u64, u64)>::empty());
    assert(meta@.blocks =~= with_blocks(m0, addrs_on(nid, ids)).blocks);
    while meta.blocks.len() <= blk
        invariant
            kept(*old(trans), *trans),
            old(trans).faithful() ==> trans.blocks() == zero_fill(b0, nid, ids),
            meta@ == with_blocks(m0, addrs_on(nid, ids)),
            m0.blocks.len() + ids.len() == meta.blocks@.len(),
            ids.len() <= new_blocks_of(m0, blk as int),
            m0.blocks.len() <= blk ==> m0.blocks.len() + ids.len() <= blk + 1,
            m0.blocks.len() > blk ==> ids.len() == 0,
            b0 == old(trans).blocks(),
            m0 == old(meta)@,
            blk < FILE_BLOCKS_MAX,
            zero@ == zeros(),
        decreases blk + 1 - meta.blocks.len(),
    {
        let bb = trans.next();
        match trans.set(nid, bb, zero.as_slice()) {
            Ok(()) => {},
            Err(e) => return (Err(DfsError::Transport(e)), Ghost(ids)),
        }
        meta.blocks.push((nid, bb));
        proof {
            let ids0 = ids;
            ids = ids.push(bb);
            assert(ids.drop_last() =~= ids0);
            assert(addrs_on(nid, ids) =~= addrs_on(nid, ids0).push((nid, bb)));
            assert(meta@.blocks =~= with_blocks(m0, addrs_on(nid, ids)).blocks);
        }
    }
    (Ok(()), Ghost(ids))
}

/// Writes the first `n` bytes of `src` into `data` from index `off`.
fn patch_into(data: &mut Vec<u8>, off: usize, src: &[u8], n: usize)
    requires
        n <= src@.len(),
        off + n <= old(data)@.len(),
        off + n <= usize::MAX,
    ensures
        final(data)@ == patch(old(data)@, off as int, src@, n as int),
{
    let ghost c = data@;
    let mut i: usize = 0;
    while i < n
        invariant
            n <= src@.len(),
            off + n <= c.len(),
            off + n <= usize::MAX,
            i <= n,
            data@.len() == c.len(),
            forall|j: int| 0 <= j < off ==> data@[j] == c[j],
            forall|j: int| off <= j < off + i ==> data@[j] == src@[j - off],
            forall|j: int| off + i <= j < c.len() ==> data@[j] == c[j],
        decreases n - i,
    {
        data.set(off + i, src[i]);
        i = i + 1;
    }
    assert(data@ =~= patch(c, off as int, src@, n as int));
}

/// Writes `dbuf` at byte `offset` of the file at `a`, whose record `meta` has the block that
/// holds that byte, and then the record.
fn write_tail_at<T: Transport>(trans: &mut T, a: (u64, u64), meta: DMetadata, offset: usize, dbuf: &[u8]) -> (r: Result<usize, DfsError>)
    requires
        offset / BLOCK_SIZE < meta.blocks@.len(),
        offset / BLOCK_SIZE < FILE_BLOCKS_MAX,
    ensures
        kept(*old(trans), *final(trans)),
        old(trans).faithful() && !is_failure(r) ==> write_tail(old(trans).blocks(), a, meta@, offset, dbuf@)
            == (r, final(trans).blocks()),
{
    let mut meta = meta;
    let ghost m = meta@;
    let blk = offset / BLOCK_SIZE;
    let off = offset % BLOCK_SIZE;
    let d = meta.blocks[blk];
    let mut data = match load_data(trans, d) {
        Ok(v) => v,
        Err(e) => return Err(e),
    };
    let avail = if BLOCK_SIZE - off < dbuf.len() {
        BLOCK_SIZE - off
    } else {
        dbuf.len()
    };
    patch_into(&mut data, off, dbuf, avail);
    let end = offset + avail;
    if end > meta.size {
        meta.size = end;
    }
    assert(meta@ == with_size(m, if end > m.size { end as usize } else { m.size }));
    let bytes = encode_meta(&meta);
    if bytes.len() > MAX_INODE_SIZE {
        return Err(DfsError::InvalidParam);
    }
    match trans.set(d.0, d.1, data.as_slice()) {
        Ok(()) => {},
        Err(e) => return Err(DfsError::Transport(e)),
    }
    match trans.set(a.0, a.1, bytes.as_slice()) {
        Ok(()) => {},
        Err(e) => return Err(DfsError::Transport(e)),
    }
    Ok(avail)
}

/// The name of an entry that stands for the directory itself.
pub open spec fn dot() -> Seq<char> {
    seq!['.']
}

/// The name of an entry that stands for the parent directory.
pub open spec fn dotdot() -> Seq<char> {
    seq!['.', '.']
}

/// Whether `i` is the first index of an entry named `name` in `es`.
pub open spec fn is_first_match(es: Seq<(Seq<char>, (u64, u64))>, name: Seq<char>, i: int) -> bool {
    &&& 0 <= i < es.len()
    &&& es[i].0 == name
    &&& forall|j: int| 0 <= j < i ==> es[j].0 != name
}

/// Whether `es` has an entry named `name`.
pub open spec fn has_name(es: Seq<(Seq<char>, (u64, u64))>, name: Seq<char>) -> bool {
    exists|i: int| 0 <= i < es.len() && #[trigger] es[i].0 == name
}

/// What looking up `name` in the directory at `a` gives: the directory itself for ".", the
/// root for "..", and otherwise the address of the first entry of that name.
pub open spec fn lookup_result(blocks: Blocks, a: (u64, u64), name: Seq<char>) -> Result<
    (u64, u64),
    DfsError,
> {
    match load(blocks, a) {
        Err(e) => Err(e),
        Ok(m) => if m.kind != DFileType::Dir {
            Err(DfsError::NotDir)
        } else if name == dot() {
            Ok(a)
        } else if name == dotdot() {
            Ok((0, 0))
        } else if has_name(m.entries, name) {
            Ok(m.entries[choose|i: int| is_first_match(m.entries, name, i)].1)
        } else {
            Err(DfsError::EntryNotFound)
        },
    }
}

/// What listing entry `id` of the directory at `a` gives: "." for 0, ".." for 1, and the
/// name of stored entry `id - 2` after that.
pub open spec fn entry_result(blocks: Blocks, a: (u64, u64), id: usize) -> Result<Seq<char>, DfsError> {
    match load(blocks, a) {
        Err(e) => Err(e),
        Ok(m) => if m.kind != DFileType::Dir {
            Err(DfsError::NotDir)
        } else if id == 0 {
            Ok(dot())
        } else if id == 1 {
            Ok(dotdot())
        } else if id - 2 < m.entries.len() {
            Ok(m.entries[id - 2].0)
        } else {
            Err(DfsError::EntryNotFound)
        },
    }
}

/// Record `m` with entry `e` after its own.
pub open spec fn with_entry(m: MetaView, e: (Seq<char>, (u64, u64))) -> MetaView {
    MetaView { kind: m.kind, mode: m.mode, entries: m.entries.push(e), blocks: m.blocks, size: m.size }
}

/// What creating an inode of kind `t` named `name` in the directory at `a` gives, and the
/// blocks afterwards, when the new inode gets block id `bid` on the directory's node: its
/// address, once its empty record and then the directory's record with the new entry are
/// written.
pub open spec fn create_result(
    blocks: Blocks,
    a: (u64, u64),
    name: Seq<char>,
    t: DFileType,
    mode: u32,
    bid: u64,
) -> (Result<(u64, u64), DfsError>, Blocks) {
    match load(blocks, a) {
        Err(e) => (Err(e), blocks),
        Ok(m) => if m.kind != DFileType::Dir {
            (Err(DfsError::NotDir), blocks)
        } else if name == dot() || name == dotdot() || has_name(m.entries, name) {
            (Err(DfsError::EntryExists), blocks)
        } else {
            let child = (a.0, bid);
            let m2 = with_entry(m, (name, child));
            if meta_layout(m2).len() > MAX_INODE_SIZE {
                (Err(DfsError::InvalidParam), blocks)
            } else {
                (
                    Ok(child),
                    blocks.insert(child, meta_layout(empty_record(t, mode as u16))).insert(
                        a,
                        meta_layout(m2),
                    ),
                )
            }
        },
    }
}

/// What a handle result says, as an address.
pub open spec fn handle_addr(r: Result<DINode, DfsError>) -> Result<(u64, u64), DfsError> {
    match r {
        Ok(n) => Ok(n.addr()),
        Err(e) => Err(e),
    }
}

/// The index of the first entry named `key`, if there is one.
fn find_entry(entries: &Vec<(String, (u64, u64))>, key: &String) -> (r: Option<usize>)
    ensures
        match r {
            Some(i) => is_first_match(entries_view(entries@), key@, i as int),
            None => !has_name(entries_view(entries@), key@),
        },
{
    let ghost es = entries_view(entries@);
    let mut i: usize = 0;
    while i < entries.len()
        invariant
            i <= entries@.len(),
            es == entries_view(entries@),
            forall|j: int| 0 <= j < i ==> es[j].0 != key@,
        decreases entries@.len() - i,
    {
        if entries[i].0 == *key {
            return Some(i);
        }
        i = i + 1;
    }
    None
}

/// There is one first index of a name.
proof fn lemma_first_match_unique(es: Seq<(Seq<char>, (u64, u64))>, name: Seq<char>, i: int)
    requires
        is_first_match(es, name, i),
    ensures
        has_name(es, name),
        (choose|k: int| is_first_match(es, name, k)) == i,
{
    assert(es[i].0 == name);
    let k = choose|k: int| is_first_match(es, name, k);
    assert(is_first_match(es, name, k));
    if k < i {
        assert(es[k].0 == name);
    } else if k > i {
        assert(es[i].0 != name);
    }
}

/// What the metadata of an inode tells.
#[derive(Clone, Copy, Debug, PartialEq, Eq, Structural)]
pub struct InodeStat {
    /// The block id of the inode's metadata block.
    pub inode: u64,
    /// Length of a file in bytes.
    pub size: usize,
    /// Number of data blocks of a file.
    pub blocks: usize,
    pub type_: DFileType,
    pub mode: u16,
}

/// What the metadata of the inode at `a` reads.
pub open spec fn stat_result(blocks: Blocks, a: (u64, u64)) -> Result<InodeStat, DfsError> {
    match load(blocks, a) {
        Err(e) => Err(e),
        Ok(m) => Ok(
            InodeStat {
                inode: a.1,
                size: m.size,
                blocks: m.blocks.len() as usize,
                type_: m.kind,
                mode: m.mode,
            },
        ),
    }
}

/// What setting the size of the inode at `a` to `len` gives, and the blocks afterwards.
pub open spec fn resize_result(blocks: Blocks, a: (u64, u64), len: usize) -> (Result<(), DfsError>, Blocks) {
    match load(blocks, a) {
        Err(e) => (Err(e), blocks),
        Ok(m) => match save(blocks, a, with_size(m, len)) {
            Ok(b) => (Ok(()), b),
            Err(e) => (Err(e), blocks),
        },
    }
}

/// Looking up the same name twice in a directory whose blocks did not change between the two
/// lookups gives the same answer: the answer of `find` is a function of the blocks.
pub proof fn lemma_lookup_idempotent(
    blocks: Blocks,
    dir: (u64, u64),
    name: Seq<char>,
    first: Result<DINode, DfsError>,
    second: Result<DINode, DfsError>,
)
    requires
        handle_addr(first) == lookup_result(blocks, dir, name),
        handle_addr(second) == lookup_result(blocks, dir, name),
    ensures
        handle_addr(first) == handle_addr(second),
        first matches Ok(n) ==> second matches Ok(k) && n == k,
{
    if first is Ok {
        let n = first.unwrap();
        let k = second.unwrap();
        assert(n.addr() == k.addr());
    }
}

/// The root's address reads as `NotFound` until it is first accessed; the first access
/// through `DINode::new` leaves the blocks below, in which it reads as an empty directory.
pub proof fn lemma_root_self_initializes(blocks: Blocks)
    requires
        !blocks.contains_key((0, 0)),
    ensures
        load(blocks, (0, 0)) == Err::<MetaView, DfsError>(DfsError::Transport(TransportError::NotFound)),
        load(
            blocks.insert((0, 0), meta_layout(empty_record(DFileType::Dir, ROOT_MODE))),
            (0, 0),
        ) == Ok::<MetaView, DfsError>(empty_record(DFileType::Dir, ROOT_MODE)),
{
    lemma_empty_record_fits(DFileType::Dir, ROOT_MODE);
    lemma_empty_record_reads_back(DFileType::Dir, ROOT_MODE);
}

/// Bytes written into a file are read back from the same offset, and the size covers them:
/// after a write of `data` at `offset` that wrote `n` bytes, a read at `offset` into a buffer
/// of `n` bytes gives the first `n` bytes of `data`. This holds unless a data block of the
/// file falls on the file's own metadata block, which only block ids drawn at random can
/// bring about.
pub proof fn lemma_write_then_read(
    blocks: Blocks,
    a: (u64, u64),
    offset: usize,
    data: Seq<u8>,
    ids: Seq<u64>,
)
    requires
        write_result(blocks, a, offset, data, ids).0 is Ok,
        ids.len() == new_blocks(blocks, a, offset),
        load(blocks, a) matches Ok(m) && !m.blocks.contains(a),
        !ids.contains(a.1),
    ensures
        ({
            let (r, after) = write_result(blocks, a, offset, data, ids);
            let n = r.unwrap() as int;
            &&& read_result(after, a, offset, n as nat) == Ok::<Seq<u8>, DfsError>(data.subrange(0, n))
            &&& stat_result(after, a) matches Ok(st) && st.size >= offset + n
        }),
{
    let m = load(blocks, a).unwrap();
    let blk = offset / BLOCK_SIZE;
    let off = offset % BLOCK_SIZE;
    let b1 = zero_fill(blocks, a.0, ids);
    let m1 = with_blocks(m, addrs_on(a.0, ids));
    let d = m1.blocks[blk as int];
    let c = fetch(b1, d, MAX_INODE_SIZE as nat).unwrap();
    let n = min(BLOCK_SIZE - off, data.len() as int);
    let end = offset + n;
    let m2 = with_size(m1, if end > m.size { end as usize } else { m.size });
    let after = b1.insert(d, patch(c, off as int, data, n)).insert(a, meta_layout(m2));
    assert(write_result(blocks, a, offset, data, ids) == (Ok::<usize, DfsError>(n as usize), after));
    assert(d != a) by {
        if blk < m.blocks.len() {
            assert(m1.blocks[blk as int] == m.blocks[blk as int]);
            if m.blocks[blk as int] == a {
                assert(m.blocks.contains(a));
            }
        } else {
            let j = blk - m.blocks.len();
            assert(m1.blocks[blk as int] == addrs_on(a.0, ids)[j]);
            if ids[j] == a.1 {
                assert(ids.contains(a.1));
            }
        }
    }
    lemma_record_round_trip(m2);
    assert(load(after, a) == Ok::<MetaView, DfsError>(m2));
    assert(after[d] == patch(c, off as int, data, n));
    assert(patch(c, off as int, data, n).subrange(off as int, off + n) =~= data.subrange(0, n));
}

/// Creating `name` in a directory adds it as the last entry: listing the directory afterwards
/// gives the entries it had, then `name`, and looking `name` up gives the new inode.
pub proof fn lemma_create_then_list(
    blocks: Blocks,
    a: (u64, u64),
    name: Seq<char>,
    t: DFileType,
    mode: u32,
    bid: u64,
)
    requires
        create_result(blocks, a, name, t, mode, bid).0 is Ok,
    ensures
        ({
            let m = load(blocks, a).unwrap();
            let after = create_result(blocks, a, name, t, mode, bid).1;
            &&& forall|i: usize| 2 <= i < m.entries.len() + 2 ==> entry_result(after, a, i)
                == #[trigger] entry_result(blocks, a, i)
            &&& forall|i: usize| i == m.entries.len() + 2 ==> #[trigger] entry_result(after, a, i)
                == Ok::<Seq<char>, DfsError>(name)
            &&& forall|i: usize| i == m.entries.len() + 3 ==> #[trigger] entry_result(after, a, i)
                == Err::<Seq<char>, DfsError>(DfsError::EntryNotFound)
            &&& lookup_result(after, a, name) == Ok::<(u64, u64), DfsError>((a.0, bid))
        }),
{
    let m = load(blocks, a).unwrap();
    let m2 = with_entry(m, (name, (a.0, bid)));
    let after = create_result(blocks, a, name, t, mode, bid).1;
    lemma_record_round_trip(m2);
    assert(load(after, a) == Ok::<MetaView, DfsError>(m2));
    let k = m.entries.len() as int;
    assert(m2.entries[k].0 == name);
    assert(is_first_match(m2.entries, name, k)) by {
        assert forall|j: int| 0 <= j < k implies m2.entries[j].0 != name by {
            assert(m2.entries[j] == m.entries[j]);
            if m.entries[j].0 == name {
                assert(has_name(m.entries, name));
            }
        }
    }
    lemma_first_match_unique(m2.entries, name, k);
    assert forall|i: usize| 2 <= i < m.entries.len() + 2 implies entry_result(after, a, i)
        == #[trigger] entry_result(blocks, a, i) by {
        assert(m2.entries[i - 2] == m.entries[i - 2]);
    }
}

/// A handle on an inode: the address of its metadata block.
#[derive(Clone, Copy, Debug, PartialEq, Eq, Structural)]
pub struct DINode {
    pub nid: u64,
    pub bid: u64,
}

impl DINode {
    /// The address of this inode's metadata block.
    pub open spec fn addr(self) -> (u64, u64) {
        (self.nid, self.bid)
    }

    /// A handle on the inode at (`nid`, `bid`). The reserved address (0, 0) holds the root
    /// directory: if it was never written, an empty directory record is written there first.
    pub fn new<T: Transport>(trans: &mut T, nid: u64, bid: u64) -> (r: Result<DINode, DfsError>)
        ensures
            kept(*old(trans), *final(trans)),
            r matches Ok(n) ==> n.nid == nid && n.bid == bid,
            old(trans).faithful() && r is Err ==> is_failure(r),
            (nid, bid) != (0u64, 0u64) ==> r is Ok && *final(trans) == *old(trans),
            old(trans).faithful() && r is Ok ==> final(trans).blocks() == if (nid, bid) == (
                0u64,
                0u64,
            ) && !old(trans).blocks().contains_key((0, 0)) {
                old(trans).blocks().insert((0, 0), meta_layout(empty_record(DFileType::Dir, ROOT_MODE)))
            } else {
                old(trans).blocks()
            },
    {
        if nid == 0 && bid == 0 {
            let mut buf = vec![0u8; MAX_INODE_SIZE];
            match trans.get(nid, bid, buf.as_mut_slice()) {
                Err(TransportError::NotFound) => {
                    let root = DMetadata::new(DFileType::Dir, ROOT_MODE);
                    proof {
                        lemma_empty_record_fits(DFileType::Dir, ROOT_MODE);
                    }
                    match store_meta(trans, (nid, bid), &root) {
                        Ok(()) => {},
                        Err(e) => return Err(e),
                    }
                },
                Err(TransportError::Failure) => return Err(DfsError::Transport(TransportError::Failure)),
                _ => {},
            }
        }
        Ok(DINode { nid, bid })
    }

    /// Applies `f` to the record of this inode and returns what it gives.
    pub fn read<T: Transport, V>(&self, trans: &T, f: impl FnOnce(&DMetadata) -> V) -> (r: Result<V, DfsError>)
        requires
            forall|d: &DMetadata| f.requires((d,)),
        ensures
            trans.faithful() && !is_failure(r) ==> match load(trans.blocks(), self.addr()) {
                Ok(_) => r is Ok,
                Err(e) => r is Err && r->Err_0 == e,
            },
            trans.faithful() && r is Ok ==> exists|d: &DMetadata|
                d@ == load(trans.blocks(), self.addr())->Ok_0 && #[trigger] f.ensures((d,), r->Ok_0),
    {
        let meta = match load_meta(trans, (self.nid, self.bid)) {
            Ok(m) => m,
            Err(e) => return Err(e),
        };
        let v = f(&meta);
        let r: Result<V, DfsError> = Ok(v);
        proof {
            assert(r->Ok_0 == v);
            assert(exists|d: &DMetadata| d@ == meta@ && #[trigger] f.ensures((d,), v));
        }
        r
    }

    /// Applies `f` to the record of this inode, writes the record as `f` left it, and returns
    /// what `f` gave.
    pub fn modify<T: Transport, V>(&self, trans: &mut T, f: impl FnOnce(&mut DMetadata) -> V) -> (r: Result<V, DfsError>)
        requires
            forall|d: &mut DMetadata| f.requires((d,)),
        ensures
            kept(*old(trans), *final(trans)),
            old(trans).faithful() && !is_failure(r) ==> match load(old(trans).blocks(), self.addr()) {
                Err(e) => r is Err && r->Err_0 == e && final(trans).blocks() == old(trans).blocks(),
                Ok(_) => exists|m: MetaView| match #[trigger] save(old(trans).blocks(), self.addr(), m) {
                    Ok(b) => r is Ok && final(trans).blocks() == b,
                    Err(e) => r is Err && r->Err_0 == e && final(trans).blocks() == old(trans).blocks(),
                },
            },
    {
        let mut meta = match load_meta(trans, (self.nid, self.bid)) {
            Ok(m) => m,
            Err(e) => return Err(e),
        };
        let v = f(&mut meta);
        let r = match store_meta(trans, (self.nid, self.bid), &meta) {
            Ok(()) => Ok(v),
            Err(e) => Err(e),
        };
        proof {
            if old(trans).faithful() && !is_failure(r) {
                assert(match save(old(trans).blocks(), self.addr(), meta@) {
                    Ok(b) => r is Ok && trans.blocks() == b,
                    Err(e) => r is Err && r->Err_0 == e && trans.blocks() == old(trans).blocks(),
                });
            }
        }
        r
    }

    /// Reads from byte `offset` of this file into the front of `dbuf`, up to the end of the
    /// block that holds that byte, and returns the number of bytes read.
    pub fn read_at<T: Transport>(&self, trans: &T, offset: usize, dbuf: &mut [u8]) -> (r: Result<
        usize,
        DfsError,
    >)
        ensures
            final(dbuf)@.len() == old(dbuf)@.len(),
            trans.faithful() && !is_failure(r) ==> match read_result(
                trans.blocks(),
                self.addr(),
                offset,
                old(dbuf)@.len(),
            ) {
                Ok(c) => r == Ok::<usize, DfsError>(c.len() as usize) && final(dbuf)@ == filled(
                    old(dbuf)@,
                    c,
                ),
                Err(e) => r == Err::<usize, DfsError>(e) && final(dbuf)@ == old(dbuf)@,
            },
    {
        let meta = match load_meta(trans, (self.nid, self.bid)) {
            Ok(m) => m,
            Err(e) => return Err(e),
        };
        let blk = offset / BLOCK_SIZE;
        let off = offset % BLOCK_SIZE;
        if blk >= meta.blocks.len() {
            return Err(DfsError::InvalidParam);
        }
        let d = meta.blocks[blk];
        let data = match load_data(trans, d) {
            Ok(v) => v,
            Err(e) => return Err(e),
        };
        let avail = if BLOCK_SIZE - off < dbuf.len() {
            BLOCK_SIZE - off
        } else {
            dbuf.len()
        };
        copy_into(dbuf, vstd::slice::slice_subrange(data.as_slice(), off, off + avail));
        Ok(avail)
    }

    /// Writes `dbuf` at byte `offset` of this file, up to the end of the block that holds that
    /// byte, and returns the number of bytes written. Data blocks missing up to that block are
    /// added, on this inode's node and filled with zeros, and the size grows to cover the
    /// write.
    pub fn write_at<T: Transport>(&self, trans: &mut T, offset: usize, dbuf: &[u8]) -> (r: Result<
        usize,
        DfsError,
    >)
        ensures
            kept(*old(trans), *final(trans)),
            old(trans).faithful() && !is_failure(r) ==> exists|ids: Seq<u64>|
                ids.len() == new_blocks(old(trans).blocks(), self.addr(), offset) && #[trigger] write_result(
                    old(trans).blocks(),
                    self.addr(),
                    offset,
                    dbuf@,
                    ids,
                ) == (r, final(trans).blocks()),
    {
        let ghost b0 = trans.blocks();
        let mut meta = match load_meta(trans, (self.nid, self.bid)) {
            Ok(m) => m,
            Err(e) => {
                proof {
                    let ids = Seq::<u64>::empty();
                    if trans.faithful() && !is_failure(Err::<usize, DfsError>(e)) {
                        assert(write_result(b0, self.addr(), offset, dbuf@, ids) == (
                            Err::<usize, DfsError>(e),
                            trans.blocks(),
                        ));
                    }
                }
                return Err(e);
            },
        };
        let blk = offset / BLOCK_SIZE;
        if blk >= FILE_BLOCKS_MAX {
            proof {
                let ids = Seq::<u64>::empty();
                if trans.faithful() {
                    assert(write_result(b0, self.addr(), offset, dbuf@, ids) == (
                        Err::<usize, DfsError>(DfsError::InvalidParam),
                        trans.blocks(),
                    ));
                }
            }
            return Err(DfsError::InvalidParam);
        }
        let (grown, Ghost(ids)) = add_blocks(trans, self.nid, &mut meta, blk);
        match grown {
            Ok(()) => {},
            Err(e) => return Err(e),
        }
        let r = write_tail_at(trans, (self.nid, self.bid), meta, offset, dbuf);
        proof {
            if old(trans).faithful() && !is_failure(r) {
                assert(write_result(b0, self.addr(), offset, dbuf@, ids) == (r, trans.blocks()));
            }
        }
        r
    }

    /// The name of entry `id` of this directory: "." for 0, ".." for 1, and then the stored
    /// entries in the order they were made.
    pub fn get_entry<T: Transport>(&self, trans: &T, id: usize) -> (r: Result<String, DfsError>)
        ensures
            trans.faithful() && !is_failure(r) ==> match entry_result(trans.blocks(), self.addr(), id) {
                Ok(name) => r matches Ok(s) && s@ == name,
                Err(e) => r == Err::<String, DfsError>(e),
            },
    {
        let meta = match load_meta(trans, (self.nid, self.bid)) {
            Ok(m) => m,
            Err(e) => return Err(e),
        };
        if meta.type_ != DFileType::Dir {
            return Err(DfsError::NotDir);
        }
        if id == 0 {
            proof {
                reveal_strlit(".");
            }
            Ok(String::from_str("."))
        } else if id == 1 {
            proof {
                reveal_strlit("..");
            }
            Ok(String::from_str(".."))
        } else if id - 2 < meta.entries.len() {
            Ok(meta.entries[id - 2].0.clone())
        } else {
            Err(DfsError::EntryNotFound)
        }
    }

    /// Looks up `name` in this directory: "." is the directory itself, ".." the root, and any
    /// other name the entry of that name.
    pub fn find<T: Transport>(&self, trans: &T, name: &str) -> (r: Result<DINode, DfsError>)
        ensures
            trans.faithful() && !is_failure(r) ==> handle_addr(r) == lookup_result(
                trans.blocks(),
                self.addr(),
                name@,
            ),
    {
        let meta = match load_meta(trans, (self.nid, self.bid)) {
            Ok(m) => m,
            Err(e) => return Err(e),
        };
        if meta.type_ != DFileType::Dir {
            return Err(DfsError::NotDir);
        }
        let key = String::from_str(name);
        let dot_s = String::from_str(".");
        let dotdot_s = String::from_str("..");
        proof {
            reveal_strlit(".");
            reveal_strlit("..");
            assert(dot_s@ =~= dot());
            assert(dotdot_s@ =~= dotdot());
        }
        if key == dot_s {
            return Ok(DINode { nid: self.nid, bid: self.bid });
        }
        if key == dotdot_s {
            return Ok(DINode { nid: 0, bid: 0 });
        }
        match find_entry(&meta.entries, &key) {
            Some(i) => {
                proof {
                    lemma_first_match_unique(meta@.entries, key@, i as int);
                }
                let (nid, bid) = meta.entries[i].1;
                Ok(DINode { nid, bid })
            },
            None => Err(DfsError::EntryNotFound),
        }
    }

    /// Creates an inode of kind `type_` named `name` in this directory, on this directory's
    /// node: its empty record is written at a new block id, then the directory's record with
    /// the new entry at the end. The mode keeps its low 16 bits.
    pub fn create<T: Transport>(
        &self,
        trans: &mut T,
        name: &str,
        type_: DFileType,
        mode: u32,
    ) -> (r: Result<DINode, DfsError>)
        ensures
            kept(*old(trans), *final(trans)),
            old(trans).faithful() && !is_failure(r) ==> exists|bid: u64| #[trigger]
                create_result(old(trans).blocks(), self.addr(), name@, type_, mode, bid) == (
                    handle_addr(r),
                    final(trans).blocks(),
                ),
    {
        let ghost b0 = trans.blocks();
        let meta = match load_meta(trans, (self.nid, self.bid)) {
            Ok(m) => m,
            Err(e) => {
                proof {
                    if trans.faithful() && !is_failure(Err::<DINode, DfsError>(e)) {
                        assert(create_result(b0, self.addr(), name@, type_, mode, 0) == (
                            handle_addr(Err::<DINode, DfsError>(e)),
                            trans.blocks(),
                        ));
                    }
                }
                return Err(e);
            },
        };
        let key = String::from_str(name);
        let dot_s = String::from_str(".");
        let dotdot_s = String::from_str("..");
        proof {
            reveal_strlit(".");
            reveal_strlit("..");
            assert(dot_s@ =~= dot());
            assert(dotdot_s@ =~= dotdot());
        }
        let exists = key == dot_s || key == dotdot_s || find_entry(&meta.entries, &key).is_some();
        if meta.type_ != DFileType::Dir || exists {
            let e = if meta.type_ != DFileType::Dir {
                DfsError::NotDir
            } else {
                DfsError::EntryExists
            };
            proof {
                if trans.faithful() {
                    assert(create_result(b0, self.addr(), name@, type_, mode, 0) == (
                        handle_addr(Err::<DINode, DfsError>(e)),
                        trans.blocks(),
                    ));
                }
            }
            return Err(e);
        }
        let bid = trans.next();
        let child = DMetadata::new(type_, mode as u16);
        let mut parent = meta;
        parent.entries.push((key, (self.nid, bid)));
        assert(parent@ == with_entry(meta@, (name@, (self.nid, bid)))) by {
            assert(parent@.entries =~= meta@.entries.push((name@, (self.nid, bid))));
        }
        let bytes = encode_meta(&parent);
        if bytes.len() > MAX_INODE_SIZE {
            proof {
                if old(trans).faithful() {
                    assert(create_result(b0, self.addr(), name@, type_, mode, bid) == (
                        handle_addr(Err::<DINode, DfsError>(DfsError::InvalidParam)),
                        trans.blocks(),
                    ));
                }
            }
            return Err(DfsError::InvalidParam);
        }
        proof {
            lemma_empty_record_fits(type_, mode as u16);
        }
        match store_meta(trans, (self.nid, bid), &child) {
            Ok(()) => {},
            Err(e) => return Err(e),
        }
        match trans.set(self.nid, self.bid, bytes.as_slice()) {
            Ok(()) => {},
            Err(e) => return Err(DfsError::Transport(e)),
        }
        let r = DINode { nid: self.nid, bid };
        proof {
            if old(trans).faithful() {
                assert(create_result(b0, self.addr(), name@, type_, mode, bid) == (
                    handle_addr(Ok::<DINode, DfsError>(r)),
                    trans.blocks(),
                ));
            }
        }
        Ok(r)
    }

    /// Writes this inode's data to lasting storage: blocks are written through at once, so
    /// there is nothing left to do.
    pub fn sync_all(&self) -> (r: Result<(), DfsError>)
        ensures
            r is Ok,
    {
        Ok(())
    }

    /// Writes this inode's data to lasting storage: as `sync_all`.
    pub fn sync_data(&self) -> (r: Result<(), DfsError>)
        ensures
            r is Ok,
    {
        Ok(())
    }

    /// Accepts new metadata and keeps none of it: times and owners are not kept.
    pub fn set_metadata(&self, _metadata: &InodeStat) -> (r: Result<(), DfsError>)
        ensures
            r is Ok,
    {
        Ok(())
    }

    /// What the record of this inode tells: its block id, size, number of data blocks, kind
    /// and mode.
    pub fn metadata<T: Transport>(&self, trans: &T) -> (r: Result<InodeStat, DfsError>)
        ensures
            trans.faithful() && !is_failure(r) ==> r == stat_result(trans.blocks(), self.addr()),
    {
        let meta = match load_meta(trans, (self.nid, self.bid)) {
            Ok(m) => m,
            Err(e) => return Err(e),
        };
        Ok(
            InodeStat {
                inode: self.bid,
                size: meta.size,
                blocks: meta.blocks.len(),
                type_: meta.type_,
                mode: meta.mode,
            },
        )
    }

    /// Sets the size of this inode to `len`; its data blocks stay as they are.
    pub fn resize<T: Transport>(&self, trans: &mut T, len: usize) -> (r: Result<(), DfsError>)
        ensures
            kept(*old(trans), *final(trans)),
            old(trans).faithful() && !is_failure(r) ==> resize_result(old(trans).blocks(), self.addr(), len)
                == (r, final(trans).blocks()),
    {
        let ghost b0 = trans.blocks();
        let mut meta = match load_meta(trans, (self.nid, self.bid)) {
            Ok(m) => m,
            Err(e) => {
                proof {
                    if trans.faithful() && !is_failure(Err::<(), DfsError>(e)) {
                        assert(resize_result(b0, self.addr(), len) == (
                            Err::<(), DfsError>(e),
                            trans.blocks(),
                        ));
                    }
                }
                return Err(e);
            },
        };
        let ghost m0 = meta@;
        meta.size = len;
        assert(meta@ == with_size(m0, len));
        let r = match store_meta(trans, (self.nid, self.bid), &meta) {
            Ok(()) => Ok(()),
            Err(e) => Err(e),
        };
        proof {
            if old(trans).faithful() && !is_failure(r) {
                assert(load(b0, self.addr()) == Ok::<MetaView, DfsError>(m0));
                match save(b0, self.addr(), with_size(m0, len)) {
                    Ok(b) => assert(r is Ok && trans.blocks() == b),
                    Err(e) => assert(r == Err::<(), DfsError>(e) && trans.blocks() == b0),
                }
            }
        }
        r
    }
}

} // verus!
