//! Metadata records and their bytes. A record is kept in one metadata block, written with
//! bincode's legacy layout: little-endian fixed-width integers, and a u64 length before
//! every sequence and every string.
use crate::block::MAX_INODE_SIZE;
use vstd::prelude::*;
use vstd::utf8::encode_utf8;

verus! {

/// The kind of an inode.
#[derive(Clone, Copy, Debug, PartialEq, Eq, Structural)]
pub enum DFileType {
    File,
    Dir,
    SymLink,
    CharDevice,
    BlockDevice,
    NamedPipe,
    Socket,
}

/// The number that stands for kind `t` in a record's bytes.
pub open spec fn kind_index(t: DFileType) -> u32 {
    match t {
        DFileType::File => 0,
        DFileType::Dir => 1,
        DFileType::SymLink => 2,
        DFileType::CharDevice => 3,
        DFileType::BlockDevice => 4,
        DFileType::NamedPipe => 5,
        DFileType::Socket => 6,
    }
}

/// The number that stands for kind `t`.
pub fn type_index(t: DFileType) -> (r: u32)
    ensures
        r == kind_index(t),
{
    match t {
        DFileType::File => 0,
        DFileType::Dir => 1,
        DFileType::SymLink => 2,
        DFileType::CharDevice => 3,
        DFileType::BlockDevice => 4,
        DFileType::NamedPipe => 5,
        DFileType::Socket => 6,
    }
}

/// The kind that number `i` stands for, if any.
pub fn type_of_index(i: u32) -> (r: Option<DFileType>)
    ensures
        r matches Some(t) ==> kind_index(t) == i,
        r is None ==> forall|t: DFileType| kind_index(t) != i,
{
    match i {
        0 => Some(DFileType::File),
        1 => Some(DFileType::Dir),
        2 => Some(DFileType::SymLink),
        3 => Some(DFileType::CharDevice),
        4 => Some(DFileType::BlockDevice),
        5 => Some(DFileType::NamedPipe),
        6 => Some(DFileType::Socket),
        _ => None,
    }
}

/// The metadata record of one inode.
pub struct DMetadata {
    pub type_: DFileType,
    /// Permission bits.
    pub mode: u16,
    /// For a directory: its entries, name and address of the child, in the order they were
    /// made. Names are unique; "." and ".." are never stored.
    pub entries: Vec<(String, (u64, u64))>,
    /// For a file: the address of the data block that holds bytes
    /// `[i * BLOCK_SIZE, (i + 1) * BLOCK_SIZE)`, at index `i`.
    pub blocks: Vec<(u64, u64)>,
    /// For a file: its length in bytes.
    pub size: usize,
}

/// A record as a value.
pub struct MetaView {
    pub kind: DFileType,
    pub mode: u16,
    pub entries: Seq<(Seq<char>, (u64, u64))>,
    pub blocks: Seq<(u64, u64)>,
    pub size: usize,
}

/// Entries with their names as character sequences.
pub open spec fn entries_view(s: Seq<(String, (u64, u64))>) -> Seq<(Seq<char>, (u64, u64))> {
    s.map_values(|e: (String, (u64, u64))| (e.0@, e.1))
}

impl View for DMetadata {
    type V = MetaView;

    open spec fn view(&self) -> MetaView {
        MetaView {
            kind: self.type_,
            mode: self.mode,
            entries: entries_view(self.entries@),
            blocks: self.blocks@,
            size: self.size,
        }
    }
}

impl DMetadata {
    /// A record of kind `type_` with no entries, no blocks and size 0.
    pub fn new(type_: DFileType, mode: u16) -> (r: DMetadata)
        ensures
            r@ == empty_record(type_, mode),
    {
        let r = DMetadata { type_, mode, entries: Vec::new(), blocks: Vec::new(), size: 0 };
        assert(r@.entries =~= Seq::<(Seq<char>, (u64, u64))>::empty());
        r
    }
}

/// A record of kind `t` with no entries, no blocks and size 0.
pub open spec fn empty_record(t: DFileType, mode: u16) -> MetaView {
    MetaView { kind: t, mode, entries: Seq::empty(), blocks: Seq::empty(), size: 0 }
}

/// The two little-endian bytes of `x`.
pub open spec fn le16(x: u16) -> Seq<u8> {
    seq![x as u8, (x >> 8u16) as u8]
}

/// The four little-endian bytes of `x`.
pub open spec fn le32(x: u32) -> Seq<u8> {
    seq![x as u8, (x >> 8u32) as u8, (x >> 16u32) as u8, (x >> 24u32) as u8]
}

/// The eight little-endian bytes of `x`.
pub open spec fn le64(x: u64) -> Seq<u8> {
    seq![
        x as u8,
        (x >> 8u64) as u8,
        (x >> 16u64) as u8,
        (x >> 24u64) as u8,
        (x >> 32u64) as u8,
        (x >> 40u64) as u8,
        (x >> 48u64) as u8,
        (x >> 56u64) as u8,
    ]
}

/// A string: the length of its UTF-8 bytes, then those bytes.
pub open spec fn str_layout(s: Seq<char>) -> Seq<u8> {
    le64(encode_utf8(s).len() as u64) + encode_utf8(s)
}

/// An address: node id, then block id.
pub open spec fn addr_layout(a: (u64, u64)) -> Seq<u8> {
    le64(a.0) + le64(a.1)
}

/// A directory entry: name, then address.
pub open spec fn entry_layout(e: (Seq<char>, (u64, u64))) -> Seq<u8> {
    str_layout(e.0) + addr_layout(e.1)
}

/// Directory entries, one after another.
pub open spec fn entries_bytes(es: Seq<(Seq<char>, (u64, u64))>) -> Seq<u8>
    decreases es.len(),
{
    if es.len() == 0 {
        Seq::empty()
    } else {
        entry_layout(es[0]) + entries_bytes(es.drop_first())
    }
}

/// Addresses, one after another.
pub open spec fn addrs_bytes(bs: Seq<(u64, u64)>) -> Seq<u8>
    decreases bs.len(),
{
    if bs.len() == 0 {
        Seq::empty()
    } else {
        addr_layout(bs[0]) + addrs_bytes(bs.drop_first())
    }
}

/// The bytes of a record with these fields: kind, mode, entries, blocks, size.
#[verifier::opaque]
pub open spec fn record_layout(
    kind: u32,
    mode: u16,
    entries: Seq<(Seq<char>, (u64, u64))>,
    blocks: Seq<(u64, u64)>,
    size: usize,
) -> Seq<u8> {
    le32(kind) + le16(mode) + le64(entries.len() as u64) + entries_bytes(entries) + le64(
        blocks.len() as u64,
    ) + addrs_bytes(blocks) + le64(size as u64)
}

/// The bytes of record `m`.
pub open spec fn meta_layout(m: MetaView) -> Seq<u8> {
    record_layout(kind_index(m.kind), m.mode, m.entries, m.blocks, m.size)
}

/// Whether `s` starts with `p`.
pub open spec fn is_prefix(p: Seq<u8>, s: Seq<u8>) -> bool {
    p.len() <= s.len() && s.subrange(0, p.len() as int) == p
}

/// The record that the bytes `c` start with, if they start with one.
pub open spec fn record_of(c: Seq<u8>) -> Option<MetaView> {
    if exists|m: MetaView| is_prefix(#[trigger] meta_layout(m), c) {
        Some(choose|m: MetaView| is_prefix(#[trigger] meta_layout(m), c))
    } else {
        None
    }
}

/// Relies on `bincode::encode_to_vec` with the legacy configuration: it writes the fields of
/// a tuple one after another, integers as little-endian fixed-width bytes (a `usize` as eight),
/// a sequence or a string as its length in eight bytes followed by its items or its UTF-8
/// bytes; writing to a `Vec` cannot fail.
#[verifier::external_body]
fn bincode_encode(
    kind: u32,
    mode: u16,
    entries: &Vec<(String, (u64, u64))>,
    blocks: &Vec<(u64, u64)>,
    size: usize,
) -> (r: Vec<u8>)
    ensures
        r@ == record_layout(kind, mode, entries_view(entries@), blocks@, size),
{
    bincode::encode_to_vec((kind, mode, entries, blocks, size), bincode::config::legacy()).unwrap()
}

/// The fields of a record as bincode hands them over, as values.
pub open spec fn raw_view(v: (u32, u16, Vec<(String, (u64, u64))>, Vec<(u64, u64)>, usize)) -> (
    u32,
    u16,
    Seq<(Seq<char>, (u64, u64))>,
    Seq<(u64, u64)>,
    usize,
) {
    (v.0, v.1, entries_view(v.2@), v.3@, v.4)
}

/// The bytes of a record with the fields `f`.
pub open spec fn raw_layout(
    f: (u32, u16, Seq<(Seq<char>, (u64, u64))>, Seq<(u64, u64)>, usize),
) -> Seq<u8> {
    record_layout(f.0, f.1, f.2, f.3, f.4)
}

/// Relies on `bincode::decode_from_slice` with the legacy configuration, the inverse of
/// `bincode_encode`: it reads the bytes of a tuple from the front of the slice and fails where
/// they are not such bytes. The limit of 64 KiB on what it may reserve keeps a corrupt length
/// from asking for a huge allocation; a record of at most `MAX_INODE_SIZE` bytes stays far
/// below it.
#[verifier::external_body]
fn bincode_decode(bytes: &[u8]) -> (r: Option<(u32, u16, Vec<(String, (u64, u64))>, Vec<(u64, u64)>, usize)>)
    requires
        bytes@.len() <= MAX_INODE_SIZE,
    ensures
        r matches Some(v) ==> is_prefix(raw_layout(raw_view(v)), bytes@),
        (forall|k: u32, m: u16, es: Seq<(Seq<char>, (u64, u64))>, bs: Seq<(u64, u64)>, sz: usize|
            #[trigger] is_prefix(record_layout(k, m, es, bs, sz), bytes@) ==> r is Some && raw_view(
                r.unwrap(),
            ) == (k, m, es, bs, sz)),
{
    bincode::decode_from_slice(bytes, bincode::config::legacy().with_limit::<65536>()).ok().map(
        |d: ((u32, u16, Vec<(String, (u64, u64))>, Vec<(u64, u64)>, usize), usize)| d.0,
    )
}

/// The bytes of the metadata block that holds `m`.
pub fn encode_meta(m: &DMetadata) -> (r: Vec<u8>)
    ensures
        r@ == meta_layout(m@),
        r@.len() > 0,
{
    proof {
        lemma_layout_nonempty(m@);
    }
    bincode_encode(type_index(m.type_), m.mode, &m.entries, &m.blocks, m.size)
}

/// The bytes of a record are never empty.
pub proof fn lemma_layout_nonempty(m: MetaView)
    ensures
        meta_layout(m).len() > 0,
{
    reveal(record_layout);
}

/// The record of an empty inode fits its block.
pub proof fn lemma_empty_record_fits(t: DFileType, mode: u16)
    ensures
        meta_layout(empty_record(t, mode)).len() <= MAX_INODE_SIZE,
{
    reveal(record_layout);
}

/// Different integers have different little-endian bytes.
proof fn lemma_le_injective(a: u64, b: u64, c: u32, d: u32, e: u16, f: u16)
    ensures
        le64(a) == le64(b) ==> a == b,
        le32(c) == le32(d) ==> c == d,
        le16(e) == le16(f) ==> e == f,
{
    if le64(a) == le64(b) {
        let (sa, sb) = (le64(a), le64(b));
        assert(sa[0] == sb[0] && sa[1] == sb[1] && sa[2] == sb[2] && sa[3] == sb[3] && sa[4] == sb[4]
            && sa[5] == sb[5] && sa[6] == sb[6] && sa[7] == sb[7]);
        assert(a == b) by (bit_vector)
            requires
                a as u8 == b as u8,
                (a >> 8u64) as u8 == (b >> 8u64) as u8,
                (a >> 16u64) as u8 == (b >> 16u64) as u8,
                (a >> 24u64) as u8 == (b >> 24u64) as u8,
                (a >> 32u64) as u8 == (b >> 32u64) as u8,
                (a >> 40u64) as u8 == (b >> 40u64) as u8,
                (a >> 48u64) as u8 == (b >> 48u64) as u8,
                (a >> 56u64) as u8 == (b >> 56u64) as u8,
        ;
    }
    if le32(c) == le32(d) {
        let (sc, sd) = (le32(c), le32(d));
        assert(sc[0] == sd[0] && sc[1] == sd[1] && sc[2] == sd[2] && sc[3] == sd[3]);
        assert(c == d) by (bit_vector)
            requires
                c as u8 == d as u8,
                (c >> 8u32) as u8 == (d >> 8u32) as u8,
                (c >> 16u32) as u8 == (d >> 16u32) as u8,
                (c >> 24u32) as u8 == (d >> 24u32) as u8,
        ;
    }
    if le16(e) == le16(f) {
        let (se, sf) = (le16(e), le16(f));
        assert(se[0] == sf[0] && se[1] == sf[1]);
        assert(e == f) by (bit_vector)
            requires
                e as u8 == f as u8,
                (e >> 8u16) as u8 == (f >> 8u16) as u8,
        ;
    }
}

/// Two sequences that both start `c`, with heads of one length, have the same head, and
/// their tails both start what follows the head in `c`.
proof fn lemma_peel(a1: Seq<u8>, b1: Seq<u8>, a2: Seq<u8>, b2: Seq<u8>, c: Seq<u8>)
    requires
        is_prefix(a1 + b1, c),
        is_prefix(a2 + b2, c),
        a1.len() == a2.len(),
    ensures
        a1 == a2,
        is_prefix(b1, c.subrange(a1.len() as int, c.len() as int)),
        is_prefix(b2, c.subrange(a1.len() as int, c.len() as int)),
{
    let n = a1.len() as int;
    assert(a1 =~= (a1 + b1).subrange(0, n));
    assert(a2 =~= (a2 + b2).subrange(0, n));
    assert(a1 =~= c.subrange(0, n));
    assert(a2 =~= c.subrange(0, n));
    assert(b1 =~= (a1 + b1).subrange(n, (a1 + b1).len() as int));
    assert(b2 =~= (a2 + b2).subrange(n, (a2 + b2).len() as int));
    assert(c.subrange(n, c.len() as int).subrange(0, b1.len() as int) =~= b1);
    assert(c.subrange(n, c.len() as int).subrange(0, b2.len() as int) =~= b2);
}

/// The entries take at least 24 bytes each.
proof fn lemma_entries_bytes_len(es: Seq<(Seq<char>, (u64, u64))>)
    ensures
        entries_bytes(es).len() >= 24 * es.len(),
    decreases es.len(),
{
    if es.len() > 0 {
        lemma_entries_bytes_len(es.drop_first());
    }
}

/// The addresses take 16 bytes each.
proof fn lemma_addrs_bytes_len(bs: Seq<(u64, u64)>)
    ensures
        addrs_bytes(bs).len() == 16 * bs.len(),
    decreases bs.len(),
{
    if bs.len() > 0 {
        lemma_addrs_bytes_len(bs.drop_first());
    }
}

/// Two addresses whose bytes both start `c` are the same address.
proof fn lemma_addr_peel(a1: (u64, u64), x1: Seq<u8>, a2: (u64, u64), x2: Seq<u8>, c: Seq<u8>)
    requires
        is_prefix(addr_layout(a1) + x1, c),
        is_prefix(addr_layout(a2) + x2, c),
    ensures
        a1 == a2,
        is_prefix(x1, c.subrange(16, c.len() as int)),
        is_prefix(x2, c.subrange(16, c.len() as int)),
{
    assert(addr_layout(a1) + x1 =~= le64(a1.0) + (le64(a1.1) + x1));
    assert(addr_layout(a2) + x2 =~= le64(a2.0) + (le64(a2.1) + x2));
    lemma_peel(le64(a1.0), le64(a1.1) + x1, le64(a2.0), le64(a2.1) + x2, c);
    let c1 = c.subrange(8, c.len() as int);
    lemma_peel(le64(a1.1), x1, le64(a2.1), x2, c1);
    lemma_le_injective(a1.0, a2.0, 0, 0, 0, 0);
    lemma_le_injective(a1.1, a2.1, 0, 0, 0, 0);
    assert(c1.subrange(8, c1.len() as int) =~= c.subrange(16, c.len() as int));
}

/// Two entries whose bytes both start `c` are the same entry.
proof fn lemma_entry_peel(
    e1: (Seq<char>, (u64, u64)),
    x1: Seq<u8>,
    e2: (Seq<char>, (u64, u64)),
    x2: Seq<u8>,
    c: Seq<u8>,
)
    requires
        is_prefix(entry_layout(e1) + x1, c),
        is_prefix(entry_layout(e2) + x2, c),
        c.len() <= u64::MAX,
    ensures
        e1 == e2,
        is_prefix(x1, c.subrange(entry_layout(e1).len() as int, c.len() as int)),
        is_prefix(x2, c.subrange(entry_layout(e1).len() as int, c.len() as int)),
{
    let u1 = encode_utf8(e1.0);
    let u2 = encode_utf8(e2.0);
    let t1 = u1 + (addr_layout(e1.1) + x1);
    let t2 = u2 + (addr_layout(e2.1) + x2);
    assert(entry_layout(e1) + x1 =~= le64(u1.len() as u64) + t1);
    assert(entry_layout(e2) + x2 =~= le64(u2.len() as u64) + t2);
    lemma_peel(le64(u1.len() as u64), t1, le64(u2.len() as u64), t2, c);
    lemma_le_injective(u1.len() as u64, u2.len() as u64, 0, 0, 0, 0);
    let c1 = c.subrange(8, c.len() as int);
    lemma_peel(u1, addr_layout(e1.1) + x1, u2, addr_layout(e2.1) + x2, c1);
    vstd::utf8::encode_utf8_decode_utf8(e1.0);
    vstd::utf8::encode_utf8_decode_utf8(e2.0);
    let c2 = c1.subrange(u1.len() as int, c1.len() as int);
    lemma_addr_peel(e1.1, x1, e2.1, x2, c2);
    assert(c2.subrange(16, c2.len() as int) =~= c.subrange(
        entry_layout(e1).len() as int,
        c.len() as int,
    ));
}

/// Two runs of as many entries whose bytes both start `c` are the same entries.
proof fn lemma_entries_peel(
    es1: Seq<(Seq<char>, (u64, u64))>,
    x1: Seq<u8>,
    es2: Seq<(Seq<char>, (u64, u64))>,
    x2: Seq<u8>,
    c: Seq<u8>,
)
    requires
        es1.len() == es2.len(),
        is_prefix(entries_bytes(es1) + x1, c),
        is_prefix(entries_bytes(es2) + x2, c),
        c.len() <= u64::MAX,
    ensures
        es1 == es2,
        is_prefix(x1, c.subrange(entries_bytes(es1).len() as int, c.len() as int)),
        is_prefix(x2, c.subrange(entries_bytes(es1).len() as int, c.len() as int)),
    decreases es1.len(),
{
    if es1.len() == 0 {
        assert(entries_bytes(es1) + x1 =~= x1);
        assert(entries_bytes(es2) + x2 =~= x2);
        assert(c.subrange(0, c.len() as int) =~= c);
        assert(es1 =~= es2);
    } else {
        let r1 = entries_bytes(es1.drop_first()) + x1;
        let r2 = entries_bytes(es2.drop_first()) + x2;
        assert(entries_bytes(es1) + x1 =~= entry_layout(es1[0]) + r1);
        assert(entries_bytes(es2) + x2 =~= entry_layout(es2[0]) + r2);
        lemma_entry_peel(es1[0], r1, es2[0], r2, c);
        let n = entry_layout(es1[0]).len() as int;
        let c1 = c.subrange(n, c.len() as int);
        lemma_entries_peel(es1.drop_first(), x1, es2.drop_first(), x2, c1);
        assert(es1 =~= es2) by {
            assert forall|i: int| 0 <= i < es1.len() implies es1[i] == es2[i] by {
                if i > 0 {
                    assert(es1[i] == es1.drop_first()[i - 1]);
                    assert(es2[i] == es2.drop_first()[i - 1]);
                }
            }
        }
        assert(c1.subrange(entries_bytes(es1.drop_first()).len() as int, c1.len() as int) =~= c.subrange(
            entries_bytes(es1).len() as int,
            c.len() as int,
        ));
    }
}

/// Two runs of as many addresses whose bytes both start `c` are the same addresses.
proof fn lemma_addrs_peel(bs1: Seq<(u64, u64)>, x1: Seq<u8>, bs2: Seq<(u64, u64)>, x2: Seq<u8>, c: Seq<u8>)
    requires
        bs1.len() == bs2.len(),
        is_prefix(addrs_bytes(bs1) + x1, c),
        is_prefix(addrs_bytes(bs2) + x2, c),
    ensures
        bs1 == bs2,
        is_prefix(x1, c.subrange(addrs_bytes(bs1).len() as int, c.len() as int)),
        is_prefix(x2, c.subrange(addrs_bytes(bs1).len() as int, c.len() as int)),
    decreases bs1.len(),
{
    if bs1.len() == 0 {
        assert(addrs_bytes(bs1) + x1 =~= x1);
        assert(addrs_bytes(bs2) + x2 =~= x2);
        assert(c.subrange(0, c.len() as int) =~= c);
        assert(bs1 =~= bs2);
    } else {
        let r1 = addrs_bytes(bs1.drop_first()) + x1;
        let r2 = addrs_bytes(bs2.drop_first()) + x2;
        assert(addrs_bytes(bs1) + x1 =~= addr_layout(bs1[0]) + r1);
        assert(addrs_bytes(bs2) + x2 =~= addr_layout(bs2[0]) + r2);
        lemma_addr_peel(bs1[0], r1, bs2[0], r2, c);
        let c1 = c.subrange(16, c.len() as int);
        lemma_addrs_peel(bs1.drop_first(), x1, bs2.drop_first(), x2, c1);
        assert(bs1 =~= bs2) by {
            assert forall|i: int| 0 <= i < bs1.len() implies bs1[i] == bs2[i] by {
                if i > 0 {
                    assert(bs1[i] == bs1.drop_first()[i - 1]);
                    assert(bs2[i] == bs2.drop_first()[i - 1]);
                }
            }
        }
        assert(c1.subrange(addrs_bytes(bs1.drop_first()).len() as int, c1.len() as int) =~= c.subrange(
            addrs_bytes(bs1).len() as int,
            c.len() as int,
        ));
    }
}

/// What follows the count of blocks in the bytes of record `m`.
spec fn blocks_part(m: MetaView) -> Seq<u8> {
    addrs_bytes(m.blocks) + le64(m.size as u64)
}

/// What follows the count of entries in the bytes of record `m`.
spec fn entries_part(m: MetaView) -> Seq<u8> {
    entries_bytes(m.entries) + (le64(m.blocks.len() as u64) + blocks_part(m))
}

/// Two records whose blocks and size, with what precedes them, both start `c` have the same
/// blocks and size.
proof fn lemma_blocks_part_unique(m1: MetaView, m2: MetaView, c: Seq<u8>)
    requires
        is_prefix(le64(m1.blocks.len() as u64) + blocks_part(m1), c),
        is_prefix(le64(m2.blocks.len() as u64) + blocks_part(m2), c),
        c.len() <= MAX_INODE_SIZE,
    ensures
        m1.blocks == m2.blocks,
        m1.size == m2.size,
{
    lemma_peel(le64(m1.blocks.len() as u64), blocks_part(m1), le64(m2.blocks.len() as u64), blocks_part(m2), c);
    lemma_addrs_bytes_len(m1.blocks);
    lemma_addrs_bytes_len(m2.blocks);
    lemma_le_injective(m1.blocks.len() as u64, m2.blocks.len() as u64, 0, 0, 0, 0);
    let c1 = c.subrange(8, c.len() as int);
    lemma_addrs_peel(m1.blocks, le64(m1.size as u64), m2.blocks, le64(m2.size as u64), c1);
    let c2 = c1.subrange(addrs_bytes(m1.blocks).len() as int, c1.len() as int);
    assert(le64(m1.size as u64) =~= c2.subrange(0, 8));
    assert(le64(m2.size as u64) =~= c2.subrange(0, 8));
    lemma_le_injective(m1.size as u64, m2.size as u64, 0, 0, 0, 0);
}

/// Two records whose entries, blocks and size, with what precedes them, both start `c` have the
/// same entries, blocks and size.
proof fn lemma_entries_part_unique(m1: MetaView, m2: MetaView, c: Seq<u8>)
    requires
        is_prefix(le64(m1.entries.len() as u64) + entries_part(m1), c),
        is_prefix(le64(m2.entries.len() as u64) + entries_part(m2), c),
        c.len() <= MAX_INODE_SIZE,
    ensures
        m1.entries == m2.entries,
        m1.blocks == m2.blocks,
        m1.size == m2.size,
{
    lemma_peel(le64(m1.entries.len() as u64), entries_part(m1), le64(m2.entries.len() as u64), entries_part(m2), c);
    lemma_entries_bytes_len(m1.entries);
    lemma_entries_bytes_len(m2.entries);
    lemma_le_injective(m1.entries.len() as u64, m2.entries.len() as u64, 0, 0, 0, 0);
    let c1 = c.subrange(8, c.len() as int);
    let t1 = le64(m1.blocks.len() as u64) + blocks_part(m1);
    let t2 = le64(m2.blocks.len() as u64) + blocks_part(m2);
    lemma_entries_peel(m1.entries, t1, m2.entries, t2, c1);
    lemma_blocks_part_unique(m1, m2, c1.subrange(entries_bytes(m1.entries).len() as int, c1.len() as int));
}

/// The bytes of a record, grouped from the right.
proof fn lemma_layout_shape(m: MetaView)
    ensures
        meta_layout(m) == le32(kind_index(m.kind)) + (le16(m.mode) + (le64(m.entries.len() as u64)
            + entries_part(m))),
{
    reveal(record_layout);
    let a = le32(kind_index(m.kind));
    let b = le16(m.mode);
    let c = le64(m.entries.len() as u64);
    let d = entries_bytes(m.entries);
    let e = le64(m.blocks.len() as u64);
    let f = addrs_bytes(m.blocks);
    let g = le64(m.size as u64);
    assert(meta_layout(m) == a + b + c + d + e + f + g);
    assert(a + b + c + d + e + f + g =~= a + (b + (c + (d + (e + (f + g))))));
}

/// Two records whose bytes both start `c`, which fits a metadata block, are the same record.
proof fn lemma_layout_prefix_unique(m1: MetaView, m2: MetaView, c: Seq<u8>)
    requires
        is_prefix(meta_layout(m1), c),
        is_prefix(meta_layout(m2), c),
        c.len() <= MAX_INODE_SIZE,
    ensures
        m1 == m2,
{
    let (k1, k2) = (kind_index(m1.kind), kind_index(m2.kind));
    let mid1 = le64(m1.entries.len() as u64) + entries_part(m1);
    let mid2 = le64(m2.entries.len() as u64) + entries_part(m2);
    lemma_layout_shape(m1);
    lemma_layout_shape(m2);
    lemma_peel(le32(k1), le16(m1.mode) + mid1, le32(k2), le16(m2.mode) + mid2, c);
    let c1 = c.subrange(4, c.len() as int);
    lemma_peel(le16(m1.mode), mid1, le16(m2.mode), mid2, c1);
    lemma_le_injective(0, 0, k1, k2, m1.mode, m2.mode);
    lemma_kind_index_injective(m1.kind, m2.kind);
    lemma_entries_part_unique(m1, m2, c1.subrange(2, c1.len() as int));
}

/// Bytes that fit a metadata block and start with the bytes of record `m` are read as `m`:
/// what is written is read back.
pub proof fn lemma_record_reads_back(m: MetaView, c: Seq<u8>)
    requires
        is_prefix(meta_layout(m), c),
        c.len() <= MAX_INODE_SIZE,
    ensures
        record_of(c) == Some(m),
{
    let m2 = choose|m2: MetaView| is_prefix(#[trigger] meta_layout(m2), c);
    lemma_layout_prefix_unique(m, m2, c);
}

/// A record that fits its block is read back from its bytes as itself.
pub proof fn lemma_record_round_trip(m: MetaView)
    requires
        meta_layout(m).len() <= MAX_INODE_SIZE,
    ensures
        record_of(meta_layout(m)) == Some(m),
{
    let l = meta_layout(m);
    assert(l.subrange(0, l.len() as int) =~= l);
    lemma_record_reads_back(m, l);
}

/// The bytes of a record with no entries and no blocks are read back as that record.
pub proof fn lemma_empty_record_reads_back(t: DFileType, mode: u16)
    ensures
        record_of(meta_layout(empty_record(t, mode))) == Some(empty_record(t, mode)),
{
    let l = meta_layout(empty_record(t, mode));
    lemma_empty_record_fits(t, mode);
    assert(l.subrange(0, l.len() as int) =~= l);
    lemma_record_reads_back(empty_record(t, mode), l);
}

/// Different kinds have different numbers.
proof fn lemma_kind_index_injective(a: DFileType, b: DFileType)
    requires
        kind_index(a) == kind_index(b),
    ensures
        a == b,
{
}

/// The record that `bytes` start with, if they start with one.
pub fn decode_meta(bytes: &[u8]) -> (r: Option<DMetadata>)
    requires
        bytes@.len() <= MAX_INODE_SIZE,
    ensures
        match r {
            Some(m) => record_of(bytes@) == Some(m@),
            None => record_of(bytes@) is None,
        },
{
    match bincode_decode(bytes) {
        None => {
            proof {
                if exists|m: MetaView| is_prefix(#[trigger] meta_layout(m), bytes@) {
                    let m = choose|m: MetaView| is_prefix(#[trigger] meta_layout(m), bytes@);
                    assert(is_prefix(
                        record_layout(kind_index(m.kind), m.mode, m.entries, m.blocks, m.size),
                        bytes@,
                    ));
                }
            }
            None
        },
        Some(v) => {
            let (kind, mode, entries, blocks, size) = v;
            match type_of_index(kind) {
                None => {
                    proof {
                        if exists|m: MetaView| is_prefix(#[trigger] meta_layout(m), bytes@) {
                            let m = choose|m: MetaView| is_prefix(#[trigger] meta_layout(m), bytes@);
                            assert(is_prefix(
                                record_layout(kind_index(m.kind), m.mode, m.entries, m.blocks, m.size),
                                bytes@,
                            ));
                        }
                    }
                    None
                },
                Some(t) => {
                    let r = DMetadata { type_: t, mode, entries, blocks, size };
                    proof {
                        assert(is_prefix(meta_layout(r@), bytes@));
                        let m = choose|m: MetaView| is_prefix(#[trigger] meta_layout(m), bytes@);
                        assert(is_prefix(
                            record_layout(kind_index(m.kind), m.mode, m.entries, m.blocks, m.size),
                            bytes@,
                        ));
                        lemma_kind_index_injective(m.kind, t);
                        assert(m == r@);
                    }
                    Some(r)
                },
            }
        },
    }
}

} // verus!
