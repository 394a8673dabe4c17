//! Inode numbers that tell the node an inode lives on.
use vstd::prelude::*;

verus! {

/// The inode number that joins node id `nid` to inode number `inode`: the node id in the high
/// 32 bits, the inode number in the low 32. Only inode numbers below 2^32 can be joined.
pub fn local_inode(nid: u64, inode: u64) -> (r: Option<u64>)
    ensures
        r is Some <==> inode >> 32u64 == 0,
        r matches Some(n) ==> n >> 32u64 == nid & 0xffff_ffffu64 && n & 0xffff_ffffu64 == inode,
{
    if inode >> 32u64 != 0 {
        return None;
    }
    let n = (inode & 0xffff_ffffu64) | (nid << 32u64);
    assert(n >> 32u64 == nid & 0xffff_ffffu64 && n & 0xffff_ffffu64 == inode) by (bit_vector)
        requires
            inode >> 32u64 == 0,
            n == (inode & 0xffff_ffffu64) | (nid << 32u64),
    ;
    Some(n)
}

} // verus!
