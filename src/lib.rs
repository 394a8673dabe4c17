//! A distributed filesystem: a block transport that turns a set of nodes into one store of
//! fixed-size blocks addressed by (node id, block id), and an inode layer that keeps
//! directories and files in those blocks.
pub mod block;
pub mod codec;
pub mod inode;
pub mod local;
pub mod store;
pub mod transport;
pub mod wire;

use crate::inode::{kept, DINode, DfsError, ROOT_MODE};
use crate::codec::{empty_record, meta_layout, DFileType};
use crate::transport::Transport;
use vstd::prelude::*;

verus! {

/// What the filesystem tells of its capacity. Nothing of it is tracked yet: every count is 0.
#[derive(Clone, Copy, Debug, PartialEq, Eq, Structural)]
pub struct FsInfo {
    pub bsize: usize,
    pub frsize: usize,
    pub blocks: usize,
    pub bfree: usize,
    pub bavail: usize,
    pub files: usize,
    pub ffree: usize,
    pub namemax: usize,
}

/// The distributed filesystem over transport `trans`; its root directory is the inode at the
/// reserved address (0, 0).
pub struct DFS<T: Transport> {
    pub trans: T,
}

impl<T: Transport> DFS<T> {
    /// The filesystem over `trans`.
    pub fn new(trans: T) -> (r: DFS<T>)
        ensures
            r.trans == trans,
    {
        DFS { trans }
    }

    /// The root directory, made empty first if its record was never written.
    pub fn root_inode(&mut self) -> (r: Result<DINode, DfsError>)
        ensures
            kept(old(self).trans, final(self).trans),
            r matches Ok(n) ==> n.nid == 0 && n.bid == 0,
            old(self).trans.faithful() && r is Err ==> r == Err::<DINode, DfsError>(
                DfsError::Transport(crate::block::TransportError::Failure),
            ),
            old(self).trans.faithful() && r is Ok ==> final(self).trans.blocks() == if old(
                self,
            ).trans.blocks().contains_key((0, 0)) {
                old(self).trans.blocks()
            } else {
                old(self).trans.blocks().insert((0, 0), meta_layout(empty_record(DFileType::Dir, ROOT_MODE)))
            },
    {
        DINode::new(&mut self.trans, 0, 0)
    }

    /// Writes everything to lasting storage: blocks are written through at once, so there is
    /// nothing left to do.
    pub fn sync(&self) -> (r: Result<(), DfsError>)
        ensures
            r is Ok,
    {
        Ok(())
    }

    /// The capacity of the filesystem, which is not tracked: all zeros.
    pub fn info(&self) -> (r: FsInfo)
        ensures
            r == (FsInfo { bsize: 0, frsize: 0, blocks: 0, bfree: 0, bavail: 0, files: 0, ffree: 0, namemax: 0 }),
    {
        FsInfo { bsize: 0, frsize: 0, blocks: 0, bfree: 0, bavail: 0, files: 0, ffree: 0, namemax: 0 }
    }
}

} // verus!
