use rcore_fs_dfs::block::{TransportError, BLOCK_SIZE};
use rcore_fs_dfs::codec::{encode_meta, DFileType, DMetadata};
use rcore_fs_dfs::inode::{DINode, DfsError};
use rcore_fs_dfs::local::local_inode;
use rcore_fs_dfs::transport::{MemTransport, Transport};
use rcore_fs_dfs::{FsInfo, DFS};

fn fresh() -> (DFS<MemTransport>, DINode) {
    let mut fs = DFS::new(MemTransport::new(0, 1));
    let root = fs.root_inode().unwrap();
    (fs, root)
}

#[test]
fn root_is_made_on_first_access() {
    let mut fs = DFS::new(MemTransport::new(0, 1));
    let mut buf = vec![0u8; 4096];
    assert_eq!(fs.trans.get(0, 0, &mut buf), Err(TransportError::NotFound));
    let root = fs.root_inode().unwrap();
    assert_eq!(root, DINode { nid: 0, bid: 0 });
    let n = fs.trans.get(0, 0, &mut buf).unwrap();
    assert_eq!(&buf[..n], &encode_meta(&DMetadata::new(DFileType::Dir, 0o777))[..]);
    let stat = root.metadata(&fs.trans).unwrap();
    assert_eq!(stat.type_, DFileType::Dir);
    assert_eq!(stat.mode, 0o777);
    assert_eq!(stat.inode, 0);
    assert_eq!(root.get_entry(&fs.trans, 2), Err(DfsError::EntryNotFound));
}

#[test]
fn root_is_not_remade() {
    let (mut fs, root) = fresh();
    root.create(&mut fs.trans, "a", DFileType::File, 0o644).unwrap();
    let again = fs.root_inode().unwrap();
    assert_eq!(again.get_entry(&fs.trans, 2).unwrap(), "a");
}

#[test]
fn listing_is_stable() {
    let (mut fs, root) = fresh();
    root.create(&mut fs.trans, "a", DFileType::File, 0o644).unwrap();
    root.create(&mut fs.trans, "b", DFileType::Dir, 0o755).unwrap();
    for _ in 0..2 {
        assert_eq!(root.get_entry(&fs.trans, 0).unwrap(), ".");
        assert_eq!(root.get_entry(&fs.trans, 1).unwrap(), "..");
        assert_eq!(root.get_entry(&fs.trans, 2).unwrap(), "a");
        assert_eq!(root.get_entry(&fs.trans, 3).unwrap(), "b");
        assert_eq!(root.get_entry(&fs.trans, 4), Err(DfsError::EntryNotFound));
    }
}

#[test]
fn lookup_is_idempotent() {
    let (mut fs, root) = fresh();
    let a = root.create(&mut fs.trans, "a", DFileType::Dir, 0o755).unwrap();
    let first = root.find(&fs.trans, "a").unwrap();
    let second = root.find(&fs.trans, "a").unwrap();
    assert_eq!(first, a);
    assert_eq!(first, second);
    assert_eq!(a.nid, 0);
    assert_eq!(root.find(&fs.trans, ".").unwrap(), root);
    assert_eq!(a.find(&fs.trans, "..").unwrap(), DINode { nid: 0, bid: 0 });
    assert_eq!(root.find(&fs.trans, "zz"), Err(DfsError::EntryNotFound));
}

#[test]
fn nested_directories() {
    let (mut fs, root) = fresh();
    let d = root.create(&mut fs.trans, "d", DFileType::Dir, 0o755).unwrap();
    let f = d.create(&mut fs.trans, "f", DFileType::File, 0o600).unwrap();
    assert_eq!(root.find(&fs.trans, "d").unwrap().find(&fs.trans, "f").unwrap(), f);
    assert_eq!(d.get_entry(&fs.trans, 2).unwrap(), "f");
    assert_eq!(root.get_entry(&fs.trans, 3), Err(DfsError::EntryNotFound));
}

#[test]
fn file_growth() {
    let (mut fs, root) = fresh();
    let f = root.create(&mut fs.trans, "f", DFileType::File, 0o644).unwrap();
    let data = b"0123456789";
    assert_eq!(f.write_at(&mut fs.trans, 0, data), Ok(10));
    let mut buf = [0u8; 10];
    assert_eq!(f.read_at(&fs.trans, 0, &mut buf), Ok(10));
    assert_eq!(&buf, data);
    let stat = f.metadata(&fs.trans).unwrap();
    assert_eq!(stat.size, 10);
    assert_eq!(stat.blocks, 1);
    assert_eq!(stat.type_, DFileType::File);
    assert_eq!(stat.mode, 0o644);
}

#[test]
fn cross_block_write() {
    let (mut fs, root) = fresh();
    let f = root.create(&mut fs.trans, "f", DFileType::File, 0o644).unwrap();
    let data = b"wxyz";
    let start = BLOCK_SIZE - 2;
    let mut done = 0;
    while done < data.len() {
        done += f.write_at(&mut fs.trans, start + done, &data[done..]).unwrap();
    }
    let stat = f.metadata(&fs.trans).unwrap();
    assert_eq!(stat.blocks, 2);
    assert_eq!(stat.size, BLOCK_SIZE + 2);
    let mut buf = [0u8; 4];
    assert_eq!(f.read_at(&fs.trans, start, &mut buf), Ok(2));
    assert_eq!(&buf[..2], b"wx");
    assert_eq!(f.read_at(&fs.trans, BLOCK_SIZE, &mut buf), Ok(4));
    assert_eq!(&buf, b"yz\0\0");
}

#[test]
fn single_write_stops_at_block_end() {
    let (mut fs, root) = fresh();
    let f = root.create(&mut fs.trans, "f", DFileType::File, 0o644).unwrap();
    assert_eq!(f.write_at(&mut fs.trans, BLOCK_SIZE - 2, b"wxyz"), Ok(2));
    let stat = f.metadata(&fs.trans).unwrap();
    assert_eq!(stat.blocks, 1);
    assert_eq!(stat.size, BLOCK_SIZE);
}

#[test]
fn writing_far_allocates_zero_blocks() {
    let (mut fs, root) = fresh();
    let f = root.create(&mut fs.trans, "f", DFileType::File, 0o644).unwrap();
    assert_eq!(f.write_at(&mut fs.trans, 3 * BLOCK_SIZE + 5, b"q"), Ok(1));
    assert_eq!(f.metadata(&fs.trans).unwrap().blocks, 4);
    assert_eq!(f.metadata(&fs.trans).unwrap().size, 3 * BLOCK_SIZE + 6);
    let mut buf = [9u8; 8];
    assert_eq!(f.read_at(&fs.trans, BLOCK_SIZE, &mut buf), Ok(8));
    assert_eq!(buf, [0u8; 8]);
    assert_eq!(f.read_at(&fs.trans, 3 * BLOCK_SIZE + 4, &mut buf[..3]), Ok(3));
    assert_eq!(&buf[..3], &[0, b'q', 0]);
}

#[test]
fn overwrite_keeps_the_rest_and_size() {
    let (mut fs, root) = fresh();
    let f = root.create(&mut fs.trans, "f", DFileType::File, 0o644).unwrap();
    f.write_at(&mut fs.trans, 0, b"abcdef").unwrap();
    f.write_at(&mut fs.trans, 1, b"XY").unwrap();
    let mut buf = [0u8; 6];
    assert_eq!(f.read_at(&fs.trans, 0, &mut buf), Ok(6));
    assert_eq!(&buf, b"aXYdef");
    assert_eq!(f.metadata(&fs.trans).unwrap().size, 6);
}

#[test]
fn reading_short_of_the_block_end() {
    let (mut fs, root) = fresh();
    let f = root.create(&mut fs.trans, "f", DFileType::File, 0o644).unwrap();
    f.write_at(&mut fs.trans, 0, b"abc").unwrap();
    let mut big = vec![1u8; 1000];
    assert_eq!(f.read_at(&fs.trans, 500, &mut big), Ok(12));
    assert_eq!(&big[..12], &[0u8; 12]);
    assert_eq!(big[12], 1);
}

#[test]
fn reading_past_the_allocated_blocks_is_a_bad_parameter() {
    let (mut fs, root) = fresh();
    let f = root.create(&mut fs.trans, "f", DFileType::File, 0o644).unwrap();
    let mut buf = [0u8; 4];
    assert_eq!(f.read_at(&fs.trans, 0, &mut buf), Err(DfsError::InvalidParam));
    f.write_at(&mut fs.trans, 0, b"abc").unwrap();
    assert_eq!(f.read_at(&fs.trans, BLOCK_SIZE, &mut buf), Err(DfsError::InvalidParam));
}

#[test]
fn writing_beyond_the_largest_file_is_a_bad_parameter() {
    let (mut fs, root) = fresh();
    let f = root.create(&mut fs.trans, "f", DFileType::File, 0o644).unwrap();
    assert_eq!(f.write_at(&mut fs.trans, 254 * BLOCK_SIZE, b"a"), Err(DfsError::InvalidParam));
    assert_eq!(f.metadata(&fs.trans).unwrap().blocks, 0);
    assert_eq!(f.write_at(&mut fs.trans, 253 * BLOCK_SIZE, b"a"), Ok(1));
    assert_eq!(f.metadata(&fs.trans).unwrap().blocks, 254);
}

#[test]
fn duplicate_and_reserved_names_exist() {
    let (mut fs, root) = fresh();
    root.create(&mut fs.trans, "a", DFileType::File, 0o644).unwrap();
    assert_eq!(root.create(&mut fs.trans, "a", DFileType::Dir, 0o755), Err(DfsError::EntryExists));
    assert_eq!(root.create(&mut fs.trans, ".", DFileType::Dir, 0o755), Err(DfsError::EntryExists));
    assert_eq!(root.create(&mut fs.trans, "..", DFileType::Dir, 0o755), Err(DfsError::EntryExists));
    assert_eq!(root.get_entry(&fs.trans, 3), Err(DfsError::EntryNotFound));
}

#[test]
fn files_are_not_directories() {
    let (mut fs, root) = fresh();
    let f = root.create(&mut fs.trans, "f", DFileType::File, 0o644).unwrap();
    assert_eq!(f.find(&fs.trans, "x"), Err(DfsError::NotDir));
    assert_eq!(f.get_entry(&fs.trans, 0), Err(DfsError::NotDir));
    assert_eq!(f.create(&mut fs.trans, "x", DFileType::File, 0o644), Err(DfsError::NotDir));
}

#[test]
fn missing_and_corrupt_records() {
    let (mut fs, _root) = fresh();
    let ghost = DINode { nid: 0, bid: 12345 };
    assert_eq!(ghost.metadata(&fs.trans), Err(DfsError::Transport(TransportError::NotFound)));
    fs.trans.set(0, 12345, b"not a record").unwrap();
    assert_eq!(ghost.metadata(&fs.trans), Err(DfsError::InvalidParam));
}

#[test]
fn resize_sets_the_size() {
    let (mut fs, root) = fresh();
    let f = root.create(&mut fs.trans, "f", DFileType::File, 0o644).unwrap();
    f.resize(&mut fs.trans, 77).unwrap();
    assert_eq!(f.metadata(&fs.trans).unwrap().size, 77);
}

#[test]
fn mode_keeps_low_bits() {
    let (mut fs, root) = fresh();
    let f = root.create(&mut fs.trans, "f", DFileType::File, 0x1_01a4).unwrap();
    assert_eq!(f.metadata(&fs.trans).unwrap().mode, 0o644);
}

#[test]
fn directory_on_another_node() {
    let mut fs = DFS::new(MemTransport::new(1, 2));
    let root = fs.root_inode().unwrap();
    let d = root.create(&mut fs.trans, "d", DFileType::Dir, 0o755).unwrap();
    assert_eq!(d.nid, 0);
    let f = d.create(&mut fs.trans, "f", DFileType::File, 0o644).unwrap();
    assert_eq!(f.write_at(&mut fs.trans, 0, b"remote"), Ok(6));
    let mut buf = [0u8; 6];
    assert_eq!(f.read_at(&fs.trans, 0, &mut buf), Ok(6));
    assert_eq!(&buf, b"remote");
    let local = DINode::new(&mut fs.trans, 1, 77);
    assert_eq!(local, Ok(DINode { nid: 1, bid: 77 }));
}

#[test]
fn facade_is_trivial() {
    let (fs, root) = fresh();
    assert_eq!(fs.sync(), Ok(()));
    assert_eq!(root.sync_all(), Ok(()));
    assert_eq!(root.sync_data(), Ok(()));
    let stat = root.metadata(&fs.trans).unwrap();
    assert_eq!(root.set_metadata(&stat), Ok(()));
    assert_eq!(
        fs.info(),
        FsInfo { bsize: 0, frsize: 0, blocks: 0, bfree: 0, bavail: 0, files: 0, ffree: 0, namemax: 0 }
    );
}

#[test]
fn inode_numbers_carry_the_node() {
    assert_eq!(local_inode(3, 5), Some((3u64 << 32) + 5));
    assert_eq!(local_inode(0, 0xffff_ffff), Some(0xffff_ffff));
    assert_eq!(local_inode(1, 1u64 << 32), None);
}

#[test]
fn read_and_modify_records() {
    let (mut fs, root) = fresh();
    root.create(&mut fs.trans, "a", DFileType::File, 0o644).unwrap();
    assert_eq!(root.read(&fs.trans, |m| m.entries.len()), Ok(1));
    assert_eq!(root.read(&fs.trans, |m| m.type_), Ok(DFileType::Dir));
    let old = root.modify(&mut fs.trans, |m| {
        let before = m.mode;
        m.mode = 0o700;
        before
    });
    assert_eq!(old, Ok(0o777));
    assert_eq!(root.metadata(&fs.trans).unwrap().mode, 0o700);
    let ghost = DINode { nid: 0, bid: 999 };
    assert_eq!(
        ghost.read(&fs.trans, |m| m.size),
        Err(DfsError::Transport(TransportError::NotFound))
    );
}
