use lib::error::KernelError;
use lib::project5::ffs::disk_layout::{BlockBitmap, InodeArray, InodeBitmap, SuperBlock};
use lib::project5::ffs::fs::FastFileSystemInner;
use lib::project5::ffs::fs_objects::RegularFile;
use lib::project5::ffs::inode::Inode;
use lib::project5::ffs::journal::Disk;
use lib::project5::ffs::types::{FileBlockNumber, InodeNumber, LogicalBlockAddress};

fn lba(n: u64) -> Option<LogicalBlockAddress> {
    LogicalBlockAddress::new(n)
}

fn disk(blocks: usize) -> Disk {
    Disk { blocks: vec![[0u8; 4096]; blocks] }
}

/// Writes the address `to` at entry `k` of block `n`.
fn set_entry(d: &mut Disk, n: usize, k: usize, to: u64) {
    d.blocks[n][8 * k..8 * k + 8].copy_from_slice(&to.to_le_bytes());
}

fn file(size: usize) -> Inode {
    let mut i = Inode::new(InodeNumber::new(2).unwrap(), false);
    i.size = size;
    i
}

fn get(i: &Inode, d: &Disk, fba: usize) -> Result<Option<LogicalBlockAddress>, KernelError> {
    i.get(d, FileBlockNumber(fba))
}

#[test]
fn get_direct_blocks() {
    let d = disk(8);
    let mut i = file(3 * 4096);
    i.dblocks[0] = lba(100);
    i.dblocks[2] = lba(102);
    assert_eq!(get(&i, &d, 0), Ok(lba(100)));
    assert_eq!(get(&i, &d, 1), Ok(None));
    assert_eq!(get(&i, &d, 2), Ok(lba(102)));
    assert_eq!(get(&i, &d, 3), Ok(None));
}

#[test]
fn get_past_the_end_of_the_file_is_none() {
    let d = disk(8);
    let mut i = file(4097);
    i.dblocks[0] = lba(10);
    i.dblocks[1] = lba(11);
    i.dblocks[2] = lba(12);
    assert_eq!(get(&i, &d, 1), Ok(lba(11)));
    assert_eq!(get(&i, &d, 2), Ok(None));
    assert_eq!(get(&i, &d, usize::MAX), Ok(None));
}

#[test]
fn get_through_the_indirect_block() {
    let mut d = disk(8);
    set_entry(&mut d, 5, 0, 200);
    set_entry(&mut d, 5, 511, 711);
    let mut i = file(600 * 4096);
    i.iblock = lba(5);
    assert_eq!(get(&i, &d, 12), Ok(lba(200)));
    assert_eq!(get(&i, &d, 13), Ok(None));
    assert_eq!(get(&i, &d, 12 + 511), Ok(lba(711)));
    i.iblock = lba(50);
    assert_eq!(get(&i, &d, 12), Err(KernelError::IOError));
    i.iblock = None;
    assert_eq!(get(&i, &d, 12), Ok(None));
}

#[test]
fn get_through_the_doubly_indirect_block() {
    let mut d = disk(8);
    set_entry(&mut d, 6, 0, 7);
    set_entry(&mut d, 6, 1, 4);
    set_entry(&mut d, 7, 3, 333);
    set_entry(&mut d, 4, 0, 444);
    let mut i = file(2000 * 4096);
    i.diblock = lba(6);
    assert_eq!(get(&i, &d, 524 + 3), Ok(lba(333)));
    assert_eq!(get(&i, &d, 524 + 512), Ok(lba(444)));
    assert_eq!(get(&i, &d, 524 + 4), Ok(None));
    set_entry(&mut d, 6, 0, 99);
    assert_eq!(get(&i, &d, 524), Err(KernelError::IOError));
}

#[test]
fn get_beyond_what_the_inode_maps_is_an_error() {
    let d = disk(2);
    let i = file(usize::MAX);
    assert_eq!(get(&i, &d, 12 + 512 + 512 * 512), Err(KernelError::InvalidArgument));
}

/// A file system of 64 inodes and 1024 blocks, without a journal; its data
/// region starts at block 8.
fn mount() -> FastFileSystemInner {
    let mut sb = SuperBlock::default();
    sb.magic = *b"KeOSFFS\0";
    sb.inode_count = 64;
    sb.block_count = 1024;
    let mut ib = InodeBitmap::default();
    assert!(ib.try_allocate(0));
    let mut bb = BlockBitmap::default();
    for i in 0..8 {
        assert!(bb.try_allocate(i));
    }
    match FastFileSystemInner::from_metadata(sb, vec![ib], vec![bb], vec![InodeArray::default(); 4], false) {
        Ok(fs) => fs,
        Err(e) => panic!("mount failed: {:?}", e),
    }
}

#[test]
fn bitmap_place_of_data_blocks() {
    let fs = mount();
    let (b, off) = LogicalBlockAddress::new(8).unwrap().into_bitmap_lba_offset(&fs).unwrap();
    assert_eq!((b.into_u64(), off), (3, 8));
    let (b, off) = LogicalBlockAddress::new(1031).unwrap().into_bitmap_lba_offset(&fs).unwrap();
    assert_eq!((b.into_u64(), off), (3, 1031));
    assert!(LogicalBlockAddress::new(7).unwrap().into_bitmap_lba_offset(&fs).is_none());
    assert!(LogicalBlockAddress::new(1032).unwrap().into_bitmap_lba_offset(&fs).is_none());
}

#[test]
fn zeroify_frees_the_data_blocks() {
    let mut fs = mount();
    let d = disk(64);
    let a = fs.allocate_block().unwrap();
    let b = fs.allocate_block().unwrap();
    assert_eq!(fs.sb.block_count_inused, 2);
    let mut i = file(5000);
    i.dblocks[0] = Some(a);
    i.dblocks[1] = Some(b);
    i.zeroify(&d, &mut fs);
    assert_eq!(i.size, 0);
    assert_eq!(i.dblocks[0], Some(a));
    assert_eq!(fs.sb.block_count_inused, 0);
    assert!(!fs.block_bitmap[0].is_allocated(8));
    assert!(!fs.block_bitmap[0].is_allocated(9));
    assert!(fs.block_bitmap[0].is_allocated(7));
}

#[test]
fn release_deletes_an_unlinked_inode() {
    let mut fs = mount();
    let d = disk(64);
    let (ino, _) = fs.allocate_inode(false).unwrap();
    let blk = fs.allocate_block().unwrap();
    let mut inode = fs.inodes[ino.into_u32() as usize].unwrap();
    inode.size = 10;
    inode.dblocks[0] = Some(blk);
    fs.write_inode(inode);
    assert_eq!(fs.sb.inode_count_inused, 1);
    fs.release_inode(&d, ino, true);
    assert!(fs.inodes[ino.into_u32() as usize].is_none());
    assert_eq!(fs.sb.inode_count_inused, 0);
    assert_eq!(fs.sb.block_count_inused, 0);
    assert!(!fs.inode_bitmap[0].is_allocated(1));
    assert!(fs.inode_bitmap[0].is_allocated(0));
    assert!(!fs.block_bitmap[0].is_allocated(blk.into_u64() as usize));
    assert!(fs.inode_array[0].inodes[1].ino.is_none());
    assert_eq!(fs.inode_array[0].inodes[1].size, 10);
    // The freed inode is the next one allocated again.
    let (again, _) = fs.allocate_inode(true).unwrap();
    assert_eq!(again, ino);
}

#[test]
fn release_keeps_a_linked_or_shared_inode() {
    let mut fs = mount();
    let d = disk(8);
    let (ino, _) = fs.allocate_inode(false).unwrap();
    fs.release_inode(&d, ino, false);
    assert!(fs.inodes[ino.into_u32() as usize].is_some());
    let mut inode = fs.inodes[ino.into_u32() as usize].unwrap();
    inode.link_count = 1;
    fs.write_inode(inode);
    fs.release_inode(&d, ino, true);
    assert!(fs.inodes[ino.into_u32() as usize].is_none());
    assert!(fs.inode_bitmap[0].is_allocated(1));
    assert_eq!(fs.sb.inode_count_inused, 1);
    assert!(fs.inode_array[0].inodes[1].ino.is_some());
}

#[test]
fn regular_file_reads_its_blocks() {
    let mut fs = mount();
    let mut d = disk(64);
    d.blocks[20] = [7u8; 4096];
    let (ino, _) = fs.allocate_inode(false).unwrap();
    let mut inode = fs.inodes[ino.into_u32() as usize].unwrap();
    inode.size = 2 * 4096;
    inode.dblocks[0] = lba(20);
    fs.write_inode(inode);
    let f = RegularFile::new(&inode).unwrap();
    assert_eq!(f.ino(), ino);
    assert_eq!(f.size(&fs), 8192);
    let mut buf = [1u8; 4096];
    assert_eq!(f.read(&fs, &d, FileBlockNumber(0), &mut buf), Ok(true));
    assert!(buf.iter().all(|b| *b == 7));
    let mut buf = [1u8; 4096];
    assert_eq!(f.read(&fs, &d, FileBlockNumber(1), &mut buf), Ok(false));
    assert!(buf.iter().all(|b| *b == 1));
    assert_eq!(f.read(&fs, &d, FileBlockNumber(2), &mut buf), Ok(false));
    let dir = Inode::new(InodeNumber::new(3).unwrap(), true);
    assert!(RegularFile::new(&dir).is_none());
}
