use lib::error::KernelError;
use lib::project5::ffs::disk_layout::{BlockBitmap, InodeArray, InodeBitmap, JournalSb, SuperBlock};
use lib::project5::ffs::fs::FastFileSystemInner;
use lib::project5::ffs::fs_objects::RegularFile;
use lib::project5::ffs::inode::Inode;
use lib::project5::ffs::journal::{Disk, Journal};
use lib::project5::ffs::types::FileBlockNumber;
use lib::project5::page_cache::{readahead_ffs, PageCacheState, Slot};

/// A file system of 64 inodes and 1024 blocks whose metadata blocks (the
/// first 8, or with a journal the first 4106) are marked in use, on a disk
/// of `disk_blocks` zeroed blocks, with one empty regular file.
fn setup(has_journal: u64, disk_blocks: usize) -> (FastFileSystemInner, Disk, RegularFile) {
    let mut sb = SuperBlock::default();
    sb.magic = *b"KeOSFFS\0";
    sb.inode_count = 64;
    sb.block_count = 8192;
    sb.has_journal = has_journal;
    let mut bb = BlockBitmap::default();
    let used = if has_journal != 0 { 4 + 4098 + 4 } else { 8 };
    for i in 0..used {
        assert!(bb.try_allocate(i));
    }
    let mut fs = FastFileSystemInner::from_metadata(
        sb,
        vec![InodeBitmap::default()],
        vec![bb],
        vec![InodeArray::default(); 4],
        false,
    )
    .unwrap();
    if has_journal != 0 {
        let mut jsb = JournalSb::default();
        jsb.magic = *b"KeOSJOUR";
        fs.journal = Some(Journal { sb: jsb });
    }
    let (_, inode) = fs.allocate_inode(false).unwrap();
    let file = RegularFile::new(&inode).unwrap();
    let disk = Disk { blocks: vec![[0u8; 4096]; disk_blocks] };
    (fs, disk, file)
}

fn inode_of(fs: &FastFileSystemInner, file: &RegularFile) -> Inode {
    fs.inodes[file.ino().into_u32() as usize].unwrap()
}

#[test]
fn write_then_read_back() {
    let (mut fs, mut disk, file) = setup(0, 64);
    let buf = [0xabu8; 4096];
    assert_eq!(file.write(&mut fs, &mut disk, FileBlockNumber(0), &buf, 100), Ok(()));
    assert_eq!(file.size(&fs), 100);
    let mut out = [0u8; 4096];
    assert_eq!(file.read(&fs, &disk, FileBlockNumber(0), &mut out), Ok(true));
    assert_eq!(out, buf);
    // The first free block, 8, holds the data.
    assert_eq!(inode_of(&fs, &file).dblocks[0].unwrap().into_u64(), 8);
    assert_eq!(disk.blocks[8], buf);
    // The metadata is written in place: the superblock counts the block,
    // the block bitmap marks it and the inode array holds the new size.
    assert_eq!(SuperBlock::from_block(&disk.blocks[1]).block_count_inused, 1);
    assert!(BlockBitmap::from_block(&disk.blocks[3]).is_allocated(8));
    let arr = InodeArray::from_block(&disk.blocks[4]);
    assert_eq!(arr.inodes[0].size, 100);
}

#[test]
fn write_grows_the_size_only_when_asked() {
    let (mut fs, mut disk, file) = setup(0, 64);
    let buf = [1u8; 4096];
    assert_eq!(file.write(&mut fs, &mut disk, FileBlockNumber(0), &buf, 4096), Ok(()));
    assert_eq!(file.write(&mut fs, &mut disk, FileBlockNumber(0), &[2u8; 4096], 10), Ok(()));
    assert_eq!(file.size(&fs), 4096);
    let mut out = [0u8; 4096];
    assert_eq!(file.read(&fs, &disk, FileBlockNumber(0), &mut out), Ok(true));
    assert_eq!(out, [2u8; 4096]);
}

#[test]
fn write_past_the_end_is_refused() {
    let (mut fs, mut disk, file) = setup(0, 64);
    let before = disk.blocks.clone();
    assert_eq!(
        file.write(&mut fs, &mut disk, FileBlockNumber(2), &[7u8; 4096], 4096),
        Err(KernelError::InvalidArgument)
    );
    assert_eq!(file.size(&fs), 0);
    assert!(disk.blocks == before);
}

#[test]
fn write_past_the_disk_is_an_io_error() {
    let (mut fs, mut disk, file) = setup(0, 8);
    assert_eq!(
        file.write(&mut fs, &mut disk, FileBlockNumber(0), &[7u8; 4096], 4096),
        Err(KernelError::IOError)
    );
}

#[test]
fn write_commits_through_the_journal() {
    let (mut fs, mut disk, file) = setup(1, 4200);
    let buf = [0x5au8; 4096];
    assert_eq!(file.write(&mut fs, &mut disk, FileBlockNumber(0), &buf, 4096), Ok(()));
    let data = 4 + 4098 + 4;
    assert_eq!(inode_of(&fs, &file).dblocks[0].unwrap().into_u64(), data as u64);
    assert_eq!(disk.blocks[data], buf);
    // The transaction took id 0, and the journal is checkpointed.
    let jn = fs.journal.as_ref().unwrap();
    assert_eq!(jn.sb.tx_id, 1);
    assert_eq!(jn.sb.commited, 0);
    assert_eq!(SuperBlock::from_block(&disk.blocks[1]).block_count_inused, 1);
    let arr = InodeArray::from_block(&disk.blocks[4 + 4098]);
    assert_eq!(arr.inodes[0].size, 4096);
}

fn filled(fs: &mut FastFileSystemInner, disk: &mut Disk, file: &RegularFile, blocks: usize) {
    for b in 0..blocks {
        let buf = [b as u8 + 1; 4096];
        assert_eq!(file.write(fs, disk, FileBlockNumber(b), &buf, 4096 * (b + 1)), Ok(()));
    }
}

#[test]
fn do_read_caches_the_block() {
    let (mut fs, mut disk, file) = setup(0, 64);
    filled(&mut fs, &mut disk, &file, 2);
    let mut cache = PageCacheState::new();
    let mut buf = [0u8; 4096];
    assert_eq!(cache.do_read(&mut fs, &mut disk, &file, FileBlockNumber(1), &mut buf), Ok(true));
    assert_eq!(buf, [2u8; 4096]);
    assert!(cache.cached(&file, FileBlockNumber(1)));
    assert!(!cache.cached(&file, FileBlockNumber(0)));
    // A hole is not cached.
    assert_eq!(cache.do_read(&mut fs, &mut disk, &file, FileBlockNumber(5), &mut buf), Ok(false));
    assert!(!cache.cached(&file, FileBlockNumber(5)));
}

#[test]
fn do_write_defers_until_writeback() {
    let (mut fs, mut disk, file) = setup(0, 64);
    filled(&mut fs, &mut disk, &file, 1);
    let lba = inode_of(&fs, &file).dblocks[0].unwrap().into_u64() as usize;
    let mut cache = PageCacheState::new();
    let mut buf = [0u8; 4096];
    buf[..18].copy_from_slice(b"Is this reflected?");
    assert_eq!(cache.do_write(&mut fs, &mut disk, &file, FileBlockNumber(0), &buf, 4096), Ok(()));
    assert_ne!(&disk.blocks[lba][..18], b"Is this reflected?");
    let mut out = [0u8; 4096];
    assert_eq!(cache.do_read(&mut fs, &mut disk, &file, FileBlockNumber(0), &mut out), Ok(true));
    assert_eq!(out, buf);
    assert_eq!(cache.do_writeback(&mut fs, &mut disk, &file), Ok(()));
    assert_eq!(&disk.blocks[lba][..18], b"Is this reflected?");
    assert_eq!(cache.slots.get((file.ino().into_u32(), 0)).unwrap().writeback_size, None);
}

#[test]
fn do_unlink_drops_without_writeback() {
    let (mut fs, mut disk, file) = setup(0, 64);
    filled(&mut fs, &mut disk, &file, 1);
    let lba = inode_of(&fs, &file).dblocks[0].unwrap().into_u64() as usize;
    let mut cache = PageCacheState::new();
    assert_eq!(cache.do_write(&mut fs, &mut disk, &file, FileBlockNumber(0), &[9u8; 4096], 4096), Ok(()));
    cache.do_unlink(&file);
    assert!(!cache.cached(&file, FileBlockNumber(0)));
    assert_eq!(disk.blocks[lba], [1u8; 4096]);
}

#[test]
fn readahead_loads_the_following_blocks() {
    let (mut fs, mut disk, file) = setup(0, 64);
    filled(&mut fs, &mut disk, &file, 4);
    let mut cache = PageCacheState::new();
    cache.readahead(&fs, &disk, &file, FileBlockNumber(0));
    assert!(!cache.cached(&file, FileBlockNumber(0)));
    for b in 1..4 {
        assert!(cache.cached(&file, FileBlockNumber(b)));
        let mut out = [0u8; 4096];
        assert_eq!(cache.do_read(&mut fs, &mut disk, &file, FileBlockNumber(b), &mut out), Ok(true));
        assert_eq!(out, [b as u8 + 1; 4096]);
    }
    assert!(!cache.cached(&file, FileBlockNumber(4)));
}

#[test]
fn readahead_ffs_caches_block_one() {
    // Writing block 2 grows the file over blocks 0 and 1 too.
    let (mut fs, mut disk, file) = setup(0, 64);
    assert_eq!(file.write(&mut fs, &mut disk, FileBlockNumber(2), &[0u8; 4096], 3 * 4096), Ok(()));
    let mut cache = PageCacheState::new();
    assert!(readahead_ffs(&mut fs, &mut disk, &file, &mut cache));
    assert!(cache.cached(&file, FileBlockNumber(1)));
    let lba = inode_of(&fs, &file).dblocks[1].unwrap().into_u64() as usize;
    assert_eq!(cache.slots.get((file.ino().into_u32(), 1)).unwrap().page, disk.blocks[lba]);
}

#[test]
fn write_grows_over_the_holes_before_it() {
    let (mut fs, mut disk, file) = setup(0, 64);
    assert_eq!(file.write(&mut fs, &mut disk, FileBlockNumber(2), &[3u8; 4096], 3 * 4096), Ok(()));
    let i = inode_of(&fs, &file);
    assert_eq!(i.dblocks[0].unwrap().into_u64(), 8);
    assert_eq!(i.dblocks[1].unwrap().into_u64(), 9);
    assert_eq!(i.dblocks[2].unwrap().into_u64(), 10);
    assert_eq!(SuperBlock::from_block(&disk.blocks[1]).block_count_inused, 3);
    let mut out = [1u8; 4096];
    assert_eq!(file.read(&fs, &disk, FileBlockNumber(2), &mut out), Ok(true));
    assert_eq!(out, [3u8; 4096]);
    assert_eq!(file.read(&fs, &disk, FileBlockNumber(1), &mut out), Ok(true));
    assert_eq!(out, [0u8; 4096]);
}

#[test]
fn eviction_writes_the_dirty_slot_back() {
    let (mut fs, mut disk, file) = setup(0, 64);
    filled(&mut fs, &mut disk, &file, 1);
    let lba = inode_of(&fs, &file).dblocks[0].unwrap().into_u64() as usize;
    let mut cache = PageCacheState::new();
    assert_eq!(cache.do_write(&mut fs, &mut disk, &file, FileBlockNumber(0), &[9u8; 4096], 4096), Ok(()));
    // Fill the other 511 slots; the next one evicts block 0, the least
    // recently used.
    let n = file.ino().into_u32();
    for b in 1..512 {
        cache.insert(&mut fs, &mut disk, (n, b), Slot::new(file, FileBlockNumber(b), [0u8; 4096]));
    }
    assert_eq!(disk.blocks[lba], [1u8; 4096]);
    assert!(cache.cached(&file, FileBlockNumber(0)));
    cache.insert(&mut fs, &mut disk, (n, 512), Slot::new(file, FileBlockNumber(512), [0u8; 4096]));
    assert!(!cache.cached(&file, FileBlockNumber(0)));
    assert_eq!(disk.blocks[lba], [9u8; 4096]);
}

#[test]
fn slot_pages() {
    let (_fs, _disk, file) = setup(0, 64);
    let mut s = Slot::new(file, FileBlockNumber(3), [4u8; 4096]);
    let mut out = [0u8; 4096];
    s.read_page(&mut out);
    assert_eq!(out, [4u8; 4096]);
    s.write_page(&[5u8; 4096], 10);
    assert_eq!(s.writeback_size, Some(10));
    s.write_page(&[6u8; 4096], 5);
    assert_eq!(s.writeback_size, Some(10));
    assert_eq!(s.page, [6u8; 4096]);
}

#[test]
fn metadata_blocks_encode_and_decode() {
    let (mut fs, mut disk, file) = setup(0, 64);
    filled(&mut fs, &mut disk, &file, 1);
    let sb = SuperBlock::from_block(&fs.sb.into_block());
    assert_eq!(sb.block_count_inused, fs.sb.block_count_inused);
    assert_eq!(sb.magic, *b"KeOSFFS\0");
    let bb = BlockBitmap::from_block(&fs.block_bitmap[0].into_block());
    assert!(bb.is_allocated(8));
    assert!(!bb.is_allocated(9));
    let ib = InodeBitmap::from_block(&fs.inode_bitmap[0].into_block());
    assert!(ib.is_allocated(0));
    assert!(!ib.is_allocated(1));
    let arr = InodeArray::from_block(&fs.inode_array[0].into_block());
    assert_eq!(arr.inodes[0].size, 4096);
    assert_eq!(arr.inodes[0].dblocks[0].unwrap().into_u64(), 8);
}

#[test]
fn commit_meta_without_journal_writes_in_place() {
    let (mut fs, mut disk, _file) = setup(0, 64);
    let b = fs.superblock_block();
    assert_eq!(b.0.into_u64(), 1);
    assert_eq!(fs.commit_meta(&mut disk, vec![b]), Ok(()));
    assert_eq!(disk.blocks[1], fs.sb.into_block());
    // A destination past the end of the disk writes nothing.
    let far = fs.inode_array_block(lib::project5::ffs::types::InodeNumber::new(1).unwrap());
    let mut small = Disk { blocks: vec![[0u8; 4096]; 2] };
    assert_eq!(fs.commit_meta(&mut small, vec![far]), Err(KernelError::IOError));
    assert!(small.blocks.iter().all(|b| *b == [0u8; 4096]));
}
