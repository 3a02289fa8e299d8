use lib::error::KernelError;
use lib::project5::ffs::disk_layout::{JournalSb, JournalTxBegin, JournalTxEnd};
use lib::project5::ffs::fs::FastFileSystemInner;
use lib::project5::ffs::journal::Disk;
use lib::project5::ffs::types::{FileType, InodeNumber, LogicalBlockAddress};

fn put(b: &mut [u8; 4096], off: usize, bytes: &[u8]) {
    b[off..off + bytes.len()].copy_from_slice(bytes);
}

fn superblock(inode_count: u64, block_count: u64, has_journal: u64, blocks_inused: u64) -> [u8; 4096] {
    let mut b = [0u8; 4096];
    put(&mut b, 0, b"KeOSFFS\0");
    put(&mut b, 8, &block_count.to_le_bytes());
    put(&mut b, 16, &blocks_inused.to_le_bytes());
    put(&mut b, 24, &inode_count.to_le_bytes());
    put(&mut b, 32, &1u64.to_le_bytes());
    put(&mut b, 40, &has_journal.to_le_bytes());
    b
}

/// A disk of 64 inodes and 1024 blocks with the root directory (inode 1)
/// in use, holding block 8 (no journal) or 4106 (with one).
fn image(has_journal: bool) -> Disk {
    let (arr, data, total) = if has_journal { (4102, 4106, 4110) } else { (4, 8, 16) };
    let mut blocks = vec![[0u8; 4096]; total];
    blocks[1] = superblock(64, 1024, has_journal as u64, 8);
    put(&mut blocks[2], 0, &1u64.to_le_bytes());
    put(&mut blocks[3], 0, &0xffu64.to_le_bytes());
    let root = &mut blocks[arr];
    put(root, 0, b"KeOSFFSI");
    put(root, 8, &1u32.to_le_bytes());
    put(root, 12, &1u32.to_le_bytes());
    put(root, 16, &4096u64.to_le_bytes());
    put(root, 24, &2u64.to_le_bytes());
    put(root, 32, &(data as u64).to_le_bytes());
    if has_journal {
        let mut sb = JournalSb::default();
        sb.magic = *b"KeOSJOUR";
        blocks[4] = sb.into_block();
    }
    Disk { blocks }
}

#[test]
fn mount_reads_the_metadata_regions() {
    let mut d = image(false);
    let mut fs = FastFileSystemInner::from_disk(&mut d, false, false).unwrap();
    assert_eq!((fs.inode_count, fs.block_count, fs.has_journal), (64, 1024, 0));
    assert_eq!(fs.sb.block_count_inused, 8);
    assert!(fs.journal.is_none());
    assert_eq!(fs.inode_bitmap.len(), 1);
    assert_eq!(fs.block_bitmap.len(), 1);
    assert_eq!(fs.inode_array.len(), 4);
    assert!(fs.inode_bitmap[0].is_allocated(0));
    assert!(!fs.inode_bitmap[0].is_allocated(1));
    assert!(fs.block_bitmap[0].is_allocated(7));
    assert!(!fs.block_bitmap[0].is_allocated(8));
    let root = fs.get_inode(InodeNumber::new(1).unwrap()).unwrap();
    assert_eq!(root.ftype, FileType::Directory);
    assert_eq!(root.size, 4096);
    assert_eq!(root.link_count, 2);
    assert_eq!(root.dblocks[0], LogicalBlockAddress::new(8));
    assert_eq!(fs.allocate_block().unwrap().into_u64(), 8);
}

#[test]
fn mount_refuses_a_bad_magic() {
    let mut d = image(false);
    d.blocks[1][7] = b'X';
    match FastFileSystemInner::from_disk(&mut d, false, false) {
        Err(e) => assert_eq!(e, KernelError::FilesystemCorrupted("Invalid Superblock Magic")),
        Ok(_) => panic!("a bad magic was mounted"),
    }
}

#[test]
fn mount_of_a_short_disk() {
    let mut d = Disk { blocks: vec![[0u8; 4096]; 1] };
    assert!(matches!(FastFileSystemInner::from_disk(&mut d, false, false), Err(KernelError::IOError)));
    // Without a journal the file system mounts however short the disk is;
    // the part of the inode array past the end reads as zeros.
    let mut d = image(false);
    d.blocks.truncate(7);
    let fs = FastFileSystemInner::from_disk(&mut d, false, false).unwrap();
    assert_eq!((fs.inode_count, fs.block_count), (64, 1024));
    assert!(fs.journal.is_none());
    assert_eq!(fs.inode_array.len(), 4);
    assert!(fs.inode_bitmap[0].is_allocated(0));
    // With a journal in use, the journal itself must be on the disk.
    let mut d = image(true);
    d.blocks.truncate(4000);
    assert!(matches!(FastFileSystemInner::from_disk(&mut d, false, false), Err(KernelError::IOError)));
}

/// Leaves in the journal a committed transaction that rewrites the
/// superblock with 9 blocks in use.
fn crash_with_committed_superblock(d: &mut Disk) {
    let mut tb = JournalTxBegin::new(4);
    tb.lbas[0] = LogicalBlockAddress::new(1);
    d.blocks[5] = tb.into_block();
    d.blocks[6] = superblock(64, 1024, 1, 9);
    d.blocks[7] = JournalTxEnd::new(4).into_block();
    let mut sb = JournalSb::from_block(&d.blocks[4]);
    sb.commited = 1;
    sb.tx_id = 5;
    d.blocks[4] = sb.into_block();
}

#[test]
fn mount_recovers_the_journal() {
    let mut d = image(true);
    crash_with_committed_superblock(&mut d);
    let fs = FastFileSystemInner::from_disk(&mut d, false, false).unwrap();
    assert_eq!(fs.sb.block_count_inused, 9);
    assert_eq!(d.blocks[1], superblock(64, 1024, 1, 9));
    assert_eq!(JournalSb::from_block(&d.blocks[4]).commited, 0);
    let jn = fs.journal.as_ref().unwrap();
    assert_eq!(jn.sb.commited, 0);
    assert_eq!(jn.sb.tx_id, 5);
    assert_eq!(fs.inode_array.len(), 4);
}

#[test]
fn mount_with_the_journal_disabled_leaves_it_alone() {
    let mut d = image(true);
    crash_with_committed_superblock(&mut d);
    let fs = FastFileSystemInner::from_disk(&mut d, false, true).unwrap();
    assert_eq!(fs.sb.block_count_inused, 8);
    assert!(fs.journal.is_none());
    assert_eq!(JournalSb::from_block(&d.blocks[4]).commited, 1);
}

#[test]
fn block_io_of_the_mounted_file_system() {
    let mut d = image(true);
    let mut fs = FastFileSystemInner::from_disk(&mut d, false, false).unwrap();
    let data = LogicalBlockAddress::new(4106).unwrap();
    let past = LogicalBlockAddress::new(5000).unwrap();
    let mut b = [0u8; 4096];
    b[0] = 0xab;
    assert_eq!(fs.write_data_block(&mut d, data, &b), Ok(()));
    assert_eq!(fs.read_data_block(&d, data).unwrap()[0], 0xab);
    assert_eq!(fs.write_data_block(&mut d, past, &b), Err(KernelError::IOError));
    assert_eq!(fs.read_data_block(&d, past), Err(KernelError::IOError));
    let sb_block = fs.read_meta(&d, LogicalBlockAddress::new(1).unwrap()).unwrap();
    assert_eq!(&sb_block[..8], b"KeOSFFS\0");
    // Transactions take consecutive ids from the journal.
    let first = fs.journal.as_ref().unwrap().sb.tx_id;
    let t1 = fs.open_transaction();
    let t2 = fs.open_transaction();
    assert_eq!((t1.tx_id, t2.tx_id), (first, first + 1));
}

#[test]
fn journal_blocks_through_the_disk() {
    let mut d = image(true);
    let j = LogicalBlockAddress::new(4).unwrap();
    let mut sb = JournalSb::from_block(&d.blocks[4]);
    sb.tx_id = 9;
    assert_eq!(sb.writeback(&mut d, j), Ok(()));
    assert_eq!(JournalSb::from_block(&d.blocks[4]).tx_id, 9);
    assert_eq!(sb.writeback(&mut d, LogicalBlockAddress::new(9999).unwrap()), Err(KernelError::IOError));
    let mut tb = JournalTxBegin::from_block(&[0u8; 4096]);
    tb.tx_id = 3;
    tb.lbas[0] = LogicalBlockAddress::new(4106);
    d.blocks[5] = tb.into_block();
    let back = JournalTxBegin::from_io(&d, LogicalBlockAddress::new(5).unwrap()).unwrap();
    assert_eq!(back.tx_id, 3);
    assert_eq!(back.lbas[0].map(|l| l.into_u64()), Some(4106));
    assert!(back.lbas[1].is_none());
    let mut te = JournalTxEnd::from_block(&[0u8; 4096]);
    te.tx_id = 3;
    d.blocks[6] = te.into_block();
    assert_eq!(JournalTxEnd::from_io(&d, LogicalBlockAddress::new(6).unwrap()).unwrap().tx_id, 3);
    assert!(JournalTxEnd::from_io(&d, LogicalBlockAddress::new(9999).unwrap()).is_err());
}
