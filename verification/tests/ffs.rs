use lib::error::KernelError;
use lib::project5::advanced_file_structs::Stat;
use lib::project5::ffs::disk_layout::{BlockBitmap, InodeArray, InodeBitmap, SuperBlock};
use lib::project5::ffs::fs::FastFileSystemInner;
use lib::project5::ffs::inode::Inode;
use lib::project5::ffs::types::{FileType, InodeNumber, LogicalBlockAddress};

fn superblock(inode_count: u64, block_count: u64, has_journal: u64) -> SuperBlock {
    let mut sb = SuperBlock::default();
    sb.magic = *b"KeOSFFS\0";
    sb.inode_count = inode_count;
    sb.block_count = block_count;
    sb.has_journal = has_journal;
    sb
}

/// A file system of 64 inodes and 1024 blocks whose first `used_blocks`
/// blocks and first `used_inodes` inodes are taken.
fn mount(has_journal: u64, used_blocks: usize, used_inodes: usize) -> FastFileSystemInner {
    let sb = superblock(64, 1024, has_journal);
    let mut ib = InodeBitmap::default();
    for i in 0..used_inodes {
        assert!(ib.try_allocate(i));
    }
    let mut bb = BlockBitmap::default();
    for i in 0..used_blocks {
        assert!(bb.try_allocate(i));
    }
    let arrays = vec![InodeArray::default(); 4];
    match FastFileSystemInner::from_metadata(sb, vec![ib], vec![bb], arrays, false) {
        Ok(fs) => fs,
        Err(e) => panic!("mount failed: {:?}", e),
    }
}

#[test]
fn from_metadata_checks_the_magic() {
    let mut sb = superblock(64, 1024, 0);
    sb.magic = *b"KeOSFFSX";
    let r = FastFileSystemInner::from_metadata(
        sb,
        vec![InodeBitmap::default()],
        vec![BlockBitmap::default()],
        vec![InodeArray::default(); 4],
        false,
    );
    match r {
        Err(e) => assert_eq!(e, KernelError::FilesystemCorrupted("Invalid Superblock Magic")),
        Ok(_) => panic!("a bad magic was accepted"),
    }
}

#[test]
fn layout_without_journal() {
    let fs = mount(0, 1, 0);
    assert_eq!(fs.inode_bitmap().start.into_u64(), 2);
    assert_eq!(fs.inode_bitmap().end.into_u64(), 3);
    assert_eq!(fs.block_bitmap().start.into_u64(), 3);
    assert_eq!(fs.block_bitmap().end.into_u64(), 4);
    assert_eq!(fs.journal().start.into_u64(), 4);
    assert_eq!(fs.journal().end.into_u64(), 4);
    assert_eq!(fs.inode().start.into_u64(), 4);
    assert_eq!(fs.inode().end.into_u64(), 8);
    assert_eq!(fs.data_block_start().into_u64(), 8);
}

#[test]
fn layout_with_journal() {
    let fs = mount(1, 1, 0);
    assert_eq!(fs.journal().start.into_u64(), 4);
    assert_eq!(fs.journal().end.into_u64(), 4 + 4098);
    assert_eq!(fs.inode().start.into_u64(), 4 + 4098);
    assert_eq!(fs.data_block_start().into_u64(), 4 + 4098 + 4);
}

#[test]
fn inode_locations() {
    let fs = mount(0, 1, 0);
    let ino = InodeNumber::new(1).unwrap();
    let (lba, off) = fs.get_inode_bitmap_lba_index(ino).unwrap();
    assert_eq!((lba.into_u64(), off), (2, 0));
    let (lba, idx) = fs.get_inode_array_lba_index(ino).unwrap();
    assert_eq!((lba.into_u64(), idx), (4, 0));
    let ino = InodeNumber::new(17).unwrap();
    let (lba, idx) = fs.get_inode_array_lba_index(ino).unwrap();
    assert_eq!((lba.into_u64(), idx), (5, 0));
    let ino = InodeNumber::new(40).unwrap();
    let (lba, off) = fs.get_inode_bitmap_lba_index(ino).unwrap();
    assert_eq!((lba.into_u64(), off), (2, 39));
    let (lba, idx) = fs.get_inode_array_lba_index(ino).unwrap();
    assert_eq!((lba.into_u64(), idx), (6, 7));
    let ino = InodeNumber::new(64).unwrap();
    assert!(fs.get_inode_bitmap_lba_index(ino).is_none());
    assert!(fs.get_inode_array_lba_index(ino).is_none());
}

#[test]
fn inode_number_zero_does_not_exist() {
    assert!(InodeNumber::new(0).is_none());
    assert_eq!(InodeNumber::new(5).unwrap().into_u32(), 5);
    assert!(LogicalBlockAddress::new(0).is_none());
    assert_eq!(LogicalBlockAddress::new(9).unwrap().into_u64(), 9);
}

#[test]
fn allocate_block_takes_the_first_free_bit() {
    let mut fs = mount(0, 10, 0);
    let a = fs.allocate_block().unwrap();
    assert_eq!(a.into_u64(), 10);
    let b = fs.allocate_block().unwrap();
    assert_eq!(b.into_u64(), 11);
    assert_eq!(fs.sb.block_count_inused, 2);
    assert!(fs.block_bitmap[0].is_allocated(11));
    assert!(!fs.block_bitmap[0].is_allocated(12));
}

#[test]
fn allocate_block_reports_no_space() {
    let mut fs = mount(0, 32768, 0);
    match fs.allocate_block() {
        Err(e) => assert_eq!(e, KernelError::NoSpace),
        Ok(_) => panic!("a full bitmap gave a block"),
    }
}

#[test]
fn allocate_inode_makes_a_fresh_inode() {
    let mut fs = mount(0, 1, 1);
    let (ino, inode) = fs.allocate_inode(true).unwrap();
    assert_eq!(ino.into_u32(), 2);
    assert_eq!(inode.ino, ino);
    assert_eq!(inode.ftype, FileType::Directory);
    assert_eq!(inode.size, 0);
    assert_eq!(inode.link_count, 0);
    assert_eq!(fs.sb.inode_count_inused, 1);
    let (ino2, inode2) = fs.allocate_inode(false).unwrap();
    assert_eq!(ino2.into_u32(), 3);
    assert_eq!(inode2.ftype, FileType::RegularFile);
    let d = fs.inode_array[0].inodes[2];
    let back = Inode::from_disk_layout(&d).unwrap();
    assert_eq!(back.ino, ino2);
    assert_eq!(back.ftype, FileType::RegularFile);
}

#[test]
fn get_inode_reads_from_the_array_then_the_table() {
    let mut fs = mount(0, 1, 1);
    let (ino, _) = fs.allocate_inode(false).unwrap();
    assert!(fs.remove_inode(ino, true).is_some());
    assert!(fs.inodes[ino.into_u32() as usize].is_none());
    let i = fs.get_inode(ino).unwrap();
    assert_eq!(i.ino, ino);
    assert!(fs.inodes[ino.into_u32() as usize].is_some());
    assert_eq!(fs.get_inode(ino).unwrap().ino, ino);
}

#[test]
fn get_inode_of_a_free_inode_is_no_such_entry() {
    let mut fs = mount(0, 1, 1);
    let ino = InodeNumber::new(5).unwrap();
    match fs.get_inode(ino) {
        Err(e) => assert_eq!(e, KernelError::NoSuchEntry),
        Ok(_) => panic!("a free inode was found"),
    }
}

#[test]
fn get_inode_of_a_blank_array_entry_is_an_error() {
    let mut fs = mount(0, 1, 3);
    let ino = InodeNumber::new(2).unwrap();
    assert!(fs.get_inode(ino).is_err());
}

#[test]
fn remove_inode_only_when_unshared() {
    let mut fs = mount(0, 1, 1);
    let (ino, _) = fs.allocate_inode(false).unwrap();
    assert!(fs.remove_inode(ino, false).is_none());
    assert!(fs.inodes[ino.into_u32() as usize].is_some());
    assert!(fs.remove_inode(ino, true).is_some());
    assert!(fs.remove_inode(ino, true).is_none());
}

#[test]
fn inode_disk_format_roundtrip() {
    let mut i = Inode::new(InodeNumber::new(9).unwrap(), false);
    i.size = 12345;
    i.link_count = 2;
    i.dblocks[3] = LogicalBlockAddress::new(77);
    i.iblock = LogicalBlockAddress::new(78);
    let d = i.into_disk_format();
    assert_eq!(&d.magic, b"KeOSFFSI");
    assert_eq!(d.size, 12345);
    let back = Inode::from_disk_layout(&d).unwrap();
    assert_eq!(back.ino, i.ino);
    assert_eq!(back.size, 12345);
    assert_eq!(back.link_count, 2);
    assert_eq!(back.dblocks[3], LogicalBlockAddress::new(77));
    assert_eq!(back.iblock, LogicalBlockAddress::new(78));
    assert_eq!(back.diblock, None);
}

#[test]
fn inode_from_bad_disk_format() {
    let mut d = Inode::new(InodeNumber::new(9).unwrap(), true).into_disk_format();
    d.magic = *b"KeOSFFSX";
    assert!(Inode::from_disk_layout(&d).is_err());
    let mut d = Inode::new(InodeNumber::new(9).unwrap(), true).into_disk_format();
    d.ftype = 7;
    assert!(Inode::from_disk_layout(&d).is_err());
}

#[test]
fn file_type_codes() {
    assert_eq!(FileType::try_from(0).unwrap(), FileType::RegularFile);
    assert_eq!(FileType::try_from(1).unwrap(), FileType::Directory);
    assert!(FileType::try_from(2).is_err());
    assert_eq!(FileType::Directory.into_u32(), 1);
}

#[test]
fn stat_of_an_inode() {
    let mut i = Inode::new(InodeNumber::new(4).unwrap(), false);
    i.size = 100;
    let s = Stat::new(&i);
    assert_eq!((s.inode, s.ty, s.size, s.__must_be_zero), (4, 0, 100, 0));
    let d = Inode::new(InodeNumber::new(5).unwrap(), true);
    assert_eq!(Stat::new(&d).ty, 1);
}

#[test]
fn bitmaps_allocate_and_free() {
    let mut b = BlockBitmap::default();
    assert!(!b.is_allocated(70));
    assert!(b.try_allocate(70));
    assert!(b.is_allocated(70));
    assert!(!b.try_allocate(70));
    assert!(b.deallocate(70));
    assert!(!b.is_allocated(70));
    assert!(!b.deallocate(70));
    let mut i = InodeBitmap::default();
    assert!(i.try_allocate(32767));
    assert!(i.is_allocated(32767));
    assert!(!i.is_allocated(32766));
}
