use lib::error::KernelError;
use lib::project5::ffs::disk_layout::{BlockBitmap, InodeArray, InodeBitmap, SuperBlock};
use lib::project5::ffs::fs::FastFileSystemInner;
use lib::project5::ffs::fs_objects::Directory;
use lib::project5::ffs::inode::Inode;
use lib::project5::ffs::journal::{Disk, Journal};
use lib::project5::ffs::disk_layout::{DirectoryBlock, JournalSb};
use lib::project5::ffs::types::InodeNumber;

/// A file system of 64 inodes and 1024 blocks whose first 10 blocks and
/// first inode are taken.
fn mount() -> FastFileSystemInner {
    let mut sb = SuperBlock::default();
    sb.magic = *b"KeOSFFS\0";
    sb.inode_count = 64;
    sb.block_count = 1024;
    let mut ib = InodeBitmap::default();
    assert!(ib.try_allocate(0));
    let mut bb = BlockBitmap::default();
    for i in 0..10 {
        assert!(bb.try_allocate(i));
    }
    match FastFileSystemInner::from_metadata(sb, vec![ib], vec![bb], vec![InodeArray::default(); 4], false) {
        Ok(fs) => fs,
        Err(e) => panic!("mount failed: {:?}", e),
    }
}

/// A zeroed disk of 64 blocks.
fn disk() -> Disk {
    Disk { blocks: vec![[0u8; 4096]; 64] }
}

fn ino(n: u32) -> InodeNumber {
    InodeNumber::new(n).unwrap()
}

fn cached(fs: &FastFileSystemInner, n: u32) -> Inode {
    fs.inodes[n as usize].unwrap()
}

/// A new, empty directory with its `.` entry, and a regular file.
fn setup() -> (FastFileSystemInner, Directory, InodeNumber) {
    let mut fs = mount();
    let (d, _) = fs.allocate_inode(true).unwrap();
    let (f, _) = fs.allocate_inode(false).unwrap();
    let mut dir = Directory { ino: d, blocks: Vec::new(), lbas: Vec::new(), removed: false };
    assert_eq!(dir.add_entry(&mut fs, &mut disk(), ".", d), Ok(()));
    (fs, dir, f)
}

#[test]
fn add_entry_grows_an_empty_directory() {
    let (fs, dir, _) = setup();
    assert_eq!(dir.blocks.len(), 1);
    assert_eq!(dir.lbas[0].into_u64(), 10);
    assert_eq!(cached(&fs, 2).size, 4096);
    assert_eq!(cached(&fs, 2).link_count, 1);
    assert_eq!(fs.sb.block_count_inused, 1);
    assert_eq!(dir.blocks[0].entries[0].inode, Some(ino(2)));
    assert_eq!(dir.blocks[0].entries[0].name_len, 1);
    assert_eq!(dir.blocks[0].entries[0].name[0], b'.');
    let back = Inode::from_disk_layout(&fs.inode_array[0].inodes[1]).unwrap();
    assert_eq!(back.size, 4096);
    assert_eq!(back.link_count, 1);
}

#[test]
fn add_entry_fills_free_slots_then_grows() {
    let (mut fs, mut dir, f) = setup();
    assert_eq!(dir.add_entry(&mut fs, &mut disk(), "hello", f), Ok(()));
    assert_eq!(dir.blocks[0].entries[1].inode, Some(f));
    assert_eq!(cached(&fs, 3).link_count, 1);
    for i in 0..14 {
        let name = format!("f{}", i);
        assert_eq!(dir.add_entry(&mut fs, &mut disk(), &name, f), Ok(()));
    }
    assert_eq!(dir.blocks.len(), 1);
    assert_eq!(cached(&fs, 3).link_count, 15);
    assert_eq!(dir.add_entry(&mut fs, &mut disk(), "next", f), Ok(()));
    assert_eq!(dir.blocks.len(), 2);
    assert_eq!(dir.lbas[1].into_u64(), 11);
    assert_eq!(dir.blocks[1].entries[0].inode, Some(f));
    assert!(dir.blocks[1].entries[1].inode.is_none());
    assert_eq!(cached(&fs, 2).size, 8192);
    assert_eq!(cached(&fs, 3).link_count, 16);
}

#[test]
fn add_entry_refuses_long_names_and_removed_directories() {
    let (mut fs, mut dir, f) = setup();
    let long = "x".repeat(252);
    assert_eq!(dir.add_entry(&mut fs, &mut disk(), &long, f), Err(KernelError::NameTooLong));
    let longest = "y".repeat(251);
    assert_eq!(dir.add_entry(&mut fs, &mut disk(), &longest, f), Ok(()));
    dir.removed = true;
    assert_eq!(dir.add_entry(&mut fs, &mut disk(), "z", f), Err(KernelError::NoSuchEntry));
    assert_eq!(cached(&fs, 3).link_count, 1);
}

#[test]
fn find_and_read_dir() {
    let (mut fs, mut dir, f) = setup();
    dir.add_entry(&mut fs, &mut disk(), "hello", f).unwrap();
    assert_eq!(dir.find(&fs, "hello"), Ok(f));
    assert_eq!(dir.find(&fs, "."), Ok(ino(2)));
    assert_eq!(dir.find(&fs, "hell"), Err(KernelError::NoSuchEntry));
    let list = dir.read_dir(&fs).unwrap();
    assert_eq!(list, vec![(ino(2), ".".to_string()), (f, "hello".to_string())]);
}

#[test]
fn read_dir_reports_a_corrupt_name() {
    let (fs, mut dir, _) = setup();
    dir.blocks[0].entries[0].name[0] = 0xff;
    assert_eq!(dir.read_dir(&fs), Err(KernelError::FilesystemCorrupted("DirectoryEntry")));
}

#[test]
fn take_entry_frees_the_slot() {
    let (mut fs, mut dir, f) = setup();
    dir.add_entry(&mut fs, &mut disk(), "a", f).unwrap();
    dir.add_entry(&mut fs, &mut disk(), "b", f).unwrap();
    let taken = dir.take_entry(&mut fs, &mut disk(), "a").unwrap();
    assert_eq!(taken.ino, f);
    assert_eq!(dir.find(&fs, "a"), Err(KernelError::NoSuchEntry));
    assert_eq!(dir.find(&fs, "b"), Ok(f));
    assert!(dir.take_entry(&mut fs, &mut disk(), "a").is_err());
    dir.add_entry(&mut fs, &mut disk(), "c", f).unwrap();
    assert_eq!(dir.blocks[0].entries[1].inode, Some(f));
    assert_eq!(dir.blocks[0].entries[1].name[0], b'c');
}

#[test]
fn open_entry_looks_the_inode_up() {
    let (mut fs, mut dir, f) = setup();
    dir.add_entry(&mut fs, &mut disk(), "hello", f).unwrap();
    assert_eq!(dir.open_entry(&mut fs, "hello").unwrap().ino, f);
    assert!(dir.open_entry(&mut fs, "absent").is_err());
}

#[test]
fn unlink_of_a_file_drops_one_link() {
    let (mut fs, mut dir, f) = setup();
    dir.add_entry(&mut fs, &mut disk(), "a", f).unwrap();
    dir.add_entry(&mut fs, &mut disk(), "b", f).unwrap();
    assert_eq!(cached(&fs, 3).link_count, 2);
    assert_eq!(dir.unlink_entry(&mut fs, &mut disk(), "a", &mut None), Ok(()));
    assert_eq!(cached(&fs, 3).link_count, 1);
    assert_eq!(dir.find(&fs, "a"), Err(KernelError::NoSuchEntry));
    assert_eq!(dir.unlink_entry(&mut fs, &mut disk(), "a", &mut None), Err(KernelError::NoSuchEntry));
}

#[test]
fn unlink_of_an_empty_directory() {
    let (mut fs, mut dir, _) = setup();
    let (c, _) = fs.allocate_inode(true).unwrap();
    let mut child = Directory { ino: c, blocks: Vec::new(), lbas: Vec::new(), removed: false };
    child.add_entry(&mut fs, &mut disk(), ".", c).unwrap();
    child.add_entry(&mut fs, &mut disk(), "..", dir.ino).unwrap();
    dir.add_entry(&mut fs, &mut disk(), "sub", c).unwrap();
    assert_eq!(cached(&fs, c.into_u32()).link_count, 2);
    let mut opened = Some(child);
    assert_eq!(dir.unlink_entry(&mut fs, &mut disk(), "sub", &mut opened), Ok(()));
    assert!(opened.as_ref().unwrap().removed);
    assert_eq!(cached(&fs, c.into_u32()).link_count, 0);
    assert_eq!(dir.find(&fs, "sub"), Err(KernelError::NoSuchEntry));
}

#[test]
fn unlink_refuses_busy_full_and_removed_directories() {
    let (mut fs, mut dir, f) = setup();
    fs.write_inode(Inode::new(ino(1), true));
    dir.add_entry(&mut fs, &mut disk(), "..", ino(1)).unwrap();
    dir.add_entry(&mut fs, &mut disk(), "root", ino(1)).unwrap();
    assert_eq!(dir.unlink_entry(&mut fs, &mut disk(), "root", &mut None), Err(KernelError::Busy));
    let (c, _) = fs.allocate_inode(true).unwrap();
    let mut child = Directory { ino: c, blocks: Vec::new(), lbas: Vec::new(), removed: false };
    child.add_entry(&mut fs, &mut disk(), ".", c).unwrap();
    child.add_entry(&mut fs, &mut disk(), "..", dir.ino).unwrap();
    child.add_entry(&mut fs, &mut disk(), "file", f).unwrap();
    dir.add_entry(&mut fs, &mut disk(), "sub", c).unwrap();
    let mut opened = Some(child);
    assert_eq!(dir.unlink_entry(&mut fs, &mut disk(), "sub", &mut opened), Err(KernelError::DirectoryNotEmpty));
    assert_eq!(dir.find(&fs, "sub"), Ok(c));
    let mut child = opened.unwrap();
    child.unlink_entry(&mut fs, &mut disk(), "file", &mut None).unwrap();
    child.removed = true;
    let mut opened = Some(child);
    assert_eq!(dir.unlink_entry(&mut fs, &mut disk(), "sub", &mut opened), Err(KernelError::NoSuchEntry));
}

#[test]
fn add_entry_refuses_an_existing_name() {
    let (mut fs, mut dir, f) = setup();
    assert_eq!(dir.add_entry(&mut fs, &mut disk(), "hello", f), Ok(()));
    let links = cached(&fs, 3).link_count;
    assert_eq!(dir.add_entry(&mut fs, &mut disk(), "hello", f), Err(KernelError::FileExist));
    assert_eq!(dir.add_entry(&mut fs, &mut disk(), ".", f), Err(KernelError::FileExist));
    assert_eq!(cached(&fs, 3).link_count, links);
    assert_eq!(dir.find(&fs, "hello"), Ok(f));
}

#[test]
fn add_entry_writes_the_directory_block_and_inodes() {
    let mut fs = mount();
    let mut d = disk();
    let (dn, _) = fs.allocate_inode(true).unwrap();
    let (f, _) = fs.allocate_inode(false).unwrap();
    let mut dir = Directory { ino: dn, blocks: Vec::new(), lbas: Vec::new(), removed: false };
    assert_eq!(dir.add_entry(&mut fs, &mut d, ".", dn), Ok(()));
    assert_eq!(dir.add_entry(&mut fs, &mut d, "hello", f), Ok(()));
    // The directory's first block is mapped and holds both entries on disk.
    let lba = dir.lbas[0].into_u64() as usize;
    assert_eq!(cached(&fs, dn.into_u32()).dblocks[0].unwrap().into_u64(), lba as u64);
    let back = DirectoryBlock::from_block(&d.blocks[lba]);
    assert_eq!(back.entries[0].inode, Some(dn));
    assert_eq!(back.entries[1].inode, Some(f));
    assert_eq!(back.entries[1].name_len, 5);
    assert_eq!(&back.entries[1].name[..5], b"hello");
    // The inode array on disk holds both inodes.
    let arr = InodeArray::from_block(&d.blocks[4]);
    let dir_back = Inode::from_disk_layout(&arr.inodes[1]).unwrap();
    assert_eq!(dir_back.size, 4096);
    assert_eq!(dir_back.dblocks[0].unwrap().into_u64(), lba as u64);
    let file_back = Inode::from_disk_layout(&arr.inodes[2]).unwrap();
    assert_eq!(file_back.link_count, 1);
    // Taking the entry out is written too.
    assert_eq!(dir.take_entry(&mut fs, &mut d, "hello").unwrap().ino, f);
    assert!(DirectoryBlock::from_block(&d.blocks[lba]).entries[1].inode.is_none());
}

#[test]
fn unlink_entry_writes_the_link_count() {
    let mut fs = mount();
    let mut d = disk();
    let (dn, _) = fs.allocate_inode(true).unwrap();
    let (f, _) = fs.allocate_inode(false).unwrap();
    let mut dir = Directory { ino: dn, blocks: Vec::new(), lbas: Vec::new(), removed: false };
    dir.add_entry(&mut fs, &mut d, ".", dn).unwrap();
    dir.add_entry(&mut fs, &mut d, "a", f).unwrap();
    assert_eq!(dir.unlink_entry(&mut fs, &mut d, "a", &mut None), Ok(()));
    let arr = InodeArray::from_block(&d.blocks[4]);
    assert_eq!(Inode::from_disk_layout(&arr.inodes[2]).unwrap().link_count, 0);
    let lba = dir.lbas[0].into_u64() as usize;
    assert!(DirectoryBlock::from_block(&d.blocks[lba]).entries[1].inode.is_none());
}

#[test]
fn add_entry_past_the_disk_is_an_io_error() {
    let mut fs = mount();
    let mut small = Disk { blocks: vec![[0u8; 4096]; 4] };
    let (dn, _) = fs.allocate_inode(true).unwrap();
    let mut dir = Directory { ino: dn, blocks: Vec::new(), lbas: Vec::new(), removed: false };
    assert_eq!(dir.add_entry(&mut fs, &mut small, ".", dn), Err(KernelError::IOError));
    assert!(small.blocks.iter().all(|b| *b == [0u8; 4096]));
}

#[test]
fn add_entry_commits_through_the_journal() {
    let mut sb = SuperBlock::default();
    sb.magic = *b"KeOSFFS\0";
    sb.inode_count = 64;
    sb.block_count = 8192;
    sb.has_journal = 1;
    let mut bb = BlockBitmap::default();
    for i in 0..(4 + 4098 + 4) {
        assert!(bb.try_allocate(i));
    }
    let mut fs = FastFileSystemInner::from_metadata(sb, vec![InodeBitmap::default()], vec![bb], vec![InodeArray::default(); 4], false).unwrap();
    let mut jsb = JournalSb::default();
    jsb.magic = *b"KeOSJOUR";
    fs.journal = Some(Journal { sb: jsb });
    let mut d = Disk { blocks: vec![[0u8; 4096]; 4200] };
    let (dn, _) = fs.allocate_inode(true).unwrap();
    let mut dir = Directory { ino: dn, blocks: Vec::new(), lbas: Vec::new(), removed: false };
    assert_eq!(dir.add_entry(&mut fs, &mut d, ".", dn), Ok(()));
    let lba = dir.lbas[0].into_u64() as usize;
    assert_eq!(lba, 4 + 4098 + 4);
    assert_eq!(DirectoryBlock::from_block(&d.blocks[lba]).entries[0].inode, Some(dn));
    let jn = fs.journal.as_ref().unwrap();
    assert_eq!(jn.sb.tx_id, 1);
    assert_eq!(jn.sb.commited, 0);
}

/// A journaled file system with an empty directory, and the disk before and
/// after one entry is added to it; the journal starts at block 4.
fn journaled_add() -> (Disk, Disk, usize, InodeNumber) {
    let mut sb = SuperBlock::default();
    sb.magic = *b"KeOSFFS\0";
    sb.inode_count = 64;
    sb.block_count = 8192;
    sb.has_journal = 1;
    let mut bb = BlockBitmap::default();
    for i in 0..(4 + 4098 + 4) {
        assert!(bb.try_allocate(i));
    }
    let mut fs = FastFileSystemInner::from_metadata(sb, vec![InodeBitmap::default()], vec![bb], vec![InodeArray::default(); 4], false).unwrap();
    let mut jsb = JournalSb::default();
    jsb.magic = *b"KeOSJOUR";
    let mut d = Disk { blocks: vec![[0u8; 4096]; 4200] };
    d.blocks[4] = jsb.into_block();
    fs.journal = Some(Journal { sb: jsb });
    let before = Disk { blocks: d.blocks.clone() };
    let (dn, _) = fs.allocate_inode(true).unwrap();
    let mut dir = Directory { ino: dn, blocks: Vec::new(), lbas: Vec::new(), removed: false };
    assert_eq!(dir.add_entry(&mut fs, &mut d, "a", dn), Ok(()));
    let lba = dir.lbas[0].into_u64() as usize;
    (before, d, lba, dn)
}

/// The disk as a crash leaves it once the journal area of `after` is
/// written, the commit flag set or not, and the blocks outside not yet.
fn crashed(before: &Disk, after: &Disk, flag: u64) -> Disk {
    let mut img = Disk { blocks: before.blocks.clone() };
    for b in 5..(4 + 4098) {
        img.blocks[b] = after.blocks[b];
    }
    let mut jsb = JournalSb::from_block(&after.blocks[4]);
    jsb.commited = flag;
    img.blocks[4] = jsb.into_block();
    img
}

#[test]
fn added_entry_is_on_disk_after_a_crash_past_the_commit() {
    let (before, after, lba, dn) = journaled_add();
    let mut img = crashed(&before, &after, 1);
    assert_eq!(DirectoryBlock::from_block(&img.blocks[lba]).entries[0].inode, None);
    let mut journal = Journal::load(&img, 4);
    assert!(journal.recovery(&mut img, 4).is_ok());
    let blk = DirectoryBlock::from_block(&img.blocks[lba]);
    assert_eq!(blk.entries[0].inode, Some(dn));
    assert_eq!(blk.entries[0].name_len, 1);
    assert_eq!(blk.entries[0].name[0], b'a');
    assert!(img.blocks[lba] == after.blocks[lba]);
}

#[test]
fn added_entry_is_not_on_disk_after_a_crash_before_the_commit() {
    let (before, after, lba, _) = journaled_add();
    let mut img = crashed(&before, &after, 0);
    let mut journal = Journal::load(&img, 4);
    assert!(journal.recovery(&mut img, 4).is_ok());
    assert_eq!(DirectoryBlock::from_block(&img.blocks[lba]).entries[0].inode, None);
    assert!(img.blocks[lba] == before.blocks[lba]);
}
