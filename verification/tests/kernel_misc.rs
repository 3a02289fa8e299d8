use lib::error::KernelError;
use lib::project1::file_struct::{File, FileDescriptor, FileKind, FileMode, FileStruct};
use lib::project2::SyscallNumber as P2;
use lib::project3::SyscallNumber as P3;
use lib::project4::SyscallNumber as P4;
use lib::project5::SyscallNumber as P5;
use lib::project4::sync::semaphore::Semaphore;
use lib::project5::ffs::types::Sector;
use lib::simple_fs::{
    read_block_result, write_block_result, Error, FileSystem, FsDisk, InoTable, Root, SimpleFile,
};

#[test]
fn errno_values() {
    assert_eq!(KernelError::NoSuchEntry.errno(), 2);
    assert_eq!(KernelError::BadFileDescriptor.errno(), 9);
    assert_eq!(KernelError::InvalidArgument.errno(), 22);
    assert_eq!(KernelError::NoSuchSyscall.errno(), 38);
    assert_eq!(KernelError::FilesystemCorrupted("x").errno(), 117);
    assert_eq!(KernelError::BadAddress.into_usize() as isize, -14);
    assert_eq!(KernelError::NotSupportedOperation.into_usize() as isize, -95);
}

#[test]
fn project2_syscall_numbers() {
    assert_eq!(P2::try_from(0).unwrap(), P2::Exit);
    assert_eq!(P2::try_from(8).unwrap(), P2::Mmap);
    assert_eq!(P2::try_from(9).unwrap(), P2::Munmap);
    assert_eq!(P2::try_from(10), Err(KernelError::NoSuchSyscall));
    assert_eq!(P2::Pipe.as_usize(), 7);
}

#[test]
fn project3_syscall_numbers() {
    assert_eq!(P3::try_from(10).unwrap(), P3::Fork);
    assert_eq!(P3::try_from(0x81).unwrap(), P3::GetPhys);
    assert_eq!(P3::try_from(11), Err(KernelError::NoSuchSyscall));
    assert_eq!(P3::GetPhys.as_usize(), 0x81);
}

#[test]
fn project4_syscall_numbers() {
    assert_eq!(P4::try_from(11).unwrap(), P4::ThreadCreate);
    assert_eq!(P4::try_from(13).unwrap(), P4::ExitGroup);
    assert_eq!(P4::try_from(14), Err(KernelError::NoSuchSyscall));
    assert_eq!(P4::ThreadJoin.as_usize(), 12);
}

#[test]
fn project5_syscall_numbers() {
    assert_eq!(P5::try_from(14).unwrap(), P5::Create);
    assert_eq!(P5::try_from(20).unwrap(), P5::Fsync);
    assert_eq!(P5::try_from(0x81).unwrap(), P5::GetPhys);
    assert_eq!(P5::try_from(21), Err(KernelError::NoSuchSyscall));
    assert_eq!(P5::Readdir.as_usize(), 18);
}

#[test]
fn semaphore_hands_out_its_permits_then_queues() {
    let mut s = Semaphore::new(2, 5u32);
    assert_eq!(s.wait(1).map(|p| p.tid()), Some(1));
    let p2 = s.wait(2).unwrap();
    assert_eq!(s.wait(3), None);
    assert_eq!(s.wait(4), None);
    assert_eq!(s.wait(3), None);
    assert_eq!(*s.resource_ref(&p2), 5);
    assert_eq!(s.release(p2), Some(3));
    assert_eq!(s.signal(), Some(4));
    assert_eq!(s.signal(), None);
}

#[test]
fn simple_fs_errors_map_to_kernel_errors() {
    assert_eq!(Error::DiskError.into_kernel_error(), KernelError::IOError);
    assert_eq!(read_block_result(Ok(0)), Ok(false));
    assert_eq!(read_block_result(Ok(512)), Ok(true));
    assert_eq!(read_block_result(Err(Error::DiskError)), Err(KernelError::IOError));
    assert_eq!(write_block_result(Ok(7)), Ok(()));
    assert!(write_block_result(Err(Error::FsError)).is_err());
}

#[test]
fn simple_fs_sector_offsets() {
    assert_eq!(FsDisk::byte_offset(Sector(0)), 0);
    assert_eq!(FsDisk::byte_offset(Sector(3)), 1536);
}

fn root() -> Root {
    let file = |name: &str, start: usize, size: usize| SimpleFile { name: name.as_bytes().to_vec(), start_sector: start, size };
    Root { fs: FileSystem { disk: FsDisk(0), files: vec![file("hello", 1, 10), file("world", 5, 20), file("hello", 9, 1)] } }
}

#[test]
fn simple_fs_root_opens_the_first_file_of_a_name() {
    let r = root();
    assert_eq!(r.open_entry("hello"), Ok(0));
    assert_eq!(r.open_entry("world"), Ok(1));
    assert_eq!(r.open_entry("nothing"), Err(KernelError::NoSuchEntry));
    assert_eq!(r.ino().into_u32(), 1);
    assert_eq!(r.size(), 0x1000);
    assert_eq!(r.link_count(), 2);
}

#[test]
fn simple_fs_root_is_read_only() {
    let r = root();
    assert_eq!(r.create_entry("x", false), Err(KernelError::NotSupportedOperation));
    assert_eq!(r.unlink_entry("hello"), Err(KernelError::NotSupportedOperation));
    assert!(r.read_dir().is_err());
    assert_eq!(r.removed(), Err(KernelError::NotSupportedOperation));
}

#[test]
fn simple_fs_inode_numbers_are_stable_and_distinct() {
    let mut t = InoTable::new();
    let a = t.ino_of(1);
    let b = t.ino_of(5);
    let a2 = t.ino_of(1);
    assert_eq!(a.into_u32(), 2);
    assert_eq!(b.into_u32(), 3);
    assert_eq!(a2, a);
    assert_ne!(a, b);
}

#[test]
fn descriptor_table_takes_files_until_more_than_1024_are_open() {
    let mut fs = FileStruct::new();
    let file = File { mode: FileMode::Read, file: FileKind::Stdio };
    for i in 3..=1024 {
        assert_eq!(fs.install_file(file), Ok(FileDescriptor(i)));
    }
    assert_eq!(fs.install_file(file), Err(KernelError::TooManyOpenFile));
    fs.files[7] = None;
    assert_eq!(fs.install_file(file), Ok(FileDescriptor(7)));
}

#[test]
fn semaphore_lets_through_as_many_waiters_as_permits() {
    for (n, k) in [(3usize, 5u64), (0, 3), (4, 2)] {
        let mut s = Semaphore::new(n, ());
        let through = (0..k).filter(|t| s.wait(*t).is_some()).count();
        assert_eq!(through, n.min(k as usize));
    }
}
