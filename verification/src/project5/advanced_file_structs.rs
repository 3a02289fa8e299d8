//! What user programs see of files and directories: directory entries and
//! file metadata.
use crate::project5::ffs::inode::Inode;
use crate::project5::ffs::types::FileType;
use vstd::prelude::*;

verus! {

/// A directory entry as user programs see it: an inode number and a
/// NUL-terminated name.
#[derive(Clone, Copy)]
pub struct Dentry {
    /// The inode number of the file or directory.
    pub ino: u64,
    /// The name of the entry, NUL-terminated.
    pub name: [u8; 256],
}

/// The metadata of a file or directory that `stat()` reports.
#[derive(Clone, Copy, Debug)]
pub struct Stat {
    /// The inode number of the file or directory.
    pub inode: u64,
    /// The type of the file: `0` for a regular file, `1` for a directory.
    pub ty: u32,
    /// The size of the file in bytes.
    pub size: u64,
    pub __must_be_zero: u32,
}

impl Stat {
    /// The metadata of the file that `inode` describes.
    pub fn new(inode: &Inode) -> (r: Self)
        ensures
            r.inode == inode.ino@ as u64,
            r.ty == (if inode.ftype == FileType::RegularFile { 0u32 } else { 1u32 }),
            r.size == inode.size as u64,
            r.__must_be_zero == 0,
    {
        Self {
            inode: inode.ino.into_u32() as u64,
            ty: match inode.ftype {
                FileType::RegularFile => 0,
                FileType::Directory => 1,
            },
            size: inode.size as u64,
            __must_be_zero: 0,
        }
    }
}

} // verus!
