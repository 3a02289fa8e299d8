//! The binding of the simple file system to the kernel: its disk, its root
//! directory, the inode numbers of its files and the errors it reports.
//!
//! The simple file system is flat: the root directory (inode 1) holds every
//! file, and a file is a run of sectors from its start sector on.
use crate::error::KernelError;
use crate::machine::bytes_eq;
use crate::project5::ffs::types::{InodeNumber, Sector};
use vstd::string::StringSliceAdditionalSpecFns;
use vstd::prelude::*;

verus! {

/// The errors of the simple file system.
#[derive(Clone, Copy, Debug, PartialEq, Eq)]
pub enum Error {
    /// The disk failed.
    DiskError,
    /// The file system is in an invalid state.
    FsError,
}

/// The kernel error that a simple file system error stands for.
pub open spec fn kernel_error(e: Error) -> KernelError {
    match e {
        Error::DiskError => KernelError::IOError,
        Error::FsError => KernelError::FilesystemCorrupted("SimpleFS is in invalid state."),
    }
}

impl Error {
    /// The kernel error that this error stands for.
    pub fn into_kernel_error(self) -> (r: KernelError)
        ensures
            r == kernel_error(self),
    {
        match self {
            Error::DiskError => KernelError::IOError,
            Error::FsError => KernelError::FilesystemCorrupted("SimpleFS is in invalid state."),
        }
    }
}

/// The block device that holds a simple file system, by its slot number.
#[derive(Debug)]
pub struct FsDisk(pub usize);

impl FsDisk {
    /// The byte offset on the device of a 512-byte sector.
    pub fn byte_offset(sector: Sector) -> (r: usize)
        requires
            512 * sector.0 <= usize::MAX,
        ensures
            r == 512 * sector.0,
    {
        512 * sector.0
    }
}

/// A file of the simple file system: its name, its first sector and its
/// size in bytes.
pub struct SimpleFile {
    pub name: Vec<u8>,
    pub start_sector: usize,
    pub size: usize,
}

/// A mounted simple file system: its disk and the files of its root
/// directory.
pub struct FileSystem {
    pub disk: FsDisk,
    pub files: Vec<SimpleFile>,
}

/// The root directory of a simple file system.
pub struct Root {
    pub fs: FileSystem,
}

/// The result of reading block `fba` of a file, given what the file system
/// read: whether any byte was read, or the kernel error for its error.
pub open spec fn read_result(r: Result<usize, Error>) -> Result<bool, KernelError> {
    match r {
        Ok(size) => Ok(size != 0),
        Err(e) => Err(kernel_error(e)),
    }
}

/// Turns what the file system read into the answer to a block read: `true`
/// when some bytes were read, `false` at the end of the file.
pub fn read_block_result(r: Result<usize, Error>) -> (out: Result<bool, KernelError>)
    ensures
        out == read_result(r),
{
    match r {
        Ok(size) => Ok(size != 0),
        Err(e) => Err(e.into_kernel_error()),
    }
}

/// Turns what the file system wrote into the answer to a block write.
pub fn write_block_result(r: Result<usize, Error>) -> (out: Result<(), KernelError>)
    ensures
        match r {
            Ok(_) => out == Ok::<(), KernelError>(()),
            Err(e) => out == Err::<(), KernelError>(kernel_error(e)),
        },
{
    match r {
        Ok(_) => Ok(()),
        Err(e) => Err(e.into_kernel_error()),
    }
}

impl Root {
    /// The inode number of the root directory: 1.
    pub fn ino(&self) -> (r: InodeNumber)
        ensures
            r@ == 1,
    {
        InodeNumber::new(1).unwrap()
    }

    /// The size of the root directory: one block.
    pub fn size(&self) -> (r: usize)
        ensures
            r == 0x1000,
    {
        0x1000
    }

    /// The link count of the root directory: itself and its `..`.
    pub fn link_count(&self) -> (r: usize)
        ensures
            r == 2,
    {
        2
    }

    /// The index of the first file named `entry`;
    /// [`KernelError::NoSuchEntry`] when there is none.
    pub fn open_entry(&self, entry: &str) -> (r: Result<usize, KernelError>)
        ensures
            match r {
                Ok(i) => i < self.fs.files@.len() && self.fs.files@[i as int].name@
                    == entry.spec_bytes() && forall|j: int|
                    0 <= j < i ==> self.fs.files@[j].name@ != entry.spec_bytes(),
                Err(e) => e == KernelError::NoSuchEntry && forall|j: int|
                    0 <= j < self.fs.files@.len() ==> self.fs.files@[j].name@ != entry.spec_bytes(),
            },
    {
        let name = entry.as_bytes();
        let mut i: usize = 0;
        while i < self.fs.files.len()
            invariant
                i <= self.fs.files@.len(),
                name@ == entry.spec_bytes(),
                forall|j: int| 0 <= j < i ==> self.fs.files@[j].name@ != name@,
            decreases self.fs.files@.len() - i,
        {
            if bytes_eq(self.fs.files[i].name.as_slice(), name) {
                return Ok(i);
            }
            i = i + 1;
        }
        Err(KernelError::NoSuchEntry)
    }

    /// The root directory of a simple file system is fixed: no entry can be
    /// created in it.
    pub fn create_entry(&self, entry: &str, is_dir: bool) -> (r: Result<usize, KernelError>)
        ensures
            r == Err::<usize, KernelError>(KernelError::NotSupportedOperation),
    {
        Err(KernelError::NotSupportedOperation)
    }

    /// No entry can be removed from the root directory.
    pub fn unlink_entry(&self, entry: &str) -> (r: Result<(), KernelError>)
        ensures
            r == Err::<(), KernelError>(KernelError::NotSupportedOperation),
    {
        Err(KernelError::NotSupportedOperation)
    }

    /// The root directory cannot be listed.
    pub fn read_dir(&self) -> (r: Result<Vec<(InodeNumber, Vec<u8>)>, KernelError>)
        ensures
            r is Err && r->Err_0 == KernelError::NotSupportedOperation,
    {
        Err(KernelError::NotSupportedOperation)
    }

    /// The root directory is never removed.
    pub fn removed(&self) -> (r: Result<bool, KernelError>)
        ensures
            r == Err::<bool, KernelError>(KernelError::NotSupportedOperation),
    {
        Err(KernelError::NotSupportedOperation)
    }
}

/// The inode numbers given to the files of a simple file system: each file,
/// known by its start sector, gets the next number, from 2 on, the first
/// time it is asked for, and keeps it.
pub struct InoTable {
    pub next: u32,
    pub entries: Vec<(usize, u32)>,
}

impl InoTable {
    /// Whether every number given is at least 2 and below `next`, and no
    /// sector or number appears twice.
    pub open spec fn wf(&self) -> bool {
        &&& 2 <= self.next
        &&& forall|i: int|
            0 <= i < self.entries@.len() ==> 2 <= #[trigger] self.entries@[i].1 < self.next
        &&& forall|i: int, j: int|
            0 <= i < j < self.entries@.len() ==> self.entries@[i].0 != self.entries@[j].0
                && self.entries@[i].1 != self.entries@[j].1
    }

    /// A table that has given no number yet.
    pub fn new() -> (r: Self)
        ensures
            r.wf(),
            r.next == 2,
            r.entries@.len() == 0,
    {
        InoTable { next: 2, entries: Vec::new() }
    }

    /// The inode number of the file that starts at sector `start`: the one
    /// it was given before, or else the next one.
    pub fn ino_of(&mut self, start: usize) -> (r: InodeNumber)
        requires
            old(self).wf(),
            old(self).next < u32::MAX,
        ensures
            final(self).wf(),
            r@ >= 2,
            (exists|i: int| 0 <= i < old(self).entries@.len() && old(self).entries@[i].0 == start) ==> {
                &&& final(self).entries@ == old(self).entries@
                &&& final(self).next == old(self).next
                &&& exists|i: int|
                    0 <= i < old(self).entries@.len() && old(self).entries@[i] == (start, r@)
            },
            !(exists|i: int| 0 <= i < old(self).entries@.len() && old(self).entries@[i].0 == start) ==> {
                &&& r@ == old(self).next
                &&& final(self).next == old(self).next + 1
                &&& final(self).entries@ == old(self).entries@.push((start, r@))
            },
    {
        let mut i: usize = 0;
        while i < self.entries.len()
            invariant
                i <= self.entries@.len(),
                self.wf(),
                self.entries@ == old(self).entries@,
                self.next == old(self).next,
                forall|j: int| 0 <= j < i ==> self.entries@[j].0 != start,
            decreases self.entries@.len() - i,
        {
            let (s, n) = self.entries[i];
            if s == start {
                return InodeNumber::new(n).unwrap();
            }
            i = i + 1;
        }
        let n = self.next;
        self.entries.push((start, n));
        self.next = n + 1;
        InodeNumber::new(n).unwrap()
    }
}

/// A file keeps the inode number it was first given, and two files with
/// different start sectors never share one.
pub proof fn lemma_ino_table_distinct(t: InoTable, i: int, j: int)
    requires
        t.wf(),
        0 <= i < t.entries@.len(),
        0 <= j < t.entries@.len(),
        t.entries@[i].0 != t.entries@[j].0,
    ensures
        t.entries@[i].1 != t.entries@[j].1,
{
}

} // verus!
