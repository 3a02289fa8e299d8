//! Core type definitions for the file system.
//!
//! Most types here are small wrappers around integers: block addresses,
//! sector numbers, inode numbers and file block numbers, with the arithmetic
//! that converts between them.
use crate::error::KernelError;
use vstd::prelude::*;

verus! {

/// A 512-byte sector of the disk.
#[derive(Debug, Clone, Copy, PartialEq, Eq)]
pub struct Sector(pub usize);

/// A block index relative to the beginning of a file.
#[derive(Debug, Clone, Copy, PartialEq, Eq)]
pub struct FileBlockNumber(pub usize);

/// The number of an inode; zero is never a valid inode number.
#[derive(Debug, Clone, Copy, PartialEq, Eq, PartialOrd, Ord)]
pub struct InodeNumber(u32);

impl View for InodeNumber {
    type V = u32;

    closed spec fn view(&self) -> u32 {
        self.0
    }
}

impl InodeNumber {
    /// An inode number is never zero.
    #[verifier::type_invariant]
    pub open spec fn nonzero(self) -> bool {
        self@ != 0
    }

    /// Creates an inode number if `n` is not zero.
    pub fn new(n: u32) -> (r: Option<Self>)
        ensures
            n == 0 <==> r is None,
            r matches Some(i) ==> i@ == n,
    {
        if n == 0 {
            None
        } else {
            Some(InodeNumber(n))
        }
    }

    /// The inode number as an integer.
    pub fn into_u32(&self) -> (r: u32)
        ensures
            r == self@,
            r != 0,
    {
        proof {
            use_type_invariant(self);
        }
        self.0
    }
}

/// Two inode numbers with the same value are the same.
pub proof fn lemma_inode_number_eq(a: InodeNumber, b: InodeNumber)
    requires
        a@ == b@,
    ensures
        a == b,
{
}

/// Represents the type of a file in the filesystem.
///
/// It is stored on disk as part of the inode metadata: `0` for a regular
/// file and `1` for a directory.
#[derive(Debug, Eq, PartialEq, Copy, Clone)]
pub enum FileType {
    /// A regular file, containing user data.
    RegularFile,
    /// A directory, which stores a list of file entries.
    Directory,
}

/// The on-disk code of a file type.
pub open spec fn file_type_code(t: FileType) -> u32 {
    match t {
        FileType::RegularFile => 0,
        FileType::Directory => 1,
    }
}

impl FileType {
    /// Decodes the on-disk file type; any code other than `0` and `1` means
    /// that the file system is corrupted.
    pub fn try_from(value: u32) -> (r: Result<Self, KernelError>)
        ensures
            value == 0 ==> r == Ok::<FileType, KernelError>(FileType::RegularFile),
            value == 1 ==> r == Ok::<FileType, KernelError>(FileType::Directory),
            value > 1 ==> r == Err::<FileType, KernelError>(
                KernelError::FilesystemCorrupted("Invalid inode type"),
            ),
    {
        match value {
            0 => Ok(FileType::RegularFile),
            1 => Ok(FileType::Directory),
            _ => Err(KernelError::FilesystemCorrupted("Invalid inode type")),
        }
    }

    /// The on-disk code of this file type.
    pub fn into_u32(&self) -> (r: u32)
        ensures
            r == file_type_code(*self),
    {
        match self {
            FileType::RegularFile => 0,
            FileType::Directory => 1,
        }
    }
}

/// Represents a logical block address (LBA) on disk.
///
/// Blocks are 4 KiB. LBA numbering starts at `1`; `0` is the invalid address,
/// so an `Option<LogicalBlockAddress>` stores `None` as `0` on disk.
#[derive(Clone, Copy, Eq, PartialEq, Ord, PartialOrd, Debug)]
pub struct LogicalBlockAddress(u64);

impl View for LogicalBlockAddress {
    type V = u64;

    closed spec fn view(&self) -> u64 {
        self.0
    }
}

/// The on-disk encoding of an optional block address: `0` for `None`.
pub open spec fn lba_code(a: Option<LogicalBlockAddress>) -> u64 {
    match a {
        Some(l) => l@,
        None => 0,
    }
}

/// The first sector of a block numbered `n` (counting from `1`).
pub open spec fn sector_of_block(n: u64) -> int {
    (n - 1) * 8
}

impl LogicalBlockAddress {
    /// A block address is never zero.
    #[verifier::type_invariant]
    pub open spec fn nonzero(self) -> bool {
        self@ != 0
    }

    /// Creates a [`LogicalBlockAddress`] if the given value is not zero.
    pub fn new(n: u64) -> (r: Option<Self>)
        ensures
            n == 0 <==> r is None,
            r matches Some(l) ==> l@ == n,
    {
        if n == 0 {
            None
        } else {
            Some(LogicalBlockAddress(n))
        }
    }

    /// Returns the contained value as a u64.
    pub fn into_u64(&self) -> (r: u64)
        ensures
            r == self@,
            r != 0,
    {
        proof {
            use_type_invariant(self);
        }
        self.0
    }

    /// Converts a logical block address to the first of its eight 512-byte
    /// sectors.
    pub fn into_sector(self) -> (r: Sector)
        requires
            sector_of_block(self@) <= usize::MAX,
        ensures
            r.0 == sector_of_block(self@),
    {
        proof {
            use_type_invariant(&self);
        }
        Sector(((self.0 - 1) * 8) as usize)
    }

    /// The number of steps from `start` to `end`: the difference with an
    /// exact upper bound when `start <= end`, and `(0, None)` otherwise.
    pub fn steps_between(start: &Self, end: &Self) -> (r: (usize, Option<usize>))
        ensures
            start@ <= end@ ==> r.0 == (end@ - start@) as usize && r.1 == Some(r.0),
            start@ > end@ ==> r == (0usize, None::<usize>),
    {
        if start.0 <= end.0 {
            let steps = (end.0 - start.0) as usize;
            (steps, Some(steps))
        } else {
            (0, None)
        }
    }

    /// The address `count` blocks after `start`, if it can be represented.
    pub fn forward_checked(start: Self, count: usize) -> (r: Option<Self>)
        ensures
            start@ + count <= u64::MAX ==> (r matches Some(l) && l@ == start@ + count),
            start@ + count > u64::MAX ==> r is None,
    {
        proof {
            use_type_invariant(&start);
        }
        match start.0.checked_add(count as u64) {
            Some(n) => Self::new(n),
            None => None,
        }
    }

    /// The address `count` blocks before `start`, if it is a valid address.
    pub fn backward_checked(start: Self, count: usize) -> (r: Option<Self>)
        ensures
            count < start@ ==> (r matches Some(l) && l@ == start@ - count),
            count >= start@ ==> r is None,
    {
        match start.0.checked_sub(count as u64) {
            Some(n) => Self::new(n),
            None => None,
        }
    }

    /// The address `rhs` blocks after this one.
    pub fn add(self, rhs: usize) -> (r: Self)
        requires
            self@ + rhs <= u64::MAX,
        ensures
            r@ == self@ + rhs,
    {
        proof {
            use_type_invariant(&self);
        }
        LogicalBlockAddress(self.0 + rhs as u64)
    }
}

} // verus!
