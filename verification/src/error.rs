//! Errors reported by the kernel.
use vstd::prelude::*;

verus! {

/// The errors that kernel operations report to their callers.
///
/// A system call hands an error back to user space as the negated error
/// number of the variant (see [`KernelError::into_usize`]); the numbers are
/// those of the Linux ABI.
#[derive(Debug, PartialEq, Eq, Clone, Copy)]
pub enum KernelError {
    /// The operation is not permitted.
    OperationNotPermitted,
    /// A named file or directory does not exist.
    NoSuchEntry,
    /// An input/output error occurred.
    IOError,
    /// The file descriptor is not open.
    BadFileDescriptor,
    /// Memory is exhausted.
    NoMemory,
    /// The access is not allowed.
    InvalidAccess,
    /// A user address is unmapped or belongs to the kernel.
    BadAddress,
    /// The resource is busy.
    Busy,
    /// The file already exists.
    FileExist,
    /// The target is not a directory.
    NotDirectory,
    /// The target is a directory.
    IsDirectory,
    /// An argument is invalid.
    InvalidArgument,
    /// The process has too many open files.
    TooManyOpenFile,
    /// No space is left on the device.
    NoSpace,
    /// The pipe has no reader.
    BrokenPipe,
    /// A file name is too long.
    NameTooLong,
    /// The system call number is unknown.
    NoSuchSyscall,
    /// The directory is not empty.
    DirectoryNotEmpty,
    /// The operation is not supported.
    NotSupportedOperation,
    /// The file system is corrupted; the message says how.
    FilesystemCorrupted(&'static str),
}

/// The error number of each error.
pub open spec fn errno(e: KernelError) -> u64 {
    match e {
        KernelError::OperationNotPermitted => 1,
        KernelError::NoSuchEntry => 2,
        KernelError::IOError => 5,
        KernelError::BadFileDescriptor => 9,
        KernelError::NoMemory => 12,
        KernelError::InvalidAccess => 13,
        KernelError::BadAddress => 14,
        KernelError::Busy => 16,
        KernelError::FileExist => 17,
        KernelError::NotDirectory => 20,
        KernelError::IsDirectory => 21,
        KernelError::InvalidArgument => 22,
        KernelError::TooManyOpenFile => 24,
        KernelError::NoSpace => 28,
        KernelError::BrokenPipe => 32,
        KernelError::NameTooLong => 36,
        KernelError::NoSuchSyscall => 38,
        KernelError::DirectoryNotEmpty => 39,
        KernelError::NotSupportedOperation => 95,
        KernelError::FilesystemCorrupted(_) => 117,
    }
}

impl KernelError {
    /// The error number of this error.
    pub fn errno(&self) -> (r: u64)
        ensures
            r == errno(*self),
    {
        match self {
            KernelError::OperationNotPermitted => 1,
            KernelError::NoSuchEntry => 2,
            KernelError::IOError => 5,
            KernelError::BadFileDescriptor => 9,
            KernelError::NoMemory => 12,
            KernelError::InvalidAccess => 13,
            KernelError::BadAddress => 14,
            KernelError::Busy => 16,
            KernelError::FileExist => 17,
            KernelError::NotDirectory => 20,
            KernelError::IsDirectory => 21,
            KernelError::InvalidArgument => 22,
            KernelError::TooManyOpenFile => 24,
            KernelError::NoSpace => 28,
            KernelError::BrokenPipe => 32,
            KernelError::NameTooLong => 36,
            KernelError::NoSuchSyscall => 38,
            KernelError::DirectoryNotEmpty => 39,
            KernelError::NotSupportedOperation => 95,
            KernelError::FilesystemCorrupted(_) => 117,
        }
    }

    /// The value handed back to user space for this error: the two's
    /// complement of its error number, so that user space reads it as
    /// `-errno`.
    pub fn into_usize(&self) -> (r: usize)
        ensures
            r as int == usize::MAX as int + 1 - errno(*self),
    {
        let n = self.errno();
        usize::MAX - (n as usize) + 1
    }
}

} // verus!
