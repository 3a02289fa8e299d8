//! Project 4: multithreading and synchronization.
use crate::error::KernelError;
use vstd::prelude::*;

pub mod process;
pub mod round_robin;
pub mod sync;

verus! {

/// The system calls of project 4.
#[derive(Clone, Copy, Debug, PartialEq, Eq)]
pub enum SyscallNumber {
    /// Terminates the calling process.
    Exit,
    /// Opens a file and returns a file descriptor.
    Open,
    /// Reads data from a file descriptor.
    Read,
    /// Writes data to a file descriptor.
    Write,
    /// Moves the file offset of an open file.
    Seek,
    /// Retrieves the current file offset.
    Tell,
    /// Closes an open file descriptor.
    Close,
    /// Creates an interprocess communication channel.
    Pipe,
    /// Maps memory into the address space.
    Mmap,
    /// Unmaps memory from the address space.
    Munmap,
    /// Creates a copy of the calling process.
    Fork,
    /// Creates a thread in the calling process.
    ThreadCreate,
    /// Waits for a thread to exit.
    ThreadJoin,
    /// Terminates every thread of the process.
    ExitGroup,
    /// Reports the physical address of a virtual address (for grading).
    GetPhys,
}

/// The number by which user space asks for each system call.
pub open spec fn sysno(s: SyscallNumber) -> usize {
    match s {
        SyscallNumber::Exit => 0,
        SyscallNumber::Open => 1,
        SyscallNumber::Read => 2,
        SyscallNumber::Write => 3,
        SyscallNumber::Seek => 4,
        SyscallNumber::Tell => 5,
        SyscallNumber::Close => 6,
        SyscallNumber::Pipe => 7,
        SyscallNumber::Mmap => 8,
        SyscallNumber::Munmap => 9,
        SyscallNumber::Fork => 10,
        SyscallNumber::ThreadCreate => 11,
        SyscallNumber::ThreadJoin => 12,
        SyscallNumber::ExitGroup => 13,
        SyscallNumber::GetPhys => 0x81,
    }
}

impl SyscallNumber {
    /// The number of this system call.
    pub fn as_usize(&self) -> (r: usize)
        ensures
            r == sysno(*self),
    {
        match self {
            SyscallNumber::Exit => 0,
            SyscallNumber::Open => 1,
            SyscallNumber::Read => 2,
            SyscallNumber::Write => 3,
            SyscallNumber::Seek => 4,
            SyscallNumber::Tell => 5,
            SyscallNumber::Close => 6,
            SyscallNumber::Pipe => 7,
            SyscallNumber::Mmap => 8,
            SyscallNumber::Munmap => 9,
            SyscallNumber::Fork => 10,
            SyscallNumber::ThreadCreate => 11,
            SyscallNumber::ThreadJoin => 12,
            SyscallNumber::ExitGroup => 13,
            SyscallNumber::GetPhys => 0x81,
        }
    }

    /// The system call with number `no`; [`KernelError::NoSuchSyscall`] when
    /// no system call has that number.
    pub fn try_from(no: usize) -> (r: Result<SyscallNumber, KernelError>)
        ensures
            match r {
                Ok(s) => sysno(s) == no,
                Err(e) => e == KernelError::NoSuchSyscall && forall|s: SyscallNumber|
                    sysno(s) != no,
            },
    {
        match no {
            0 => Ok(SyscallNumber::Exit),
            1 => Ok(SyscallNumber::Open),
            2 => Ok(SyscallNumber::Read),
            3 => Ok(SyscallNumber::Write),
            4 => Ok(SyscallNumber::Seek),
            5 => Ok(SyscallNumber::Tell),
            6 => Ok(SyscallNumber::Close),
            7 => Ok(SyscallNumber::Pipe),
            8 => Ok(SyscallNumber::Mmap),
            9 => Ok(SyscallNumber::Munmap),
            10 => Ok(SyscallNumber::Fork),
            11 => Ok(SyscallNumber::ThreadCreate),
            12 => Ok(SyscallNumber::ThreadJoin),
            13 => Ok(SyscallNumber::ExitGroup),
            0x81 => Ok(SyscallNumber::GetPhys),
            _ => Err(KernelError::NoSuchSyscall),
        }
    }
}

/// Distinct system calls have distinct numbers, so a number names at most
/// one system call.
pub proof fn lemma_sysno_injective(a: SyscallNumber, b: SyscallNumber)
    ensures
        sysno(a) == sysno(b) ==> a == b,
{
}

} // verus!
