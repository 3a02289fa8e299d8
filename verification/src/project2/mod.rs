//! Project 2: memory management: loading programs and mapping memory.
use crate::error::KernelError;
use crate::machine::{Machine, Registers};
use crate::project1::file_struct::{fresh_table, table_ok, FileStruct};
use crate::project1::syscall::{return_code, SyscallAbi};
use crate::project1::{abi_spec, completes, dispatch, dispatch_spec};
use mm_struct::{areas_wf, mmap_outcome, munmap_outcome, MmStruct, VmArea};
use vstd::prelude::*;

pub mod elf;
pub mod mm_struct;
pub mod page_table;
pub mod stack_builder;

verus! {

/// The system calls of project 2.
#[derive(Clone, Copy, Debug, PartialEq, Eq)]
pub enum SyscallNumber {
    /// Terminates the calling process.
    Exit,
    /// Opens a file and returns a file descriptor.
    Open,
    /// Reads data from a file descriptor.
    Read,
    /// Writes data to a file descriptor.
    Write,
    /// Moves the file offset of an open file.
    Seek,
    /// Retrieves the current file offset.
    Tell,
    /// Closes an open file descriptor.
    Close,
    /// Creates an interprocess communication channel.
    Pipe,
    /// Maps memory into the address space.
    Mmap,
    /// Unmaps memory from the address space.
    Munmap,
}

/// The number by which user space asks for each system call.
pub open spec fn sysno(s: SyscallNumber) -> usize {
    match s {
        SyscallNumber::Exit => 0,
        SyscallNumber::Open => 1,
        SyscallNumber::Read => 2,
        SyscallNumber::Write => 3,
        SyscallNumber::Seek => 4,
        SyscallNumber::Tell => 5,
        SyscallNumber::Close => 6,
        SyscallNumber::Pipe => 7,
        SyscallNumber::Mmap => 8,
        SyscallNumber::Munmap => 9,
    }
}

impl SyscallNumber {
    /// The number of this system call.
    pub fn as_usize(&self) -> (r: usize)
        ensures
            r == sysno(*self),
    {
        match self {
            SyscallNumber::Exit => 0,
            SyscallNumber::Open => 1,
            SyscallNumber::Read => 2,
            SyscallNumber::Write => 3,
            SyscallNumber::Seek => 4,
            SyscallNumber::Tell => 5,
            SyscallNumber::Close => 6,
            SyscallNumber::Pipe => 7,
            SyscallNumber::Mmap => 8,
            SyscallNumber::Munmap => 9,
        }
    }

    /// The system call with number `no`; [`KernelError::NoSuchSyscall`] when
    /// no system call has that number.
    pub fn try_from(no: usize) -> (r: Result<SyscallNumber, KernelError>)
        ensures
            match r {
                Ok(s) => sysno(s) == no,
                Err(e) => e == KernelError::NoSuchSyscall && forall|s: SyscallNumber|
                    sysno(s) != no,
            },
    {
        match no {
            0 => Ok(SyscallNumber::Exit),
            1 => Ok(SyscallNumber::Open),
            2 => Ok(SyscallNumber::Read),
            3 => Ok(SyscallNumber::Write),
            4 => Ok(SyscallNumber::Seek),
            5 => Ok(SyscallNumber::Tell),
            6 => Ok(SyscallNumber::Close),
            7 => Ok(SyscallNumber::Pipe),
            8 => Ok(SyscallNumber::Mmap),
            9 => Ok(SyscallNumber::Munmap),
            _ => Err(KernelError::NoSuchSyscall),
        }
    }
}

/// Distinct system calls have distinct numbers, so a number names at most
/// one system call.
pub proof fn lemma_sysno_injective(a: SyscallNumber, b: SyscallNumber)
    ensures
        sysno(a) == sysno(b) ==> a == b,
{
}

/// A process of project 2: its file state and its memory state.
pub struct Process {
    pub file_struct: FileStruct,
    pub mm_struct: MmStruct,
}

impl Process {
    /// A process with standard input, output and error open and nothing
    /// mapped.
    pub fn new() -> (r: Self)
        ensures
            r.file_struct@ == fresh_table(),
            r.mm_struct@ == Seq::<VmArea>::empty(),
            areas_wf(r.mm_struct@),
    {
        Process { file_struct: FileStruct::new(), mm_struct: MmStruct::new() }
    }

    /// Handles the system call that `regs` carries. `exit` (number 0)
    /// changes nothing and returns the status in `arg1` for the process to
    /// end with. `mmap` and `munmap` act on the memory state (see
    /// [`mmap_outcome`] and [`munmap_outcome`]), the others on the file
    /// state as in project 1; their result goes to `rax`.
    pub fn syscall(&mut self, m: &mut Machine, regs: &mut Registers) -> (exit: Option<i32>)
        requires
            table_ok(old(self).file_struct@, old(m)@),
            old(m).wf(),
            areas_wf(old(self).mm_struct@),
            completes(old(self).file_struct@, old(m)@, abi_spec(*old(regs))),
        ensures
            table_ok(final(self).file_struct@, final(m)@),
            final(m).wf(),
            areas_wf(final(self).mm_struct@),
            ({
                let abi = abi_spec(*old(regs));
                if abi.sysno == 0 {
                    &&& exit == Some(abi.arg1 as i32)
                    &&& final(self).file_struct@ == old(self).file_struct@
                    &&& final(self).mm_struct@ == old(self).mm_struct@
                    &&& final(m)@ == old(m)@
                    &&& *final(regs) == *old(regs)
                } else if abi.sysno == 8 || abi.sysno == 9 {
                    let (r, areas) = if abi.sysno == 8 {
                        mmap_outcome(old(self).mm_struct@, old(self).file_struct@, old(m)@, abi)
                    } else {
                        munmap_outcome(old(self).mm_struct@, abi.arg1 as u64)
                    };
                    &&& exit is None
                    &&& final(self).file_struct@ == old(self).file_struct@
                    &&& final(self).mm_struct@ == areas
                    &&& final(m)@ == old(m)@
                    &&& *final(regs) == (Registers { rax: return_code(r), ..*old(regs) })
                } else {
                    let o = dispatch_spec(old(self).file_struct@, old(m)@, abi);
                    &&& exit is None
                    &&& final(self).file_struct@ == o.table
                    &&& final(self).mm_struct@ == old(self).mm_struct@
                    &&& final(m)@ == o.machine
                    &&& *final(regs) == (Registers { rax: return_code(o.result), ..*old(regs) })
                }
            }),
    {
        let abi = SyscallAbi::from_registers(regs);
        assert(abi == abi_spec(*regs));
        if abi.sysno == 0 {
            return Some(abi.arg1 as i32);
        }
        let return_val = if abi.sysno == 8 {
            self.mm_struct.mmap(&mut self.file_struct, m, &abi)
        } else if abi.sysno == 9 {
            self.mm_struct.munmap(&abi)
        } else {
            dispatch(&mut self.file_struct, m, &abi)
        };
        abi.set_return_value(regs, return_val);
        None
    }
}

} // verus!
