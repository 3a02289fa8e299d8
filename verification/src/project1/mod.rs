//! Project 1: system calls and the file state of a process.
use crate::error::KernelError;
use crate::machine::{Machine, MachineView, Registers};
use file_struct::{
    close_spec, fail, fresh_table, open_spec, outcome, pipe_spec, read_blocks, read_spec,
    seek_spec, table_ok, tell_spec, write_overflows, write_spec, FileStruct, Outcome,
};
use syscall::{return_code, SyscallAbi};
use vstd::prelude::*;

pub mod file_struct;
pub mod grader;
pub mod syscall;

verus! {

/// The system calls of project 1.
#[derive(Clone, Copy, Debug, PartialEq, Eq)]
pub enum SyscallNumber {
    /// Opens a file and returns a file descriptor.
    Open,
    /// Reads data from a file descriptor.
    Read,
    /// Writes data to a file descriptor.
    Write,
    /// Moves the file offset of an open file.
    Seek,
    /// Retrieves the current file offset.
    Tell,
    /// Closes an open file descriptor.
    Close,
    /// Creates an interprocess communication channel.
    Pipe,
}

/// The number by which user space asks for each system call.
pub open spec fn sysno(s: SyscallNumber) -> usize {
    match s {
        SyscallNumber::Open => 1,
        SyscallNumber::Read => 2,
        SyscallNumber::Write => 3,
        SyscallNumber::Seek => 4,
        SyscallNumber::Tell => 5,
        SyscallNumber::Close => 6,
        SyscallNumber::Pipe => 7,
    }
}

impl SyscallNumber {
    /// The number of this system call.
    pub fn as_usize(&self) -> (r: usize)
        ensures
            r == sysno(*self),
    {
        match self {
            SyscallNumber::Open => 1,
            SyscallNumber::Read => 2,
            SyscallNumber::Write => 3,
            SyscallNumber::Seek => 4,
            SyscallNumber::Tell => 5,
            SyscallNumber::Close => 6,
            SyscallNumber::Pipe => 7,
        }
    }

    /// The system call with number `no`; [`KernelError::NoSuchSyscall`] when
    /// no system call has that number.
    pub fn try_from(no: usize) -> (r: Result<SyscallNumber, KernelError>)
        ensures
            match r {
                Ok(s) => sysno(s) == no,
                Err(e) => e == KernelError::NoSuchSyscall && forall|s: SyscallNumber|
                    sysno(s) != no,
            },
    {
        match no {
            1 => Ok(SyscallNumber::Open),
            2 => Ok(SyscallNumber::Read),
            3 => Ok(SyscallNumber::Write),
            4 => Ok(SyscallNumber::Seek),
            5 => Ok(SyscallNumber::Tell),
            6 => Ok(SyscallNumber::Close),
            7 => Ok(SyscallNumber::Pipe),
            _ => Err(KernelError::NoSuchSyscall),
        }
    }
}

/// Distinct system calls have distinct numbers, so a number names at most
/// one system call.
pub proof fn lemma_sysno_injective(a: SyscallNumber, b: SyscallNumber)
    ensures
        sysno(a) == sysno(b) ==> a == b,
{
}

/// The call that `regs` carries.
pub open spec fn abi_spec(regs: Registers) -> SyscallAbi {
    SyscallAbi {
        sysno: regs.rax,
        arg1: regs.rdi,
        arg2: regs.rsi,
        arg3: regs.rdx,
        arg4: regs.r10,
        arg5: regs.r8,
        arg6: regs.r9,
    }
}

/// What system call `abi` does to table `t` and machine `m`: the handler of
/// its number, or [`KernelError::NoSuchSyscall`] for an unknown number.
pub open spec fn dispatch_spec(t: Seq<Option<file_struct::File>>, m: MachineView, abi: SyscallAbi) -> Outcome {
    if abi.sysno == 1 {
        open_spec(t, m, abi)
    } else if abi.sysno == 2 {
        read_spec(t, m, abi)
    } else if abi.sysno == 3 {
        write_spec(t, m, abi)
    } else if abi.sysno == 4 {
        seek_spec(t, m, abi)
    } else if abi.sysno == 5 {
        tell_spec(t, m, abi)
    } else if abi.sysno == 6 {
        close_spec(t, m, abi)
    } else if abi.sysno == 7 {
        pipe_spec(t, m, abi)
    } else {
        fail(t, m, KernelError::NoSuchSyscall)
    }
}

/// Whether system call `abi` returns at all: a read does not while it waits
/// on a pipe, and a write must not grow a file past the largest offset.
pub open spec fn completes(t: Seq<Option<file_struct::File>>, m: MachineView, abi: SyscallAbi) -> bool {
    &&& abi.sysno == 2 ==> !read_blocks(t, m, abi)
    &&& abi.sysno == 3 ==> !write_overflows(t, abi)
    &&& m.pipes.len() + 1 < usize::MAX
}

/// Runs the handler of system call `abi` on file table `fs` and machine
/// `m`, or fails with [`KernelError::NoSuchSyscall`] for an unknown number.
pub fn dispatch(fs: &mut FileStruct, m: &mut Machine, abi: &SyscallAbi) -> (r: Result<usize, KernelError>)
    requires
        table_ok(old(fs)@, old(m)@),
        old(m).wf(),
        completes(old(fs)@, old(m)@, *abi),
    ensures
        table_ok(final(fs)@, final(m)@),
        final(m).wf(),
        ({
            let o = dispatch_spec(old(fs)@, old(m)@, *abi);
            &&& final(fs)@ == o.table
            &&& final(m)@ == o.machine
            &&& r == o.result
        }),
{
    match SyscallNumber::try_from(abi.sysno) {
        Ok(SyscallNumber::Open) => fs.open(m, abi),
        Ok(SyscallNumber::Read) => fs.read(m, abi),
        Ok(SyscallNumber::Write) => fs.write(m, abi),
        Ok(SyscallNumber::Seek) => fs.seek(m, abi),
        Ok(SyscallNumber::Tell) => fs.tell(m, abi),
        Ok(SyscallNumber::Close) => fs.close(m, abi),
        Ok(SyscallNumber::Pipe) => fs.pipe(m, abi),
        Err(e) => {
            assert(sysno(SyscallNumber::Open) != abi.sysno);
            assert(sysno(SyscallNumber::Read) != abi.sysno);
            assert(sysno(SyscallNumber::Write) != abi.sysno);
            assert(sysno(SyscallNumber::Seek) != abi.sysno);
            assert(sysno(SyscallNumber::Tell) != abi.sysno);
            assert(sysno(SyscallNumber::Close) != abi.sysno);
            assert(sysno(SyscallNumber::Pipe) != abi.sysno);
            Err(e)
        },
    }
}

/// A process of project 1: its file state.
pub struct Process {
    pub file_struct: FileStruct,
}

impl Process {
    /// A process with standard input, output and error open.
    pub fn new() -> (r: Self)
        ensures
            r.file_struct@ == fresh_table(),
    {
        Process { file_struct: FileStruct::new() }
    }

    /// Handles the system call that `regs` carries: reads the number and
    /// the arguments, runs the handler of that number (or fails with
    /// [`KernelError::NoSuchSyscall`]), and puts the result in `rax`.
    pub fn syscall(&mut self, m: &mut Machine, regs: &mut Registers)
        requires
            table_ok(old(self).file_struct@, old(m)@),
            old(m).wf(),
            completes(old(self).file_struct@, old(m)@, abi_spec(*old(regs))),
        ensures
            table_ok(final(self).file_struct@, final(m)@),
            final(m).wf(),
            ({
                let o = dispatch_spec(old(self).file_struct@, old(m)@, abi_spec(*old(regs)));
                &&& final(self).file_struct@ == o.table
                &&& final(m)@ == o.machine
                &&& *final(regs) == (Registers { rax: return_code(o.result), ..*old(regs) })
            }),
    {
        let abi = SyscallAbi::from_registers(regs);
        assert(abi == abi_spec(*regs));
        let return_val = dispatch(&mut self.file_struct, m, &abi);
        abi.set_return_value(regs, return_val);
    }
}

} // verus!
