//! Project 3: lazy paging and fork.
use crate::error::KernelError;
use crate::machine::Registers;
use crate::project1::file_struct::FileStruct;
use crate::project1::syscall::SyscallAbi;
use crate::project2::page_table::{PageTable, PTE_P};
use crate::machine::Machine;
use crate::project1::file_struct::fresh_table;
use lazy_pager::{files_ok, page_fault, protected, LazyPager, PageFaultReason};
use vstd::prelude::*;

pub mod lazy_pager;

verus! {

/// The system calls of project 3.
#[derive(Clone, Copy, Debug, PartialEq, Eq)]
pub enum SyscallNumber {
    /// Terminates the calling process.
    Exit,
    /// Opens a file and returns a file descriptor.
    Open,
    /// Reads data from a file descriptor.
    Read,
    /// Writes data to a file descriptor.
    Write,
    /// Moves the file offset of an open file.
    Seek,
    /// Retrieves the current file offset.
    Tell,
    /// Closes an open file descriptor.
    Close,
    /// Creates an interprocess communication channel.
    Pipe,
    /// Maps memory into the address space.
    Mmap,
    /// Unmaps memory from the address space.
    Munmap,
    /// Creates a copy of the calling process.
    Fork,
    /// Reports the physical address of a virtual address (for grading).
    GetPhys,
}

/// The number by which user space asks for each system call.
pub open spec fn sysno(s: SyscallNumber) -> usize {
    match s {
        SyscallNumber::Exit => 0,
        SyscallNumber::Open => 1,
        SyscallNumber::Read => 2,
        SyscallNumber::Write => 3,
        SyscallNumber::Seek => 4,
        SyscallNumber::Tell => 5,
        SyscallNumber::Close => 6,
        SyscallNumber::Pipe => 7,
        SyscallNumber::Mmap => 8,
        SyscallNumber::Munmap => 9,
        SyscallNumber::Fork => 10,
        SyscallNumber::GetPhys => 0x81,
    }
}

impl SyscallNumber {
    /// The number of this system call.
    pub fn as_usize(&self) -> (r: usize)
        ensures
            r == sysno(*self),
    {
        match self {
            SyscallNumber::Exit => 0,
            SyscallNumber::Open => 1,
            SyscallNumber::Read => 2,
            SyscallNumber::Write => 3,
            SyscallNumber::Seek => 4,
            SyscallNumber::Tell => 5,
            SyscallNumber::Close => 6,
            SyscallNumber::Pipe => 7,
            SyscallNumber::Mmap => 8,
            SyscallNumber::Munmap => 9,
            SyscallNumber::Fork => 10,
            SyscallNumber::GetPhys => 0x81,
        }
    }

    /// The system call with number `no`; [`KernelError::NoSuchSyscall`] when
    /// no system call has that number.
    pub fn try_from(no: usize) -> (r: Result<SyscallNumber, KernelError>)
        ensures
            match r {
                Ok(s) => sysno(s) == no,
                Err(e) => e == KernelError::NoSuchSyscall && forall|s: SyscallNumber|
                    sysno(s) != no,
            },
    {
        match no {
            0 => Ok(SyscallNumber::Exit),
            1 => Ok(SyscallNumber::Open),
            2 => Ok(SyscallNumber::Read),
            3 => Ok(SyscallNumber::Write),
            4 => Ok(SyscallNumber::Seek),
            5 => Ok(SyscallNumber::Tell),
            6 => Ok(SyscallNumber::Close),
            7 => Ok(SyscallNumber::Pipe),
            8 => Ok(SyscallNumber::Mmap),
            9 => Ok(SyscallNumber::Munmap),
            10 => Ok(SyscallNumber::Fork),
            0x81 => Ok(SyscallNumber::GetPhys),
            _ => Err(KernelError::NoSuchSyscall),
        }
    }
}

/// Distinct system calls have distinct numbers, so a number names at most
/// one system call.
pub proof fn lemma_sysno_injective(a: SyscallNumber, b: SyscallNumber)
    ensures
        sysno(a) == sysno(b) ==> a == b,
{
}

/// The copy-on-write `fork` of a process with descriptor table
/// `file_struct`, address space `mm` and registers `regs`: every loaded page
/// of `mm` is write-protected, and the child gets a copy of the table, the
/// same (write-protected) address space, and the registers with 0, its
/// result of `fork`, in `rax`. The parent's result, the child's id, comes
/// from starting the child.
pub fn fork(file_struct: &FileStruct, mm: &mut LazyPager, regs: &Registers) -> (r: Result<
    (FileStruct, LazyPager, Registers),
    KernelError,
>)
    requires
        old(mm)@.wf(),
    ensures
        final(mm)@.wf(),
        final(mm)@.areas == old(mm)@.areas,
        final(mm)@.pages == protected(old(mm)@.pages),
        r matches Ok((fs, child, child_regs)) && fs@ == file_struct@ && child@ == final(mm)@
            && child_regs == (Registers { rax: 0, ..*regs }),
{
    let fs = file_struct.duplicate();
    let child = match mm.write_protect_ptes() {
        Ok(c) => c,
        Err(e) => return Err(e),
    };
    let child_regs = Registers { rax: 0, ..*regs };
    Ok((fs, child, child_regs))
}

/// Whether `a` is a canonical x86-64 address: bits 48 to 63 copy bit 47.
pub open spec fn canonical(a: u64) -> bool {
    a < 0x0000_8000_0000_0000 || a >= 0xffff_8000_0000_0000
}

/// What the grading call `get_phys` reports of address `arg1` with page
/// table `pt`: with `arg2` equal to `0x80041337`, the address of the
/// process's descriptor table, `fs_addr`; else, for the page mapped at
/// `arg1`, its physical address plus the offset of `arg1` in the page when
/// `arg2` is 0, and its entry's flags otherwise.
/// [`KernelError::InvalidArgument`] for an address that is not canonical,
/// that no page maps, or whose page is not present.
pub open spec fn get_phys_spec(pt: PageTable, fs_addr: usize, abi: SyscallAbi) -> Result<usize, KernelError> {
    if abi.arg2 == 0x80041337 {
        Ok(fs_addr)
    } else if !canonical(abi.arg1 as u64) {
        Err(KernelError::InvalidArgument)
    } else {
        match pt.lookup(abi.arg1 as u64) {
            None => Err(KernelError::InvalidArgument),
            Some(pte) => if abi.arg2 == 0 {
                if pte.flags & PTE_P == 0 {
                    Err(KernelError::InvalidArgument)
                } else {
                    Ok((pte.pa | (abi.arg1 & 0xfff) as u64) as usize)
                }
            } else {
                Ok(pte.flags as usize)
            },
        }
    }
}

/// The grading call `get_phys` (see [`get_phys_spec`]).
pub fn get_phys(pt: &PageTable, fs_addr: usize, abi: &SyscallAbi) -> (r: Result<usize, KernelError>)
    requires
        pt.wf(),
    ensures
        r == get_phys_spec(*pt, fs_addr, *abi),
{
    if abi.arg2 == 0x80041337 {
        return Ok(fs_addr);
    }
    let va = abi.arg1 as u64;
    if !(va < 0x0000_8000_0000_0000u64 || va >= 0xffff_8000_0000_0000u64) {
        return Err(KernelError::InvalidArgument);
    }
    let page = va - va % 4096;
    proof {
        crate::project2::page_table::lemma_same_page(page, va);
        crate::project2::page_table::lemma_lookup_path(pt.root, 3, page, va);
    }
    let pte = match pt.walk(page) {
        Ok(p) => p,
        Err(_) => return Err(KernelError::InvalidArgument),
    };
    if abi.arg2 == 0 {
        if pte.flags & PTE_P == 0 {
            return Err(KernelError::InvalidArgument);
        }
        Ok((pte.pa | (abi.arg1 & 0xfff) as u64) as usize)
    } else {
        Ok(pte.flags as usize)
    }
}

/// A process of project 3: its file state and its lazily paged memory.
pub struct Process {
    pub file_struct: FileStruct,
    pub mm_struct: LazyPager,
}

impl Process {
    /// A process with address space `mm_struct` and standard input, output
    /// and error open.
    pub fn from_mm_struct(mm_struct: LazyPager) -> (r: Self)
        ensures
            r.file_struct@ == fresh_table(),
            r.mm_struct@ == mm_struct@,
    {
        Process { file_struct: FileStruct::new(), mm_struct }
    }

    /// Handles a page fault with error code `ec` at address `cr2` (see
    /// [`page_fault`]); `Some(-1)`, the status to end the process with,
    /// when the fault cannot be resolved, and nothing changes then.
    pub fn page_fault(&mut self, m: &Machine, ec: u64, cr2: u64) -> (exit: Option<i32>)
        requires
            old(self).mm_struct@.wf(),
            files_ok(old(self).mm_struct@.areas, m@.contents),
        ensures
            final(self).mm_struct@.wf(),
            final(self).file_struct@ == old(self).file_struct@,
            ({
                let reason = PageFaultReason {
                    fault_addr: cr2,
                    is_write_access: ec & 2 == 2,
                    is_present: ec & 1 == 1,
                };
                match page_fault(old(self).mm_struct@, m@.contents, reason) {
                    Some(v) => exit is None && final(self).mm_struct@ == v,
                    None => exit == Some(-1i32) && final(self).mm_struct@ == old(self).mm_struct@,
                }
            }),
    {
        let reason = PageFaultReason::new(ec, cr2);
        match self.mm_struct.handle_page_fault(m, &reason) {
            Ok(()) => None,
            Err(_) => Some(-1),
        }
    }
}

} // verus!
