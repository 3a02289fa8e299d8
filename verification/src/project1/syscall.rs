//! The x86-64 system call ABI: the number in `rax`, up to six arguments in
//! `rdi`, `rsi`, `rdx`, `r10`, `r8` and `r9`, and the return value in
//! `rax`.
use crate::error::{errno, KernelError};
use crate::machine::Registers;
use vstd::prelude::*;

verus! {

/// The number and the arguments of one system call.
#[derive(Clone, Copy, Debug)]
pub struct SyscallAbi {
    /// The system call number that identifies the requested service.
    pub sysno: usize,
    pub arg1: usize,
    pub arg2: usize,
    pub arg3: usize,
    pub arg4: usize,
    pub arg5: usize,
    pub arg6: usize,
}

/// The value that user space finds in `rax` for a system call's result: the
/// value itself on success, the negated error number on failure.
pub open spec fn return_code(r: Result<usize, KernelError>) -> usize {
    match r {
        Ok(v) => v,
        Err(e) => (usize::MAX + 1 - errno(e)) as usize,
    }
}

/// Whether `abi` holds the call that `regs` carries.
pub open spec fn abi_of(regs: Registers, abi: SyscallAbi) -> bool {
    &&& abi.sysno == regs.rax
    &&& abi.arg1 == regs.rdi
    &&& abi.arg2 == regs.rsi
    &&& abi.arg3 == regs.rdx
    &&& abi.arg4 == regs.r10
    &&& abi.arg5 == regs.r8
    &&& abi.arg6 == regs.r9
}

impl SyscallAbi {
    /// Reads the system call number and its arguments out of the registers.
    pub fn from_registers(regs: &Registers) -> (abi: Self)
        ensures
            abi_of(*regs, abi),
    {
        SyscallAbi {
            sysno: regs.rax,
            arg1: regs.rdi,
            arg2: regs.rsi,
            arg3: regs.rdx,
            arg4: regs.r10,
            arg5: regs.r8,
            arg6: regs.r9,
        }
    }

    /// Puts the result of the system call in `rax`: the value on success,
    /// the error's [`KernelError::into_usize`] on failure. No other register
    /// changes.
    pub fn set_return_value(self, regs: &mut Registers, return_val: Result<usize, KernelError>)
        ensures
            *final(regs) == (Registers { rax: return_code(return_val), ..*old(regs) }),
    {
        regs.rax = match return_val {
            Ok(v) => v,
            Err(e) => e.into_usize(),
        };
    }
}

} // verus!
