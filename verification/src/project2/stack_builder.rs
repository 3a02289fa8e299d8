//! The builder of a new program's user stack.
//!
//! The stack is 64 KiB of zeroed, writable memory right below
//! `0x4748_0000`. The builder pushes data downward from the top, the way the
//! stack grows, and hands back the final stack pointer.
use crate::bytes::{u64_bytes, u64_le};
use crate::error::KernelError;
use crate::machine::{splice, UserMemory};
use vstd::prelude::*;
use vstd::string::StringSliceAdditionalSpecFns;

verus! {

/// The address just above the user stack.
pub const USER_STACK_TOP: usize = 0x4748_0000;

/// The size of the user stack.
pub const USER_STACK_SIZE: usize = 0x10000;

/// A user stack under construction: the stack pointer and the stack's
/// memory.
pub struct StackBuilder {
    pub sp: usize,
    pub stack: UserMemory,
}

impl StackBuilder {
    /// Whether the stack pointer lies within the stack, whose memory spans
    /// the 64 KiB below [`USER_STACK_TOP`].
    pub open spec fn wf(&self) -> bool {
        &&& self.stack.wf()
        &&& self.stack.base == USER_STACK_TOP - USER_STACK_SIZE
        &&& self.stack.bytes@.len() == USER_STACK_SIZE
        &&& self.stack.base <= self.sp <= USER_STACK_TOP
    }

    /// Maps a zero-filled stack and points the stack pointer at its top.
    pub fn new() -> (r: Result<Self, KernelError>)
        ensures
            r matches Ok(b) && b.wf() && b.sp == USER_STACK_TOP && b.stack.bytes@ == Seq::new(
                USER_STACK_SIZE as nat,
                |i: int| 0u8,
            ),
    {
        let stack = UserMemory::new(USER_STACK_TOP - USER_STACK_SIZE, USER_STACK_SIZE);
        Ok(StackBuilder { sp: USER_STACK_TOP, stack })
    }

    /// The final stack pointer.
    pub fn finish(self) -> (r: usize)
        ensures
            r == self.sp,
    {
        self.sp
    }

    /// The stack pointer.
    pub fn sp(&self) -> (r: usize)
        ensures
            r == self.sp,
    {
        self.sp
    }

    /// Moves the stack pointer down to the nearest multiple of `align`.
    pub fn align(&mut self, align: usize)
        requires
            old(self).wf(),
            align > 0,
            old(self).sp - old(self).sp % align >= old(self).stack.base,
        ensures
            final(self).wf(),
            final(self).stack == old(self).stack,
            final(self).sp == old(self).sp - old(self).sp % align,
    {
        let ghost target: int = old(self).sp - old(self).sp % align;
        proof {
            lemma_round_down(old(self).sp as int, align as int);
        }
        while self.sp % align != 0
            invariant
                self.wf(),
                self.stack == old(self).stack,
                align > 0,
                target == old(self).sp - old(self).sp % align,
                target % (align as int) == 0,
                target >= old(self).stack.base,
                target <= self.sp <= old(self).sp,
            decreases self.sp,
        {
            assert(self.sp != target);
            self.sp = self.sp - 1;
        }
        proof {
            lemma_largest_multiple(old(self).sp as int, align as int, self.sp as int);
        }
    }

    /// Pushes `bytes` onto the stack and returns the new stack pointer, at
    /// which they now lie.
    pub fn push_bytes(&mut self, bytes: &[u8]) -> (r: usize)
        requires
            old(self).wf(),
            old(self).sp - bytes@.len() >= old(self).stack.base,
        ensures
            final(self).wf(),
            r == final(self).sp,
            final(self).sp == old(self).sp - bytes@.len(),
            final(self).stack.base == old(self).stack.base,
            final(self).stack.bytes@ == splice(
                old(self).stack.bytes@,
                final(self).sp - old(self).stack.base,
                bytes@,
            ),
    {
        self.sp = self.sp - bytes.len();
        let sp = self.sp;
        let r = self.stack.store(sp, bytes);
        proof {
            assert(splice(old(self).stack.bytes@, sp - old(self).stack.base, bytes@).len()
                == old(self).stack.bytes@.len());
        }
        self.sp
    }

    /// Pushes `v` as 8 little-endian bytes and returns the new stack
    /// pointer.
    pub fn push_usize(&mut self, v: usize) -> (r: usize)
        requires
            old(self).wf(),
            old(self).sp - 8 >= old(self).stack.base,
        ensures
            final(self).wf(),
            r == final(self).sp,
            final(self).sp == old(self).sp - 8,
            final(self).stack.base == old(self).stack.base,
            final(self).stack.bytes@ == splice(
                old(self).stack.bytes@,
                final(self).sp - old(self).stack.base,
                u64_le(v as u64),
            ),
    {
        let b = u64_bytes(v as u64);
        self.push_bytes(b.as_slice())
    }

    /// Pushes the string `s` with room for its NUL terminator above it (the
    /// byte there stays as it was, zero in a fresh stack), and returns the
    /// new stack pointer, at which the string now lies.
    pub fn push_str(&mut self, s: &str) -> (r: usize)
        requires
            old(self).wf(),
            old(self).sp - 1 - s.spec_bytes().len() >= old(self).stack.base,
        ensures
            final(self).wf(),
            r == final(self).sp,
            final(self).sp == old(self).sp - 1 - s.spec_bytes().len(),
            final(self).stack.base == old(self).stack.base,
            final(self).stack.bytes@ == splice(
                old(self).stack.bytes@,
                final(self).sp - old(self).stack.base,
                s.spec_bytes(),
            ),
    {
        self.sp = self.sp - 1;
        self.push_bytes(s.as_bytes())
    }
}

/// Rounding `x` down to a multiple of `a` gives a multiple of `a`.
proof fn lemma_round_down(x: int, a: int)
    requires
        a > 0,
        x >= 0,
    ensures
        (x - x % a) % a == 0,
        0 <= x % a < a,
{
    vstd::arithmetic::div_mod::lemma_fundamental_div_mod(x, a);
    vstd::arithmetic::div_mod::lemma_mod_multiples_basic(x / a, a);
    assert(x - x % a == (x / a) * a) by (nonlinear_arith)
        requires
            x == a * (x / a) + x % a,
    ;
}

/// No multiple of `a` lies above `x` rounded down to a multiple of `a` and
/// at or below `x`.
proof fn lemma_largest_multiple(x: int, a: int, m: int)
    requires
        a > 0,
        0 <= m <= x,
        m % a == 0,
    ensures
        m <= x - x % a,
{
    vstd::arithmetic::div_mod::lemma_fundamental_div_mod(x, a);
    vstd::arithmetic::div_mod::lemma_fundamental_div_mod(m, a);
    assert(m <= x - x % a) by (nonlinear_arith)
        requires
            a > 0,
            x == a * (x / a) + x % a,
            m == a * (m / a),
            0 <= x % a < a,
            m <= x,
    ;
}

} // verus!
