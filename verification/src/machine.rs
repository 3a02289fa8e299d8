//! The state outside a process that its system calls act on: the saved
//! registers, the user address space, the terminal, the pipes and the files
//! of the root directory.
use crate::error::KernelError;
use vstd::prelude::*;

verus! {

/// The general-purpose registers that carry a system call: the number in
/// `rax`, the arguments in `rdi`, `rsi`, `rdx`, `r10`, `r8` and `r9`, and
/// the return value back in `rax`.
#[derive(Clone, Copy, Debug)]
pub struct Registers {
    pub rax: usize,
    pub rdi: usize,
    pub rsi: usize,
    pub rdx: usize,
    pub r10: usize,
    pub r8: usize,
    pub r9: usize,
}

impl Registers {
    /// Registers that all hold zero.
    pub fn new() -> (r: Self)
        ensures
            r.rax == 0 && r.rdi == 0 && r.rsi == 0 && r.rdx == 0,
            r.r10 == 0 && r.r8 == 0 && r.r9 == 0,
    {
        Registers { rax: 0, rdi: 0, rsi: 0, rdx: 0, r10: 0, r8: 0, r9: 0 }
    }
}

/// `s` with the bytes from `off` on replaced by `data`.
pub open spec fn splice(s: Seq<u8>, off: int, data: Seq<u8>) -> Seq<u8> {
    s.subrange(0, off) + data + s.subrange(off + data.len(), s.len() as int)
}

/// The mapped part of a process's address space: `bytes` from address
/// `base` on. Every other address, the null address among them, is
/// unmapped.
pub struct UserMemory {
    pub base: usize,
    pub bytes: Vec<u8>,
}

impl UserMemory {
    pub open spec fn wf(&self) -> bool {
        0 < self.base && self.base + self.bytes@.len() <= usize::MAX
    }

    /// Whether `len` bytes from `addr` on are all mapped.
    pub open spec fn covers(&self, addr: int, len: int) -> bool {
        self.base <= addr && addr + len <= self.base + self.bytes@.len()
    }

    /// The offset of `addr` in `bytes`.
    pub open spec fn offset(&self, addr: int) -> int {
        addr - self.base
    }

    /// A zero-filled region of `size` bytes at `base`.
    pub fn new(base: usize, size: usize) -> (r: Self)
        requires
            0 < base,
            base + size <= usize::MAX,
        ensures
            r.wf(),
            r.base == base,
            r.bytes@ == Seq::new(size as nat, |i: int| 0u8),
    {
        let mut bytes: Vec<u8> = Vec::new();
        let mut i: usize = 0;
        while i < size
            invariant
                i <= size,
                bytes@ == Seq::new(i as nat, |j: int| 0u8),
            decreases size - i,
        {
            bytes.push(0);
            i = i + 1;
        }
        UserMemory { base, bytes }
    }

    /// Copies `len` bytes at `addr` out of user memory.
    pub fn load(&self, addr: usize, len: usize) -> (r: Result<Vec<u8>, KernelError>)
        requires
            self.wf(),
        ensures
            match r {
                Ok(v) => self.covers(addr as int, len as int) && v@ == self.bytes@.subrange(
                    self.offset(addr as int),
                    self.offset(addr as int) + len,
                ),
                Err(e) => !self.covers(addr as int, len as int) && e == KernelError::BadAddress,
            },
    {
        if addr < self.base || len > self.bytes.len() || addr - self.base > self.bytes.len() - len {
            return Err(KernelError::BadAddress);
        }
        let off = addr - self.base;
        let mut v: Vec<u8> = Vec::new();
        let mut i: usize = 0;
        while i < len
            invariant
                i <= len,
                off + len <= self.bytes.len(),
                v@ == self.bytes@.subrange(off as int, off + i),
            decreases len - i,
        {
            v.push(self.bytes[off + i]);
            i = i + 1;
        }
        Ok(v)
    }

    /// Copies `data` into user memory at `addr`; nothing changes when the
    /// destination is not mapped.
    pub fn store(&mut self, addr: usize, data: &[u8]) -> (r: Result<(), KernelError>)
        requires
            old(self).wf(),
        ensures
            final(self).base == old(self).base,
            final(self).wf(),
            old(self).covers(addr as int, data@.len() as int) ==> r is Ok && final(self).bytes@
                == splice(old(self).bytes@, old(self).offset(addr as int), data@),
            !old(self).covers(addr as int, data@.len() as int) ==> r == Err::<(), KernelError>(
                KernelError::BadAddress,
            ) && final(self).bytes@ == old(self).bytes@,
    {
        let len = data.len();
        if addr < self.base || len > self.bytes.len() || addr - self.base > self.bytes.len() - len {
            return Err(KernelError::BadAddress);
        }
        let off = addr - self.base;
        let ghost before = self.bytes@;
        let mut i: usize = 0;
        while i < len
            invariant
                i <= len,
                len == data@.len(),
                off + len <= before.len(),
                off + len <= self.bytes.len(),
                self.base == old(self).base,
                self.bytes@.len() == before.len(),
                forall|j: int|
                    0 <= j < before.len() ==> #[trigger] self.bytes@[j] == if off <= j < off + i {
                        data@[j - off]
                    } else {
                        before[j]
                    },
            decreases len - i,
        {
            self.bytes.set(off + i, data[i]);
            i = i + 1;
        }
        assert(self.bytes@ =~= splice(before, off as int, data@));
        Ok(())
    }

    /// Reads the NUL-terminated string at `addr`, without its terminator.
    pub fn load_cstr(&self, addr: usize) -> (r: Result<Vec<u8>, KernelError>)
        requires
            self.wf(),
        ensures
            match r {
                Ok(v) => cstr_at(self.bytes@, self.base as int, addr as int) == Some(v@),
                Err(e) => e == KernelError::BadAddress && cstr_at(
                    self.bytes@,
                    self.base as int,
                    addr as int,
                ) is None,
            },
    {
        let ghost mem = self.bytes@;
        let ghost base = self.base as int;
        if addr < self.base || addr - self.base >= self.bytes.len() {
            assert(!exists|n: int| nul_at(mem, base, addr as int, n));
            return Err(KernelError::BadAddress);
        }
        let off = addr - self.base;
        let mut v: Vec<u8> = Vec::new();
        let mut i: usize = off;
        while i < self.bytes.len()
            invariant
                off <= i <= self.bytes@.len(),
                off == addr - self.base,
                self.base <= addr,
                mem == self.bytes@,
                base == self.base,
                v@ == self.bytes@.subrange(off as int, i as int),
                forall|k: int| 0 <= k < i - off ==> !nul_at(mem, base, addr as int, k),
            decreases self.bytes@.len() - i,
        {
            if self.bytes[i] == 0 {
                proof {
                    lemma_cstr_at(mem, base, addr as int, i - off);
                }
                return Ok(v);
            }
            v.push(self.bytes[i]);
            i = i + 1;
        }
        assert(!exists|n: int| nul_at(mem, base, addr as int, n)) by {
            assert forall|n: int| !nul_at(mem, base, addr as int, n) by {
                if 0 <= n && n < i - off {
                }
            }
        }
        Err(KernelError::BadAddress)
    }

    /// Whether `len` bytes from `addr` on are all mapped.
    pub fn is_mapped(&self, addr: usize, len: usize) -> (r: bool)
        requires
            self.wf(),
        ensures
            r == self.covers(addr as int, len as int),
    {
        addr >= self.base && len <= self.bytes.len() && addr - self.base <= self.bytes.len() - len
    }
}

/// Whether a NUL byte lies `n` bytes after `addr` in the region `mem` that
/// starts at address `base`.
pub open spec fn nul_at(mem: Seq<u8>, base: int, addr: int, n: int) -> bool {
    0 <= n && base <= addr && addr - base + n < mem.len() && mem[addr - base + n] == 0
}

/// The NUL-terminated string at `addr` in the region `mem` that starts at
/// address `base`, without its terminator; `None` when no NUL follows `addr`
/// in the region.
pub closed spec fn cstr_at(mem: Seq<u8>, base: int, addr: int) -> Option<Seq<u8>> {
    if exists|n: int| nul_at(mem, base, addr, n) {
        let n = choose|n: int|
            nul_at(mem, base, addr, n) && forall|k: int| 0 <= k < n ==> !nul_at(mem, base, addr, k);
        Some(mem.subrange(addr - base, addr - base + n))
    } else {
        None
    }
}

/// The first NUL after `addr` ends the string there.
pub proof fn lemma_cstr_at(mem: Seq<u8>, base: int, addr: int, n: int)
    requires
        nul_at(mem, base, addr, n),
        forall|k: int| 0 <= k < n ==> !nul_at(mem, base, addr, k),
    ensures
        cstr_at(mem, base, addr) == Some(mem.subrange(addr - base, addr - base + n)),
{
    let c = choose|c: int|
        nul_at(mem, base, addr, c) && forall|k: int| 0 <= k < c ==> !nul_at(mem, base, addr, k);
    assert(nul_at(mem, base, addr, n) && forall|k: int| 0 <= k < n ==> !nul_at(mem, base, addr, k));
    if c < n {
        assert(!nul_at(mem, base, addr, c));
    } else if c > n {
        assert(!nul_at(mem, base, addr, n));
    }
}

/// No string starts below the region.
pub proof fn lemma_cstr_below(mem: Seq<u8>, base: int, addr: int)
    requires
        addr < base,
    ensures
        cstr_at(mem, base, addr) is None,
{
}

/// The terminal: the bytes typed at it, how many of them were read, and the
/// bytes written to it.
pub struct Teletype {
    pub input: Vec<u8>,
    pub consumed: usize,
    pub output: Vec<u8>,
}

impl Teletype {
    pub open spec fn wf(&self) -> bool {
        self.consumed <= self.input@.len()
    }

    /// The bytes typed and not read yet.
    pub open spec fn pending(&self) -> Seq<u8> {
        self.input@.subrange(self.consumed as int, self.input@.len() as int)
    }

    /// A terminal at which `input` was typed.
    pub fn new(input: Vec<u8>) -> (r: Self)
        ensures
            r.wf(),
            r.input@ == input@,
            r.consumed == 0,
            r.output@ == Seq::<u8>::empty(),
    {
        Teletype { input, consumed: 0, output: Vec::new() }
    }

    /// Reads up to `count` of the pending bytes; at the end of the input it
    /// reads none.
    pub fn read(&mut self, count: usize) -> (r: Vec<u8>)
        requires
            old(self).wf(),
        ensures
            final(self).wf(),
            r@ == old(self).pending().take(
                if count < old(self).pending().len() { count as int } else { old(self).pending().len() as int },
            ),
            final(self).consumed == old(self).consumed + r@.len(),
            final(self).input@ == old(self).input@,
            final(self).output@ == old(self).output@,
    {
        let avail = self.input.len() - self.consumed;
        let n = if count < avail { count } else { avail };
        let mut v: Vec<u8> = Vec::new();
        let mut i: usize = 0;
        while i < n
            invariant
                i <= n,
                self.consumed + n <= self.input.len(),
                v@ == self.input@.subrange(self.consumed as int, self.consumed + i),
            decreases n - i,
        {
            v.push(self.input[self.consumed + i]);
            i = i + 1;
        }
        self.consumed = self.consumed + n;
        v
    }

    /// Writes `data` to the terminal.
    pub fn write(&mut self, data: &[u8])
        ensures
            final(self).output@ == old(self).output@ + data@,
            final(self).input@ == old(self).input@,
            final(self).consumed == old(self).consumed,
    {
        let mut i: usize = 0;
        while i < data.len()
            invariant
                i <= data@.len(),
                self.input@ == old(self).input@,
                self.consumed == old(self).consumed,
                self.output@ == old(self).output@ + data@.take(i as int),
            decreases data@.len() - i,
        {
            self.output.push(data[i]);
            i = i + 1;
            assert(data@.take(i as int) == data@.take(i - 1).push(data@[i - 1]));
        }
        assert(data@.take(data@.len() as int) == data@);
    }
}

/// A pipe: the bytes written and not read yet, and whether its read end and
/// its write end are still open.
pub struct Pipe {
    pub buffer: Vec<u8>,
    pub reader_open: bool,
    pub writer_open: bool,
}

/// What system calls see of a [`Pipe`].
pub struct PipeView {
    pub buffer: Seq<u8>,
    pub reader_open: bool,
    pub writer_open: bool,
}

impl View for Pipe {
    type V = PipeView;

    open spec fn view(&self) -> PipeView {
        PipeView {
            buffer: self.buffer@,
            reader_open: self.reader_open,
            writer_open: self.writer_open,
        }
    }
}

/// The state outside a process that its system calls act on: the files of
/// the root directory (their names and contents, by inode index), the
/// terminal, the pipes and the process's user memory.
pub struct Machine {
    pub names: Vec<Vec<u8>>,
    pub contents: Vec<Vec<u8>>,
    pub tty: Teletype,
    pub pipes: Vec<Pipe>,
    pub mem: UserMemory,
}

/// What system calls see of a [`Machine`].
pub struct MachineView {
    pub names: Seq<Seq<u8>>,
    pub contents: Seq<Seq<u8>>,
    pub tty_input: Seq<u8>,
    pub tty_consumed: int,
    pub tty_output: Seq<u8>,
    pub pipes: Seq<PipeView>,
    pub mem_base: int,
    pub mem: Seq<u8>,
}

impl View for Machine {
    type V = MachineView;

    open spec fn view(&self) -> MachineView {
        MachineView {
            names: self.names@.map_values(|n: Vec<u8>| n@),
            contents: self.contents@.map_values(|c: Vec<u8>| c@),
            tty_input: self.tty.input@,
            tty_consumed: self.tty.consumed as int,
            tty_output: self.tty.output@,
            pipes: self.pipes@.map_values(|p: Pipe| p@),
            mem_base: self.mem.base as int,
            mem: self.mem.bytes@,
        }
    }
}

impl MachineView {
    pub open spec fn wf(self) -> bool {
        &&& self.names.len() == self.contents.len()
        &&& self.contents.len() < usize::MAX
        &&& 0 <= self.tty_consumed <= self.tty_input.len()
        &&& 0 < self.mem_base && self.mem_base + self.mem.len() <= usize::MAX
        &&& self.pipes.len() < usize::MAX
    }

    /// Whether `len` bytes of user memory from `addr` on are all mapped.
    pub open spec fn covers(self, addr: int, len: int) -> bool {
        self.mem_base <= addr && addr + len <= self.mem_base + self.mem.len()
    }

    /// The NUL-terminated string at `addr` in user memory.
    pub open spec fn cstr(self, addr: int) -> Option<Seq<u8>> {
        cstr_at(self.mem, self.mem_base, addr)
    }

    /// The index of the first file named `name`, if there is one.
    pub open spec fn lookup(self, name: Seq<u8>) -> Option<int> {
        lookup_name(self.names, name)
    }
}

/// The index of the first of `names` from `i` on that is `name`, if there is
/// one.
pub closed spec fn lookup_from(names: Seq<Seq<u8>>, name: Seq<u8>, i: int) -> Option<int>
    decreases names.len() - i,
{
    if i < 0 || i >= names.len() {
        None
    } else if names[i] == name {
        Some(i)
    } else {
        lookup_from(names, name, i + 1)
    }
}

/// The index of the first of `names` that is `name`, if there is one.
pub open spec fn lookup_name(names: Seq<Seq<u8>>, name: Seq<u8>) -> Option<int> {
    lookup_from(names, name, 0)
}

/// The search from `i` on finds the first match at or after `i`.
pub proof fn lemma_lookup_from(names: Seq<Seq<u8>>, name: Seq<u8>, i: int)
    requires
        0 <= i,
    ensures
        match lookup_from(names, name, i) {
            Some(k) => i <= k < names.len() && names[k] == name && forall|j: int|
                i <= j < k ==> names[j] != name,
            None => forall|j: int| i <= j < names.len() ==> names[j] != name,
        },
    decreases names.len() - i,
{
    if i < names.len() && names[i] != name {
        lemma_lookup_from(names, name, i + 1);
    }
}

/// A file found by name is the first file of the directory with that name.
pub proof fn lemma_lookup_name(names: Seq<Seq<u8>>, name: Seq<u8>)
    ensures
        match lookup_name(names, name) {
            Some(i) => 0 <= i < names.len() && names[i] == name && forall|j: int|
                0 <= j < i ==> names[j] != name,
            None => forall|j: int| 0 <= j < names.len() ==> names[j] != name,
        },
{
    lemma_lookup_from(names, name, 0);
}

impl Machine {
    pub open spec fn wf(&self) -> bool {
        self@.wf()
    }

    /// The index of the first file named `name`, if there is one.
    pub fn lookup(&self, name: &[u8]) -> (r: Option<usize>)
        requires
            self.wf(),
        ensures
            match r {
                Some(i) => i < self@.names.len() && self@.names[i as int] == name@ && forall|j: int|
                    0 <= j < i ==> self@.names[j] != name@,
                None => forall|j: int| 0 <= j < self@.names.len() ==> self@.names[j] != name@,
            },
            match r {
                Some(i) => self@.lookup(name@) == Some(i as int),
                None => self@.lookup(name@) is None,
            },
    {
        let mut i: usize = 0;
        while i < self.names.len()
            invariant
                i <= self.names@.len(),
                forall|j: int| 0 <= j < i ==> self@.names[j] != name@,
            decreases self.names@.len() - i,
        {
            if bytes_eq(self.names[i].as_slice(), name) {
                proof {
                    let v = self@;
                    assert(v.names[i as int] == name@);
                    lemma_lookup_name(v.names, name@);
                    if let Some(k) = v.lookup(name@) {
                        if k < i {
                        } else if k > i {
                            assert(v.names[i as int] != name@);
                        }
                    }
                }
                return Some(i);
            }
            i = i + 1;
        }
        proof {
            lemma_lookup_name(self@.names, name@);
        }
        None
    }
}

/// The bytes that a read of `count` bytes at `pos` gets from a file that
/// holds `data`: none at or past its end.
pub open spec fn file_slice(data: Seq<u8>, pos: int, count: int) -> Seq<u8> {
    if pos >= data.len() {
        Seq::empty()
    } else if pos + count <= data.len() {
        data.subrange(pos, pos + count)
    } else {
        data.subrange(pos, data.len() as int)
    }
}

/// The contents of a file that held `old` after `data` is written at `pos`;
/// a gap between the old end and `pos` reads as zeros.
pub open spec fn write_content(old: Seq<u8>, pos: int, data: Seq<u8>) -> Seq<u8> {
    Seq::new(
        if pos + data.len() > old.len() { (pos + data.len()) as nat } else { old.len() },
        |i: int|
            if pos <= i < pos + data.len() {
                data[i - pos]
            } else if i < old.len() {
                old[i]
            } else {
                0u8
            },
    )
}

impl Machine {
    /// Reads up to `count` bytes at `pos` of file `ino`.
    pub fn read_file(&self, ino: usize, pos: usize, count: usize) -> (r: Vec<u8>)
        requires
            self.wf(),
            ino < self@.contents.len(),
        ensures
            r@ == file_slice(self@.contents[ino as int], pos as int, count as int),
    {
        let data = &self.contents[ino];
        assert(data@ == self@.contents[ino as int]);
        let len = data.len();
        let mut v: Vec<u8> = Vec::new();
        if pos >= len {
            return v;
        }
        let end = if count <= len - pos { pos + count } else { len };
        let mut i: usize = pos;
        while i < end
            invariant
                pos <= i <= end,
                end <= data.len(),
                v@ == data@.subrange(pos as int, i as int),
            decreases end - i,
        {
            v.push(data[i]);
            i = i + 1;
        }
        v
    }

    /// Writes `data` at `pos` of file `ino`, growing the file as needed.
    pub fn write_file(&mut self, ino: usize, pos: usize, data: &[u8])
        requires
            old(self).wf(),
            ino < old(self)@.contents.len(),
            pos + data@.len() <= usize::MAX,
        ensures
            final(self)@ == (MachineView {
                contents: old(self)@.contents.update(
                    ino as int,
                    write_content(old(self)@.contents[ino as int], pos as int, data@),
                ),
                ..old(self)@
            }),
    {
        let old_data = &self.contents[ino];
        let ghost od = old_data@;
        assert(od == old(self)@.contents[ino as int]);
        let old_len = old_data.len();
        let end = pos + data.len();
        let new_len = if end > old_len { end } else { old_len };
        let mut v: Vec<u8> = Vec::new();
        let mut i: usize = 0;
        while i < new_len
            invariant
                i <= new_len,
                old_len == od.len(),
                end == pos + data@.len(),
                new_len == (if end > old_len { end } else { old_len }),
                old_data@ == od,
                v@.len() == i,
                forall|j: int| 0 <= j < i ==> #[trigger] v@[j] == write_content(od, pos as int, data@)[j],
            decreases new_len - i,
        {
            let b = if pos <= i && i < end {
                data[i - pos]
            } else if i < old_len {
                old_data[i]
            } else {
                0u8
            };
            v.push(b);
            i = i + 1;
        }
        assert(v@ =~= write_content(od, pos as int, data@));
        self.contents.set(ino, v);
        assert(self@.contents =~= old(self)@.contents.update(
            ino as int,
            write_content(od, pos as int, data@),
        ));
    }

    /// Takes up to `count` bytes from the front of pipe `p`.
    pub fn pipe_read(&mut self, p: usize, count: usize) -> (r: Vec<u8>)
        requires
            old(self).wf(),
            p < old(self)@.pipes.len(),
        ensures
            ({
                let buf = old(self)@.pipes[p as int].buffer;
                let n = if count < buf.len() { count as int } else { buf.len() as int };
                &&& r@ == buf.take(n)
                &&& final(self)@ == (MachineView {
                    pipes: old(self)@.pipes.update(
                        p as int,
                        PipeView { buffer: buf.skip(n), ..old(self)@.pipes[p as int] },
                    ),
                    ..old(self)@
                })
            }),
    {
        let buf = &self.pipes[p].buffer;
        let ghost b = buf@;
        assert(b == old(self)@.pipes[p as int].buffer);
        let n = if count < buf.len() { count } else { buf.len() };
        let mut taken: Vec<u8> = Vec::new();
        let mut rest: Vec<u8> = Vec::new();
        let mut i: usize = 0;
        while i < buf.len()
            invariant
                i <= buf@.len(),
                n <= buf@.len(),
                buf@ == b,
                i <= n ==> taken@ == b.subrange(0, i as int) && rest@ == Seq::<u8>::empty(),
                i > n ==> taken@ == b.take(n as int) && rest@ == b.subrange(n as int, i as int),
            decreases buf@.len() - i,
        {
            if i < n {
                taken.push(buf[i]);
            } else {
                rest.push(buf[i]);
            }
            i = i + 1;
        }
        assert(taken@ =~= b.take(n as int));
        assert(rest@ =~= b.skip(n as int));
        let reader_open = self.pipes[p].reader_open;
        let writer_open = self.pipes[p].writer_open;
        self.pipes.set(p, Pipe { buffer: rest, reader_open, writer_open });
        assert(self@.pipes =~= old(self)@.pipes.update(
            p as int,
            PipeView { buffer: b.skip(n as int), ..old(self)@.pipes[p as int] },
        ));
        taken
    }

    /// Appends `data` to the buffer of pipe `p`.
    pub fn pipe_write(&mut self, p: usize, data: &[u8])
        requires
            old(self).wf(),
            p < old(self)@.pipes.len(),
        ensures
            final(self)@ == (MachineView {
                pipes: old(self)@.pipes.update(
                    p as int,
                    PipeView {
                        buffer: old(self)@.pipes[p as int].buffer + data@,
                        ..old(self)@.pipes[p as int]
                    },
                ),
                ..old(self)@
            }),
    {
        let ghost b = self.pipes@[p as int].buffer@;
        let mut buffer: Vec<u8> = Vec::new();
        let mut i: usize = 0;
        while i < self.pipes[p].buffer.len()
            invariant
                p < self.pipes@.len(),
                self.pipes@[p as int].buffer@ == b,
                i <= b.len(),
                buffer@ == b.take(i as int),
            decreases b.len() - i,
        {
            buffer.push(self.pipes[p].buffer[i]);
            i = i + 1;
            assert(b.take(i as int) == b.take(i - 1).push(b[i - 1]));
        }
        let mut j: usize = 0;
        while j < data.len()
            invariant
                j <= data@.len(),
                buffer@ == b + data@.take(j as int),
            decreases data@.len() - j,
        {
            buffer.push(data[j]);
            j = j + 1;
            assert(data@.take(j as int) == data@.take(j - 1).push(data@[j - 1]));
        }
        assert(b.take(b.len() as int) == b);
        assert(data@.take(data@.len() as int) == data@);
        let reader_open = self.pipes[p].reader_open;
        let writer_open = self.pipes[p].writer_open;
        self.pipes.set(p, Pipe { buffer, reader_open, writer_open });
        assert(self@.pipes =~= old(self)@.pipes.update(
            p as int,
            PipeView { buffer: b + data@, ..old(self)@.pipes[p as int] },
        ));
    }

    /// Marks an end of pipe `p` closed: its read end when `reader`, else its
    /// write end.
    pub fn close_pipe_end(&mut self, p: usize, reader: bool)
        requires
            old(self).wf(),
            p < old(self)@.pipes.len(),
        ensures
            final(self)@ == (MachineView {
                pipes: old(self)@.pipes.update(
                    p as int,
                    if reader {
                        PipeView { reader_open: false, ..old(self)@.pipes[p as int] }
                    } else {
                        PipeView { writer_open: false, ..old(self)@.pipes[p as int] }
                    },
                ),
                ..old(self)@
            }),
    {
        if reader {
            self.pipes[p].reader_open = false;
        } else {
            self.pipes[p].writer_open = false;
        }
        assert(self@.pipes =~= old(self)@.pipes.update(
            p as int,
            if reader {
                PipeView { reader_open: false, ..old(self)@.pipes[p as int] }
            } else {
                PipeView { writer_open: false, ..old(self)@.pipes[p as int] }
            },
        ));
    }

    /// Creates an empty pipe with both ends open, and returns its index.
    pub fn new_pipe(&mut self) -> (r: usize)
        requires
            old(self).wf(),
            old(self)@.pipes.len() < usize::MAX,
        ensures
            r == old(self)@.pipes.len(),
            final(self)@ == (MachineView {
                pipes: old(self)@.pipes.push(
                    PipeView { buffer: Seq::empty(), reader_open: true, writer_open: true },
                ),
                ..old(self)@
            }),
    {
        let r = self.pipes.len();
        self.pipes.push(Pipe { buffer: Vec::new(), reader_open: true, writer_open: true });
        assert(self@.pipes =~= old(self)@.pipes.push(
            PipeView { buffer: Seq::empty(), reader_open: true, writer_open: true },
        ));
        r
    }
}

/// Whether two byte strings are equal.
pub fn bytes_eq(a: &[u8], b: &[u8]) -> (r: bool)
    ensures
        r == (a@ == b@),
{
    if a.len() != b.len() {
        return false;
    }
    let mut i: usize = 0;
    while i < a.len()
        invariant
            i <= a@.len(),
            a@.len() == b@.len(),
            forall|j: int| 0 <= j < i ==> a@[j] == b@[j],
        decreases a@.len() - i,
    {
        if a[i] != b[i] {
            return false;
        }
        i = i + 1;
    }
    assert(a@ =~= b@);
    true
}

} // verus!
