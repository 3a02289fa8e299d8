//! The checks that project 1 is graded by. Each check runs a short user
//! program against a process and a machine, and returns whether every
//! result came out as expected; its `ensures` proves that they all do.
use crate::bytes::{le_u32, lemma_u32_roundtrip, read_u32, u32_le};
use crate::error::KernelError;
use crate::machine::{bytes_eq, cstr_at, lemma_cstr_at, lemma_cstr_below, lemma_lookup_name, PipeView, nul_at, splice, Machine, MachineView, Registers};
use crate::machine::{file_slice, write_content};
use crate::project1::file_struct::{
    copy_out, entry, fail, fd_number, open_spec, pipe_spec, rx_file, tx_file, fresh_table, install, lemma_lowest_free, lowest_free, mode_of,
    table_ok, File, FileKind, FileMode,
};
use crate::project1::syscall::{return_code, SyscallAbi};
use crate::project1::{abi_spec, completes, dispatch_spec, Process};
use vstd::prelude::*;
use vstd::string::StringSliceAdditionalSpecFns;

verus! {

/// A task whose system calls check the ABI: numbers `0x10000` to `0x10005`
/// return their first to sixth argument, `0x10006` fails with
/// [`KernelError::InvalidArgument`], and any other number returns itself.
pub struct SyscallAbiValidator {}

/// What [`SyscallAbiValidator`] answers to `abi`.
pub open spec fn validator_result(abi: SyscallAbi) -> Result<usize, KernelError> {
    if abi.sysno == 0x10000 {
        Ok(abi.arg1)
    } else if abi.sysno == 0x10001 {
        Ok(abi.arg2)
    } else if abi.sysno == 0x10002 {
        Ok(abi.arg3)
    } else if abi.sysno == 0x10003 {
        Ok(abi.arg4)
    } else if abi.sysno == 0x10004 {
        Ok(abi.arg5)
    } else if abi.sysno == 0x10005 {
        Ok(abi.arg6)
    } else if abi.sysno == 0x10006 {
        Err(KernelError::InvalidArgument)
    } else {
        Ok(abi.sysno)
    }
}

impl SyscallAbiValidator {
    /// Answers the system call that `regs` carries.
    pub fn syscall(&mut self, regs: &mut Registers)
        ensures
            *final(regs) == (Registers {
                rax: return_code(validator_result(abi_spec(*old(regs)))),
                ..*old(regs)
            }),
    {
        let abi = SyscallAbi::from_registers(regs);
        let return_val = match abi.sysno {
            0x10000 => Ok(abi.arg1),
            0x10001 => Ok(abi.arg2),
            0x10002 => Ok(abi.arg3),
            0x10003 => Ok(abi.arg4),
            0x10004 => Ok(abi.arg5),
            0x10005 => Ok(abi.arg6),
            0x10006 => Err(KernelError::InvalidArgument),
            o => Ok(o),
        };
        abi.set_return_value(regs, return_val);
    }
}

/// Issues system call `no` with the arguments `0x31331` to `0x31336` to the
/// validator, and returns `rax`.
fn validate(v: &mut SyscallAbiValidator, no: usize) -> (rax: usize)
    ensures
        rax == return_code(
            validator_result(
                SyscallAbi {
                    sysno: no,
                    arg1: 0x31331,
                    arg2: 0x31332,
                    arg3: 0x31333,
                    arg4: 0x31334,
                    arg5: 0x31335,
                    arg6: 0x31336,
                },
            ),
        ),
{
    let mut regs = Registers {
        rax: no,
        rdi: 0x31331,
        rsi: 0x31332,
        rdx: 0x31333,
        r10: 0x31334,
        r8: 0x31335,
        r9: 0x31336,
    };
    v.syscall(&mut regs);
    regs.rax
}

/// Checks that the system call number and each of the six arguments reach
/// the handler, and that an error comes back as its negated number.
pub fn syscall_abi() -> (passed: bool)
    ensures
        passed,
{
    let mut v = SyscallAbiValidator {};
    let mut ok = validate(&mut v, 0x1234) == 0x1234;
    ok = ok && validate(&mut v, 0x10000) == 0x31331;
    ok = ok && validate(&mut v, 0x10001) == 0x31332;
    ok = ok && validate(&mut v, 0x10002) == 0x31333;
    ok = ok && validate(&mut v, 0x10003) == 0x31334;
    ok = ok && validate(&mut v, 0x10004) == 0x31335;
    ok = ok && validate(&mut v, 0x10005) == 0x31336;
    // -22, the negated error number of `InvalidArgument`.
    ok = ok && validate(&mut v, 0x10006) == usize::MAX - 21;
    ok
}

/// Offsets into user memory at which the test programs keep a path, the data
/// they write, the buffer they read into, and the descriptors of a pipe.
pub const PATH_AT: usize = 0;

pub const DATA_AT: usize = 64;

pub const BUF_AT: usize = 256;

pub const FDS_AT: usize = 512;

/// How much user memory the test programs use.
pub const MEM_USED: usize = 1024;

/// The bytes of a string.
pub open spec fn bytes_of(s: &str) -> Seq<u8> {
    s.spec_bytes()
}

/// Whether a test program can start: the process is new, the machine is
/// well formed, and user memory has room for the program's data.
pub open spec fn ready(t: Seq<Option<File>>, m: MachineView) -> bool {
    &&& t == fresh_table()
    &&& m.wf()
    &&& m.mem.len() >= MEM_USED
    &&& m.pipes.len() + 2 < usize::MAX
}

/// The file of the root directory named `name`.
pub open spec fn file_named(m: MachineView, name: &str) -> int {
    m.lookup(bytes_of(name))->Some_0
}

/// Copies `data` into user memory at offset `off` and returns its address.
fn put(m: &mut Machine, off: usize, data: &[u8]) -> (addr: usize)
    requires
        old(m).wf(),
        off + data@.len() <= old(m)@.mem.len(),
    ensures
        final(m).wf(),
        addr == old(m)@.mem_base + off,
        final(m)@ == (MachineView { mem: splice(old(m)@.mem, off as int, data@), ..old(m)@ }),
{
    let addr = m.mem.base + off;
    let r = m.mem.store(addr, data);
    addr
}

/// Copies `s` with a NUL terminator into user memory at offset `off` and
/// returns its address, at which the string now reads as `s`.
fn put_cstr(m: &mut Machine, off: usize, s: &str) -> (addr: usize)
    requires
        old(m).wf(),
        off + bytes_of(s).len() + 1 <= old(m)@.mem.len(),
        forall|i: int| 0 <= i < bytes_of(s).len() ==> #[trigger] bytes_of(s)[i] != 0,
    ensures
        final(m).wf(),
        addr == old(m)@.mem_base + off,
        final(m)@ == (MachineView {
            mem: splice(old(m)@.mem, off as int, bytes_of(s).push(0)),
            ..old(m)@
        }),
        final(m)@.cstr(addr as int) == Some(bytes_of(s)),
{
    let mut v: Vec<u8> = Vec::new();
    let b = s.as_bytes();
    let mut i: usize = 0;
    while i < b.len()
        invariant
            i <= b@.len(),
            v@ == b@.take(i as int),
        decreases b@.len() - i,
    {
        v.push(b[i]);
        i = i + 1;
        assert(b@.take(i as int) == b@.take(i - 1).push(b@[i - 1]));
    }
    v.push(0);
    assert(v@ == bytes_of(s).push(0)) by {
        assert(b@.take(b@.len() as int) == b@);
    }
    let addr = put(m, off, v.as_slice());
    proof {
        let mem = m@.mem;
        let base = m@.mem_base;
        let n = bytes_of(s).len() as int;
        assert(mem.subrange(off as int, off + n) =~= bytes_of(s));
        assert forall|k: int| 0 <= k < n implies !nul_at(mem, base, addr as int, k) by {
            assert(mem[off + k] == bytes_of(s)[k]);
        }
        lemma_cstr_at(mem, base, addr as int, n);
    }
    addr
}

/// Issues system call `no` with arguments `a1` to `a3` from process `p`,
/// and returns `rax`.
fn syscall3(p: &mut Process, m: &mut Machine, no: usize, a1: usize, a2: usize, a3: usize) -> (rax: usize)
    requires
        table_ok(old(p).file_struct@, old(m)@),
        old(m).wf(),
        completes(
            old(p).file_struct@,
            old(m)@,
            SyscallAbi { sysno: no, arg1: a1, arg2: a2, arg3: a3, arg4: 0, arg5: 0, arg6: 0 },
        ),
    ensures
        table_ok(final(p).file_struct@, final(m)@),
        final(m).wf(),
        ({
            let o = dispatch_spec(
                old(p).file_struct@,
                old(m)@,
                SyscallAbi { sysno: no, arg1: a1, arg2: a2, arg3: a3, arg4: 0, arg5: 0, arg6: 0 },
            );
            &&& final(p).file_struct@ == o.table
            &&& final(m)@ == o.machine
            &&& rax == return_code(o.result)
        }),
{
    let mut regs = Registers { rax: no, rdi: a1, rsi: a2, rdx: a3, r10: 0, r8: 0, r9: 0 };
    assert(abi_spec(regs) == SyscallAbi { sysno: no, arg1: a1, arg2: a2, arg3: a3, arg4: 0, arg5: 0, arg6: 0 });
    p.syscall(m, &mut regs);
    regs.rax
}

/// The file `name` opened with `mode`, at offset `pos`.
pub open spec fn opened(m: MachineView, name: &str, mode: FileMode, pos: int) -> Option<File> {
    Some(File { mode, file: FileKind::RegularFile { file: file_named(m, name) as usize, position: pos as usize } })
}


/// `open(path, mode)` of a file that exists, with a descriptor free.
#[verifier::rlimit(30)]
fn call_open(p: &mut Process, m: &mut Machine, path: usize, mode: usize) -> (r: isize)
    requires
        table_ok(old(p).file_struct@, old(m)@),
        old(m).wf(),
        old(m)@.pipes.len() + 1 < usize::MAX,
        mode <= 2,
        old(m)@.cstr(path as int) matches Some(name) && old(m)@.lookup(name) is Some,
        lowest_free(old(p).file_struct@) is Some,
    ensures
        table_ok(final(p).file_struct@, final(m)@),
        final(m).wf(),
        final(m)@ == old(m)@,
        ({
            let fd = lowest_free(old(p).file_struct@)->Some_0;
            let ino = old(m)@.lookup(old(m)@.cstr(path as int)->Some_0)->Some_0;
            &&& r == fd
            &&& final(p).file_struct@ == install(
                old(p).file_struct@,
                fd,
                File { mode: mode_of(mode), file: FileKind::RegularFile { file: ino as usize, position: 0 } },
            )
        }),
{
    let ghost t = p.file_struct@;
    let ghost mv = m@;
    let ghost abi = SyscallAbi { sysno: 1, arg1: path, arg2: mode, arg3: 0, arg4: 0, arg5: 0, arg6: 0 };
    proof {
        lemma_lowest_free(t, 0);
        let fd = lowest_free(t)->Some_0;
        assert(0 <= fd < 1025);
        assert(dispatch_spec(t, mv, abi) == open_spec(t, mv, abi));
    }
    let rax = syscall3(p, m, 1, path, mode, 0);
    rax as isize
}

/// `read(fd, buf, count)` of a regular file open for reading.
fn call_read_file(p: &mut Process, m: &mut Machine, fd: usize, buf: usize, count: usize) -> (r: isize)
    requires
        table_ok(old(p).file_struct@, old(m)@),
        old(m).wf(),
        old(m)@.pipes.len() + 1 < usize::MAX,
        old(m)@.covers(buf as int, count as int),
        count <= isize::MAX,
        entry(old(p).file_struct@, fd) is Some,
        entry(old(p).file_struct@, fd)->Some_0.mode.readable(),
        entry(old(p).file_struct@, fd)->Some_0.file is RegularFile,
    ensures
        table_ok(final(p).file_struct@, final(m)@),
        final(m).wf(),
        ({
            let f = entry(old(p).file_struct@, fd)->Some_0;
            let file = f.file->RegularFile_file;
            let pos = f.file->RegularFile_position;
            let bytes = file_slice(old(m)@.contents[file as int], pos as int, count as int);
            &&& r == bytes.len()
            &&& final(m)@ == copy_out(old(m)@, buf, bytes)
            &&& final(p).file_struct@ == old(p).file_struct@.update(
                fd_number(fd),
                Some(File { mode: f.mode, file: FileKind::RegularFile { file, position: (pos + bytes.len()) as usize } }),
            )
        }),
{
    syscall3(p, m, 2, fd, buf, count) as isize
}

/// `write(fd, buf, count)` of a regular file open for writing.
fn call_write_file(p: &mut Process, m: &mut Machine, fd: usize, buf: usize, count: usize) -> (r: isize)
    requires
        table_ok(old(p).file_struct@, old(m)@),
        old(m).wf(),
        old(m)@.pipes.len() + 1 < usize::MAX,
        old(m)@.covers(buf as int, count as int),
        count <= isize::MAX,
        entry(old(p).file_struct@, fd) is Some,
        entry(old(p).file_struct@, fd)->Some_0.mode.writable(),
        entry(old(p).file_struct@, fd)->Some_0.file is RegularFile,
        entry(old(p).file_struct@, fd)->Some_0.file->RegularFile_position + count <= usize::MAX,
    ensures
        table_ok(final(p).file_struct@, final(m)@),
        final(m).wf(),
        ({
            let f = entry(old(p).file_struct@, fd)->Some_0;
            let file = f.file->RegularFile_file;
            let pos = f.file->RegularFile_position;
            let off = buf - old(m)@.mem_base;
            let data = old(m)@.mem.subrange(off, off + count);
            &&& r == count
            &&& final(m)@ == (MachineView {
                contents: old(m)@.contents.update(
                    file as int,
                    write_content(old(m)@.contents[file as int], pos as int, data),
                ),
                ..old(m)@
            })
            &&& final(p).file_struct@ == old(p).file_struct@.update(
                fd_number(fd),
                Some(File { mode: f.mode, file: FileKind::RegularFile { file, position: (pos + count) as usize } }),
            )
        }),
{
    syscall3(p, m, 3, fd, buf, count) as isize
}

/// `seek(fd, offset, whence)` of a regular file to an offset in range.
fn call_seek(p: &mut Process, m: &mut Machine, fd: usize, offset: usize, whence: usize) -> (r: isize)
    requires
        table_ok(old(p).file_struct@, old(m)@),
        old(m).wf(),
        old(m)@.pipes.len() + 1 < usize::MAX,
        whence <= 2,
        entry(old(p).file_struct@, fd) is Some,
        entry(old(p).file_struct@, fd)->Some_0.file is RegularFile,
        ({
            let f = entry(old(p).file_struct@, fd)->Some_0;
            let start: int = if whence == 0 {
                0
            } else if whence == 1 {
                f.file->RegularFile_position as int
            } else {
                old(m)@.contents[f.file->RegularFile_file as int].len() as int
            };
            0 <= start + (offset as isize) as int <= isize::MAX
        }),
    ensures
        table_ok(final(p).file_struct@, final(m)@),
        final(m).wf(),
        final(m)@ == old(m)@,
        ({
            let f = entry(old(p).file_struct@, fd)->Some_0;
            let file = f.file->RegularFile_file;
            let position = f.file->RegularFile_position;
            let start: int = if whence == 0 { 0 } else if whence == 1 { position as int } else { old(m)@.contents[file as int].len() as int };
            let target = start + (offset as isize) as int;
            &&& r == target
            &&& final(p).file_struct@ == old(p).file_struct@.update(
                fd_number(fd),
                Some(File { mode: f.mode, file: FileKind::RegularFile { file, position: target as usize } }),
            )
        }),
{
    syscall3(p, m, 4, fd, offset, whence) as isize
}

/// `tell(fd)` of a regular file whose offset is at most `isize::MAX`.
fn call_tell(p: &mut Process, m: &mut Machine, fd: usize) -> (r: isize)
    requires
        table_ok(old(p).file_struct@, old(m)@),
        old(m).wf(),
        old(m)@.pipes.len() + 1 < usize::MAX,
        entry(old(p).file_struct@, fd) is Some,
        entry(old(p).file_struct@, fd)->Some_0.file is RegularFile,
        entry(old(p).file_struct@, fd)->Some_0.file->RegularFile_position <= isize::MAX,
    ensures
        table_ok(final(p).file_struct@, final(m)@),
        final(m).wf(),
        final(m)@ == old(m)@,
        final(p).file_struct@ == old(p).file_struct@,
        r == entry(old(p).file_struct@, fd)->Some_0.file->RegularFile_position,
{
    syscall3(p, m, 5, fd, 0, 0) as isize
}

/// `close(fd)` of a descriptor open on a regular file or the terminal.
fn call_close(p: &mut Process, m: &mut Machine, fd: usize) -> (r: isize)
    requires
        table_ok(old(p).file_struct@, old(m)@),
        old(m).wf(),
        old(m)@.pipes.len() + 1 < usize::MAX,
        entry(old(p).file_struct@, fd) is Some,
        entry(old(p).file_struct@, fd)->Some_0.file is RegularFile
            || entry(old(p).file_struct@, fd)->Some_0.file is Stdio,
    ensures
        table_ok(final(p).file_struct@, final(m)@),
        final(m).wf(),
        final(m)@ == old(m)@,
        final(p).file_struct@ == old(p).file_struct@.update(fd_number(fd), None),
        r == 0,
{
    syscall3(p, m, 6, fd, 0, 0) as isize
}


/// Opens the file `hello` for reading, for writing and for both, and checks
/// that each open gives a valid descriptor, different from the others.
pub fn open_normal(p: &mut Process, m: &mut Machine) -> (passed: bool)
    requires
        ready(old(p).file_struct@, old(m)@),
        old(m)@.lookup(bytes_of("hello")) is Some,
    ensures
        passed,
        final(p).file_struct@ == fresh_table() + seq![
            opened(old(m)@, "hello", FileMode::Read, 0),
            opened(old(m)@, "hello", FileMode::Write, 0),
            opened(old(m)@, "hello", FileMode::ReadWrite, 0),
        ],
{
    proof {
        reveal_strlit("hello");
        broadcast use vstd::string::is_ascii_spec_bytes;
        assert(vstd::string::is_ascii("hello"));
    }
    let ghost m0 = m@;
    let path = put_cstr(m, PATH_AT, "hello");
    assert(m@.lookup(bytes_of("hello")) == m0.lookup(bytes_of("hello")));
    proof {
        lemma_lowest_free(p.file_struct@, 3);
    }
    let fd1 = call_open(p, m, path, 0);
    let mut ok = fd1 >= 0;
    proof {
        lemma_lowest_free(p.file_struct@, 4);
    }
    let fd2 = call_open(p, m, path, 1);
    ok = ok && fd2 >= 0 && fd1 != fd2;
    proof {
        lemma_lowest_free(p.file_struct@, 5);
    }
    let fd3 = call_open(p, m, path, 2);
    ok = ok && fd3 >= 0 && fd1 != fd3 && fd2 != fd3;
    assert(p.file_struct@ =~= fresh_table() + seq![
        opened(m0, "hello", FileMode::Read, 0),
        opened(m0, "hello", FileMode::Write, 0),
        opened(m0, "hello", FileMode::ReadWrite, 0),
    ]);
    ok
}

/// Whether `content` begins with the bytes of `s`.
pub open spec fn starts_with(content: Seq<u8>, s: &str) -> bool {
    content.len() >= bytes_of(s).len() && content.take(bytes_of(s).len() as int) == bytes_of(s)
}

/// Whether the bytes of user memory at offset `off` are those of `data`.
fn mem_has(m: &Machine, off: usize, data: &[u8]) -> (r: bool)
    requires
        m.wf(),
        off + data@.len() <= m@.mem.len(),
    ensures
        r == (m@.mem.subrange(off as int, off + data@.len()) == data@),
{
    match m.mem.load(m.mem.base + off, data.len()) {
        Ok(v) => bytes_eq(v.as_slice(), data),
        Err(_) => false,
    }
}

/// Whether the `len(s)` bytes of user memory at offset `off` are those of
/// `s`.
fn mem_holds(m: &Machine, off: usize, s: &str) -> (r: bool)
    requires
        m.wf(),
        off + bytes_of(s).len() <= m@.mem.len(),
    ensures
        r == (m@.mem.subrange(off as int, off + bytes_of(s).len()) == bytes_of(s)),
{
    mem_has(m, off, s.as_bytes())
}

/// Reads the first 24 bytes of `hello` and then 8 more into one buffer, and
/// checks what the buffer holds after each read.
pub fn read_normal(p: &mut Process, m: &mut Machine) -> (passed: bool)
    requires
        ready(old(p).file_struct@, old(m)@),
        old(m)@.lookup(bytes_of("hello")) is Some,
        starts_with(old(m)@.contents[file_named(old(m)@, "hello")], "Welcome to KeOS Project!\n\nEven t"),
    ensures
        passed,
        final(p).file_struct@ == fresh_table().push(opened(old(m)@, "hello", FileMode::Read, 32)),
{
    proof {
        reveal_strlit("hello");
        reveal_strlit("Welcome to KeOS Project!\n\nEven t");
        reveal_strlit("Welcome to KeOS Project!");
        reveal_strlit("\n\nEven tto KeOS Project!");
        broadcast use vstd::string::is_ascii_spec_bytes;
        assert(vstd::string::is_ascii("hello"));
        assert(vstd::string::is_ascii("Welcome to KeOS Project!\n\nEven t"));
        assert(vstd::string::is_ascii("Welcome to KeOS Project!"));
        assert(vstd::string::is_ascii("\n\nEven tto KeOS Project!"));
    }
    let ghost m0 = m@;
    let ghost h = file_named(m0, "hello");
    let ghost content = m0.contents[h];
    proof {
        lemma_lookup_name(m0.names, bytes_of("hello"));
    }
    let path = put_cstr(m, PATH_AT, "hello");
    proof {
        lemma_lowest_free(p.file_struct@, 3);
    }
    let fd = call_open(p, m, path, 0);
    let mut ok = fd >= 0;
    let buf = m.mem.base + BUF_AT;
    assert(entry(p.file_struct@, 3) == opened(m0, "hello", FileMode::Read, 0));
    assert(m@.contents == m0.contents);
    assert(file_slice(content, 0, 24) == content.subrange(0, 24));
    let ghost mem1 = m@.mem;
    let n1 = call_read_file(p, m, 3, buf, 24);
    ok = ok && n1 == 24;
    assert(m@.mem == splice(mem1, BUF_AT as int, content.subrange(0, 24)));
    assert(m@.mem.subrange(BUF_AT as int, BUF_AT + 24) =~= content.take(24));
    assert(content.take(24) =~= bytes_of("Welcome to KeOS Project!"));
    ok = ok && mem_holds(m, BUF_AT, "Welcome to KeOS Project!");
    assert(entry(p.file_struct@, 3) == opened(m0, "hello", FileMode::Read, 24));
    assert(file_slice(content, 24, 8) == content.subrange(24, 32));
    let ghost mem2 = m@.mem;
    let n2 = call_read_file(p, m, 3, buf, 8);
    ok = ok && n2 == 8;
    assert(m@.mem == splice(mem2, BUF_AT as int, content.subrange(24, 32)));
    assert(m@.mem.subrange(BUF_AT as int, BUF_AT + 24) =~= content.subrange(24, 32) + content.subrange(8, 24));
    assert(content.take(32) == bytes_of("Welcome to KeOS Project!\n\nEven t"));
    assert(content.subrange(24, 32) =~= bytes_of("Welcome to KeOS Project!\n\nEven t").subrange(24, 32));
    assert(content.subrange(8, 24) =~= bytes_of("Welcome to KeOS Project!\n\nEven t").subrange(8, 24));
    assert(bytes_of("\n\nEven tto KeOS Project!") =~= bytes_of("Welcome to KeOS Project!\n\nEven t").subrange(24, 32)
        + bytes_of("Welcome to KeOS Project!\n\nEven t").subrange(8, 24));
    ok = ok && mem_holds(m, BUF_AT, "\n\nEven tto KeOS Project!");
    assert(p.file_struct@ =~= fresh_table().push(opened(m0, "hello", FileMode::Read, 32)));
    ok
}

/// `read(fd, buf, count)` of the terminal.
fn call_read_tty(p: &mut Process, m: &mut Machine, fd: usize, buf: usize, count: usize) -> (r: isize)
    requires
        table_ok(old(p).file_struct@, old(m)@),
        old(m).wf(),
        old(m)@.pipes.len() + 1 < usize::MAX,
        old(m)@.covers(buf as int, count as int),
        count <= isize::MAX,
        entry(old(p).file_struct@, fd) is Some,
        entry(old(p).file_struct@, fd)->Some_0.mode.readable(),
        entry(old(p).file_struct@, fd)->Some_0.file is Stdio,
    ensures
        table_ok(final(p).file_struct@, final(m)@),
        final(m).wf(),
        final(p).file_struct@ == old(p).file_struct@,
        ({
            let mv = old(m)@;
            let pending = mv.tty_input.subrange(mv.tty_consumed, mv.tty_input.len() as int);
            let n = if count < pending.len() { count as int } else { pending.len() as int };
            &&& r == n
            &&& final(m)@ == copy_out(MachineView { tty_consumed: mv.tty_consumed + n, ..mv }, buf, pending.take(n))
        }),
{
    syscall3(p, m, 2, fd, buf, count) as isize
}

/// `write(fd, buf, count)` of the terminal.
fn call_write_tty(p: &mut Process, m: &mut Machine, fd: usize, buf: usize, count: usize) -> (r: isize)
    requires
        table_ok(old(p).file_struct@, old(m)@),
        old(m).wf(),
        old(m)@.pipes.len() + 1 < usize::MAX,
        old(m)@.covers(buf as int, count as int),
        count <= isize::MAX,
        entry(old(p).file_struct@, fd) is Some,
        entry(old(p).file_struct@, fd)->Some_0.mode.writable(),
        entry(old(p).file_struct@, fd)->Some_0.file is Stdio,
    ensures
        table_ok(final(p).file_struct@, final(m)@),
        final(m).wf(),
        final(p).file_struct@ == old(p).file_struct@,
        ({
            let mv = old(m)@;
            let off = buf - mv.mem_base;
            &&& r == count
            &&& final(m)@ == (MachineView { tty_output: mv.tty_output + mv.mem.subrange(off, off + count), ..mv })
        }),
{
    syscall3(p, m, 3, fd, buf, count) as isize
}

/// `pipe(pipefd)` with two descriptors free.
fn call_pipe(p: &mut Process, m: &mut Machine, fds: usize) -> (r: isize)
    requires
        table_ok(old(p).file_struct@, old(m)@),
        old(m).wf(),
        old(m)@.pipes.len() + 2 < usize::MAX,
        old(m)@.covers(fds as int, 8),
        lowest_free(old(p).file_struct@) is Some,
        lowest_free(install(
            old(p).file_struct@,
            lowest_free(old(p).file_struct@)->Some_0,
            rx_file(old(m)@.pipes.len() as int),
        )) is Some,
    ensures
        table_ok(final(p).file_struct@, final(m)@),
        final(m).wf(),
        final(m)@.pipes.len() + 1 < usize::MAX,
        ({
            let o = pipe_spec(
                old(p).file_struct@,
                old(m)@,
                SyscallAbi { sysno: 7, arg1: fds, arg2: 0, arg3: 0, arg4: 0, arg5: 0, arg6: 0 },
            );
            &&& r == 0
            &&& final(p).file_struct@ == o.table
            &&& final(m)@ == o.machine
        }),
{
    syscall3(p, m, 7, fds, 0, 0) as isize
}

/// `write(fd, buf, count)` of the write end of a pipe whose read end is
/// open.
fn call_write_pipe(p: &mut Process, m: &mut Machine, fd: usize, buf: usize, count: usize) -> (r: isize)
    requires
        table_ok(old(p).file_struct@, old(m)@),
        old(m).wf(),
        old(m)@.pipes.len() + 1 < usize::MAX,
        old(m)@.covers(buf as int, count as int),
        count <= isize::MAX,
        entry(old(p).file_struct@, fd) is Some,
        entry(old(p).file_struct@, fd)->Some_0.mode.writable(),
        entry(old(p).file_struct@, fd)->Some_0.file is Tx,
        old(m)@.pipes[entry(old(p).file_struct@, fd)->Some_0.file->Tx_0 as int].reader_open,
    ensures
        table_ok(final(p).file_struct@, final(m)@),
        final(m).wf(),
        final(p).file_struct@ == old(p).file_struct@,
        ({
            let mv = old(m)@;
            let pi = entry(old(p).file_struct@, fd)->Some_0.file->Tx_0 as int;
            let off = buf - mv.mem_base;
            &&& r == count
            &&& final(m)@ == (MachineView {
                pipes: mv.pipes.update(
                    pi,
                    PipeView { buffer: mv.pipes[pi].buffer + mv.mem.subrange(off, off + count), ..mv.pipes[pi] },
                ),
                ..mv
            })
        }),
{
    syscall3(p, m, 3, fd, buf, count) as isize
}

/// `read(fd, buf, count)` of the read end of a pipe that holds at least
/// `count` bytes, or holds some and whose write end is closed.
fn call_read_pipe(p: &mut Process, m: &mut Machine, fd: usize, buf: usize, count: usize) -> (r: isize)
    requires
        table_ok(old(p).file_struct@, old(m)@),
        old(m).wf(),
        old(m)@.pipes.len() + 1 < usize::MAX,
        old(m)@.covers(buf as int, count as int),
        count <= isize::MAX,
        entry(old(p).file_struct@, fd) is Some,
        entry(old(p).file_struct@, fd)->Some_0.mode.readable(),
        entry(old(p).file_struct@, fd)->Some_0.file is Rx,
        ({
            let pipe = old(m)@.pipes[entry(old(p).file_struct@, fd)->Some_0.file->Rx_0 as int];
            count <= pipe.buffer.len() || (!pipe.writer_open && pipe.buffer.len() > 0)
        }),
    ensures
        table_ok(final(p).file_struct@, final(m)@),
        final(m).wf(),
        final(p).file_struct@ == old(p).file_struct@,
        ({
            let mv = old(m)@;
            let pi = entry(old(p).file_struct@, fd)->Some_0.file->Rx_0 as int;
            let pipe = mv.pipes[pi];
            let n = if count <= pipe.buffer.len() { count as int } else { pipe.buffer.len() as int };
            &&& r == n
            &&& final(m)@ == copy_out(
                MachineView {
                    pipes: mv.pipes.update(pi, PipeView { buffer: pipe.buffer.skip(n), ..pipe }),
                    ..mv
                },
                buf,
                pipe.buffer.take(n),
            )
        }),
{
    syscall3(p, m, 2, fd, buf, count) as isize
}

/// Reads 180 bytes of `hello`, which holds 140: the read gives the 140, and
/// the next read finds the end of the file.
pub fn read_truncate(p: &mut Process, m: &mut Machine) -> (passed: bool)
    requires
        ready(old(p).file_struct@, old(m)@),
        old(m)@.lookup(bytes_of("hello")) is Some,
        old(m)@.contents[file_named(old(m)@, "hello")].len() == 140,
    ensures
        passed,
        final(p).file_struct@ == fresh_table().push(opened(old(m)@, "hello", FileMode::Read, 140)),
{
    proof {
        reveal_strlit("hello");
        broadcast use vstd::string::is_ascii_spec_bytes;
        assert(vstd::string::is_ascii("hello"));
    }
    let ghost m0 = m@;
    proof {
        lemma_lookup_name(m0.names, bytes_of("hello"));
    }
    let path = put_cstr(m, PATH_AT, "hello");
    proof {
        lemma_lowest_free(p.file_struct@, 3);
    }
    let fd = call_open(p, m, path, 0);
    let mut ok = fd >= 0;
    let buf = m.mem.base + BUF_AT;
    assert(entry(p.file_struct@, 3) == opened(m0, "hello", FileMode::Read, 0));
    let n1 = call_read_file(p, m, 3, buf, 180);
    ok = ok && n1 == 140;
    assert(entry(p.file_struct@, 3) == opened(m0, "hello", FileMode::Read, 140));
    let n2 = call_read_file(p, m, 3, buf, 180);
    ok = ok && n2 == 0;
    assert(p.file_struct@ =~= fresh_table().push(opened(m0, "hello", FileMode::Read, 140)));
    ok
}

/// Copies the bytes of `s` into user memory at offset `off` and returns
/// their address.
fn put_str(m: &mut Machine, off: usize, s: &str) -> (addr: usize)
    requires
        old(m).wf(),
        off + bytes_of(s).len() <= old(m)@.mem.len(),
    ensures
        final(m).wf(),
        addr == old(m)@.mem_base + off,
        final(m)@ == (MachineView { mem: splice(old(m)@.mem, off as int, bytes_of(s)), ..old(m)@ }),
        final(m)@.mem.subrange(off as int, off + bytes_of(s).len()) == bytes_of(s),
{
    let addr = put(m, off, s.as_bytes());
    assert(m@.mem.subrange(off as int, off + bytes_of(s).len()) =~= bytes_of(s));
    addr
}

/// Reads `Welcome` from `hello2`, overwrites it with `Testing`, reads that
/// back, writes `Welcome` again and closes the file.
pub fn write_normal(p: &mut Process, m: &mut Machine) -> (passed: bool)
    requires
        ready(old(p).file_struct@, old(m)@),
        old(m)@.lookup(bytes_of("hello2")) is Some,
        starts_with(old(m)@.contents[file_named(old(m)@, "hello2")], "Welcome"),
    ensures
        passed,
        final(p).file_struct@ == fresh_table().push(None),
        final(m)@.contents == old(m)@.contents,
{
    proof {
        reveal_strlit("hello2");
        reveal_strlit("Welcome");
        reveal_strlit("Testing");
        broadcast use vstd::string::is_ascii_spec_bytes;
        assert(vstd::string::is_ascii("hello2"));
        assert(vstd::string::is_ascii("Welcome"));
        assert(vstd::string::is_ascii("Testing"));
    }
    let ghost m0 = m@;
    let ghost h = file_named(m0, "hello2");
    let ghost c = m0.contents[h];
    proof {
        lemma_lookup_name(m0.names, bytes_of("hello2"));
    }
    let path = put_cstr(m, PATH_AT, "hello2");
    proof {
        lemma_lowest_free(p.file_struct@, 3);
    }
    let fd = call_open(p, m, path, 2);
    let mut ok = fd >= 0;
    let buf = m.mem.base + BUF_AT;
    assert(entry(p.file_struct@, 3) == opened(m0, "hello2", FileMode::ReadWrite, 0));
    assert(file_slice(c, 0, 7) == c.subrange(0, 7));
    let n = call_read_file(p, m, 3, buf, 7);
    ok = ok && n == 7;
    assert(m@.mem.subrange(BUF_AT as int, BUF_AT + 7) =~= bytes_of("Welcome"));
    ok = ok && mem_holds(m, BUF_AT, "Welcome");
    let s = call_seek(p, m, 3, 0, 0);
    ok = ok && s == 0;
    let data = put_str(m, DATA_AT, "Testing");
    assert(entry(p.file_struct@, 3) == opened(m0, "hello2", FileMode::ReadWrite, 0));
    let w = call_write_file(p, m, 3, data, 7);
    ok = ok && w == 7;
    let ghost c1 = write_content(c, 0, bytes_of("Testing"));
    assert(m@.contents[h] == c1);
    let s = call_seek(p, m, 3, 0, 0);
    ok = ok && s == 0;
    assert(file_slice(c1, 0, 7) =~= bytes_of("Testing"));
    let n = call_read_file(p, m, 3, buf, 7);
    ok = ok && n == 7;
    assert(m@.mem.subrange(BUF_AT as int, BUF_AT + 7) =~= bytes_of("Testing"));
    ok = ok && mem_holds(m, BUF_AT, "Testing");
    let s = call_seek(p, m, 3, 0, 0);
    ok = ok && s == 0;
    let data = put_str(m, DATA_AT, "Welcome");
    let w = call_write_file(p, m, 3, data, 7);
    ok = ok && w == 7;
    assert(write_content(c1, 0, bytes_of("Welcome")) =~= c);
    assert(m@.contents =~= m0.contents);
    let cl = call_close(p, m, 3);
    ok = ok && cl == 0;
    assert(p.file_struct@ =~= fresh_table().push(None));
    ok
}

/// Writes `Awesome` through one descriptor of `hello2` and reads it back
/// through another: both see the same file.
pub fn write_sync(p: &mut Process, m: &mut Machine) -> (passed: bool)
    requires
        ready(old(p).file_struct@, old(m)@),
        old(m)@.lookup(bytes_of("hello2")) is Some,
        starts_with(old(m)@.contents[file_named(old(m)@, "hello2")], "Welcome"),
    ensures
        passed,
        final(p).file_struct@ == fresh_table().push(None).push(None),
        final(m)@.contents == old(m)@.contents.update(
            file_named(old(m)@, "hello2"),
            write_content(old(m)@.contents[file_named(old(m)@, "hello2")], 0, bytes_of("Awesome")),
        ),
{
    proof {
        reveal_strlit("hello2");
        reveal_strlit("Welcome");
        reveal_strlit("Awesome");
        broadcast use vstd::string::is_ascii_spec_bytes;
        assert(vstd::string::is_ascii("hello2"));
        assert(vstd::string::is_ascii("Welcome"));
        assert(vstd::string::is_ascii("Awesome"));
    }
    let ghost m0 = m@;
    let ghost h = file_named(m0, "hello2");
    let ghost c = m0.contents[h];
    proof {
        lemma_lookup_name(m0.names, bytes_of("hello2"));
    }
    let path = put_cstr(m, PATH_AT, "hello2");
    proof {
        lemma_lowest_free(p.file_struct@, 3);
    }
    let fd1 = call_open(p, m, path, 2);
    let mut ok = fd1 >= 0;
    let buf = m.mem.base + BUF_AT;
    assert(file_slice(c, 0, 7) == c.subrange(0, 7));
    let n = call_read_file(p, m, 3, buf, 7);
    ok = ok && n == 7;
    assert(m@.mem.subrange(BUF_AT as int, BUF_AT + 7) =~= bytes_of("Welcome"));
    ok = ok && mem_holds(m, BUF_AT, "Welcome");
    let s = call_seek(p, m, 3, 0, 0);
    ok = ok && s == 0;
    let path = put_cstr(m, PATH_AT, "hello2");
    proof {
        lemma_lowest_free(p.file_struct@, 4);
    }
    let fd2 = call_open(p, m, path, 0);
    ok = ok && fd2 >= 0;
    let data = put_str(m, DATA_AT, "Awesome");
    assert(entry(p.file_struct@, 3) == opened(m0, "hello2", FileMode::ReadWrite, 0));
    let w = call_write_file(p, m, 3, data, 7);
    ok = ok && w == 7;
    let ghost c1 = write_content(c, 0, bytes_of("Awesome"));
    assert(m@.contents[h] == c1);
    assert(entry(p.file_struct@, 4) == opened(m0, "hello2", FileMode::Read, 0));
    let s = call_seek(p, m, 4, 0, 0);
    ok = ok && s == 0;
    assert(file_slice(c1, 0, 7) =~= bytes_of("Awesome"));
    let n = call_read_file(p, m, 4, buf, 7);
    ok = ok && n == 7;
    assert(m@.mem.subrange(BUF_AT as int, BUF_AT + 7) =~= bytes_of("Awesome"));
    ok = ok && mem_holds(m, BUF_AT, "Awesome");
    let cl = call_close(p, m, 3);
    ok = ok && cl == 0;
    let cl = call_close(p, m, 4);
    ok = ok && cl == 0;
    assert(p.file_struct@ =~= fresh_table().push(None).push(None));
    ok
}

/// Writes `Awesome` to `hello3`, closes and reopens it, reads `Awesome`
/// back, and writes `Welcome` again.
pub fn write_persistence(p: &mut Process, m: &mut Machine) -> (passed: bool)
    requires
        ready(old(p).file_struct@, old(m)@),
        old(m)@.lookup(bytes_of("hello3")) is Some,
        starts_with(old(m)@.contents[file_named(old(m)@, "hello3")], "Welcome"),
    ensures
        passed,
        final(p).file_struct@ == fresh_table().push(None),
        final(m)@.contents == old(m)@.contents,
{
    proof {
        reveal_strlit("hello3");
        reveal_strlit("Welcome");
        reveal_strlit("Awesome");
        broadcast use vstd::string::is_ascii_spec_bytes;
        assert(vstd::string::is_ascii("hello3"));
        assert(vstd::string::is_ascii("Welcome"));
        assert(vstd::string::is_ascii("Awesome"));
    }
    let ghost m0 = m@;
    let ghost h = file_named(m0, "hello3");
    let ghost c = m0.contents[h];
    proof {
        lemma_lookup_name(m0.names, bytes_of("hello3"));
    }
    let path = put_cstr(m, PATH_AT, "hello3");
    proof {
        lemma_lowest_free(p.file_struct@, 3);
    }
    let fd = call_open(p, m, path, 2);
    let mut ok = fd >= 0;
    let buf = m.mem.base + BUF_AT;
    assert(file_slice(c, 0, 7) == c.subrange(0, 7));
    let n = call_read_file(p, m, 3, buf, 7);
    ok = ok && n == 7;
    assert(m@.mem.subrange(BUF_AT as int, BUF_AT + 7) =~= bytes_of("Welcome"));
    ok = ok && mem_holds(m, BUF_AT, "Welcome");
    let s = call_seek(p, m, 3, 0, 0);
    ok = ok && s == 0;
    let data = put_str(m, DATA_AT, "Awesome");
    assert(entry(p.file_struct@, 3) == opened(m0, "hello3", FileMode::ReadWrite, 0));
    let w = call_write_file(p, m, 3, data, 7);
    ok = ok && w == 7;
    let ghost c1 = write_content(c, 0, bytes_of("Awesome"));
    assert(m@.contents[h] == c1);
    let cl = call_close(p, m, 3);
    ok = ok && cl == 0;
    let path = put_cstr(m, PATH_AT, "hello3");
    proof {
        lemma_lowest_free(p.file_struct@, 3);
    }
    let fd = call_open(p, m, path, 2);
    ok = ok && fd >= 0;
    assert(entry(p.file_struct@, 3) == opened(m0, "hello3", FileMode::ReadWrite, 0));
    assert(file_slice(c1, 0, 7) =~= bytes_of("Awesome"));
    let n = call_read_file(p, m, 3, buf, 7);
    ok = ok && n == 7;
    assert(m@.mem.subrange(BUF_AT as int, BUF_AT + 7) =~= bytes_of("Awesome"));
    ok = ok && mem_holds(m, BUF_AT, "Awesome");
    let s = call_seek(p, m, 3, 0, 0);
    ok = ok && s == 0;
    let data = put_str(m, DATA_AT, "Welcome");
    let w = call_write_file(p, m, 3, data, 7);
    ok = ok && w == 7;
    assert(write_content(c1, 0, bytes_of("Welcome")) =~= c);
    assert(m@.contents =~= m0.contents);
    let cl = call_close(p, m, 3);
    ok = ok && cl == 0;
    assert(p.file_struct@ =~= fresh_table().push(None));
    ok
}

/// Checks the offset of `hello4` when it is opened, after 7 bytes are read,
/// and after a seek back to the start.
pub fn tell_basic(p: &mut Process, m: &mut Machine) -> (passed: bool)
    requires
        ready(old(p).file_struct@, old(m)@),
        old(m)@.lookup(bytes_of("hello4")) is Some,
        starts_with(old(m)@.contents[file_named(old(m)@, "hello4")], "Welcome"),
    ensures
        passed,
        final(p).file_struct@ == fresh_table().push(opened(old(m)@, "hello4", FileMode::ReadWrite, 0)),
{
    proof {
        reveal_strlit("hello4");
        reveal_strlit("Welcome");
        broadcast use vstd::string::is_ascii_spec_bytes;
        assert(vstd::string::is_ascii("hello4"));
        assert(vstd::string::is_ascii("Welcome"));
    }
    let ghost m0 = m@;
    let ghost h = file_named(m0, "hello4");
    let ghost c = m0.contents[h];
    proof {
        lemma_lookup_name(m0.names, bytes_of("hello4"));
    }
    let path = put_cstr(m, PATH_AT, "hello4");
    proof {
        lemma_lowest_free(p.file_struct@, 3);
    }
    let fd = call_open(p, m, path, 2);
    let mut ok = fd >= 0;
    let t = call_tell(p, m, 3);
    ok = ok && t == 0;
    let buf = m.mem.base + BUF_AT;
    assert(file_slice(c, 0, 7) == c.subrange(0, 7));
    let n = call_read_file(p, m, 3, buf, 7);
    ok = ok && n == 7;
    assert(m@.mem.subrange(BUF_AT as int, BUF_AT + 7) =~= bytes_of("Welcome"));
    ok = ok && mem_holds(m, BUF_AT, "Welcome");
    let t = call_tell(p, m, 3);
    ok = ok && t == 7;
    let s = call_seek(p, m, 3, 0, 0);
    ok = ok && s == 0;
    let t = call_tell(p, m, 3);
    ok = ok && t == 0;
    assert(p.file_struct@ =~= fresh_table().push(opened(m0, "hello4", FileMode::ReadWrite, 0)));
    ok
}

/// Writes 7 bytes to `hello4`, which holds 140, and checks the offset after
/// the write and after a seek to the end.
pub fn tell_write(p: &mut Process, m: &mut Machine) -> (passed: bool)
    requires
        ready(old(p).file_struct@, old(m)@),
        old(m)@.lookup(bytes_of("hello4")) is Some,
        old(m)@.contents[file_named(old(m)@, "hello4")].len() == 140,
    ensures
        passed,
        final(p).file_struct@ == fresh_table().push(opened(old(m)@, "hello4", FileMode::ReadWrite, 140)),
        final(m)@.contents == old(m)@.contents.update(
            file_named(old(m)@, "hello4"),
            write_content(old(m)@.contents[file_named(old(m)@, "hello4")], 0, bytes_of("Awesome")),
        ),
{
    proof {
        reveal_strlit("hello4");
        reveal_strlit("Awesome");
        broadcast use vstd::string::is_ascii_spec_bytes;
        assert(vstd::string::is_ascii("hello4"));
        assert(vstd::string::is_ascii("Awesome"));
    }
    let ghost m0 = m@;
    let ghost h = file_named(m0, "hello4");
    let ghost c = m0.contents[h];
    proof {
        lemma_lookup_name(m0.names, bytes_of("hello4"));
    }
    let path = put_cstr(m, PATH_AT, "hello4");
    proof {
        lemma_lowest_free(p.file_struct@, 3);
    }
    let fd = call_open(p, m, path, 2);
    let mut ok = fd >= 0;
    let data = put_str(m, DATA_AT, "Awesome");
    let w = call_write_file(p, m, 3, data, 7);
    ok = ok && w == 7;
    let ghost c1 = write_content(c, 0, bytes_of("Awesome"));
    assert(m@.contents[h] == c1);
    assert(c1.len() == 140);
    let t = call_tell(p, m, 3);
    ok = ok && t == 7;
    let s = call_seek(p, m, 3, 0, 2);
    ok = ok && s == 140;
    let t = call_tell(p, m, 3);
    ok = ok && t == 140;
    assert(p.file_struct@ =~= fresh_table().push(opened(m0, "hello4", FileMode::ReadWrite, 140)));
    ok
}

/// Reads standard input, which holds `Hello, World`, in two parts, and then
/// finds its end; nothing is written to the terminal.
pub fn stdio_partial(p: &mut Process, m: &mut Machine) -> (passed: bool)
    requires
        ready(old(p).file_struct@, old(m)@),
        old(m)@.tty_input.subrange(old(m)@.tty_consumed, old(m)@.tty_input.len() as int)
            == bytes_of("Hello, World"),
    ensures
        passed,
        final(p).file_struct@ == fresh_table(),
        final(m)@.tty_output == old(m)@.tty_output,
        final(m)@.tty_consumed == final(m)@.tty_input.len(),
{
    proof {
        reveal_strlit("Hello, World");
        reveal_strlit("Hello");
        reveal_strlit(", World");
        broadcast use vstd::string::is_ascii_spec_bytes;
        assert(vstd::string::is_ascii("Hello, World"));
        assert(vstd::string::is_ascii("Hello"));
        assert(vstd::string::is_ascii(", World"));
    }
    let ghost m0 = m@;
    let ghost input = bytes_of("Hello, World");
    let small = m.mem.base + BUF_AT;
    let n = call_read_tty(p, m, 0, small, 5);
    let mut ok = n == 5;
    assert(m@.mem.subrange(BUF_AT as int, BUF_AT + 5) =~= input.take(5));
    assert(input.take(5) =~= bytes_of("Hello"));
    ok = ok && mem_holds(m, BUF_AT, "Hello");
    let next = m.mem.base + BUF_AT + 64;
    assert(m@.tty_input.subrange(m@.tty_consumed, m@.tty_input.len() as int) =~= input.skip(5));
    let n = call_read_tty(p, m, 0, next, 7);
    ok = ok && n == 7;
    assert(m@.mem.subrange(BUF_AT + 64, BUF_AT + 64 + 7) =~= input.skip(5).take(7));
    assert(input.skip(5).take(7) =~= bytes_of(", World"));
    ok = ok && mem_holds(m, BUF_AT + 64, ", World");
    let n = call_read_tty(p, m, 0, small, 4);
    ok = ok && n == 0;
    ok
}

/// Writes nothing to standard output: the write succeeds with 0, and the
/// terminal shows nothing new.
pub fn stdout_empty(p: &mut Process, m: &mut Machine) -> (passed: bool)
    requires
        ready(old(p).file_struct@, old(m)@),
    ensures
        passed,
        final(p).file_struct@ == fresh_table(),
        final(m)@ == old(m)@,
{
    let data = m.mem.base + DATA_AT;
    let w = call_write_tty(p, m, 1, data, 0);
    assert(m@.tty_output =~= m@.tty_output + Seq::<u8>::empty());
    w == 0
}

/// Writes nothing to standard error: the write succeeds with 0, and the
/// terminal shows nothing new.
pub fn stderr_empty(p: &mut Process, m: &mut Machine) -> (passed: bool)
    requires
        ready(old(p).file_struct@, old(m)@),
    ensures
        passed,
        final(p).file_struct@ == fresh_table(),
        final(m)@ == old(m)@,
{
    let data = m.mem.base + DATA_AT;
    let w = call_write_tty(p, m, 2, data, 0);
    assert(m@.tty_output =~= m@.tty_output + Seq::<u8>::empty());
    w == 0
}

/// Creates a pipe on a new process and returns the descriptors that it
/// stores in user memory: 3 for the read end and 4 for the write end.
fn open_pipe(p: &mut Process, m: &mut Machine) -> (fds: (i32, i32))
    requires
        ready(old(p).file_struct@, old(m)@),
    ensures
        fds == (3i32, 4i32),
        table_ok(final(p).file_struct@, final(m)@),
        final(m).wf(),
        final(m)@.pipes.len() + 1 < usize::MAX,
        final(m)@.mem.len() == old(m)@.mem.len(),
        final(p).file_struct@ == fresh_table() + seq![
            Some(rx_file(old(m)@.pipes.len() as int)),
            Some(tx_file(old(m)@.pipes.len() as int)),
        ],
        final(m)@ == (MachineView {
            pipes: old(m)@.pipes.push(PipeView { buffer: Seq::empty(), reader_open: true, writer_open: true }),
            mem: final(m)@.mem,
            ..old(m)@
        }),
{
    let ghost m0 = m@;
    let ghost pi = m0.pipes.len() as int;
    let fds = m.mem.base + FDS_AT;
    let ghost t0 = p.file_struct@;
    proof {
        lemma_lowest_free(t0, 3);
        lemma_lowest_free(install(t0, 3, rx_file(pi)), 4);
    }
    let r = call_pipe(p, m, fds);
    assert(m@.mem.subrange(FDS_AT as int, FDS_AT + 4) =~= u32_le(3u32));
    assert(m@.mem.subrange(FDS_AT + 4, FDS_AT + 8) =~= u32_le(4u32));
    let pair = match m.mem.load(fds, 8) {
        Ok(v) => {
            proof {
                lemma_u32_roundtrip(3u32);
                lemma_u32_roundtrip(4u32);
                assert(le_u32(v@, 0) == le_u32(u32_le(3u32), 0));
                assert(le_u32(v@, 4) == le_u32(u32_le(4u32), 0));
            }
            (read_u32(v.as_slice(), 0) as i32, read_u32(v.as_slice(), 4) as i32)
        },
        Err(_) => (-1i32, -1i32),
    };
    assert(p.file_struct@ =~= fresh_table() + seq![Some(rx_file(pi)), Some(tx_file(pi))]);
    pair
}

/// Creates a pipe, writes `Hello, keos!` to its write end and reads the
/// same 12 bytes from its read end.
pub fn pipe_normal(p: &mut Process, m: &mut Machine) -> (passed: bool)
    requires
        ready(old(p).file_struct@, old(m)@),
    ensures
        passed,
        final(p).file_struct@ == fresh_table() + seq![
            Some(rx_file(old(m)@.pipes.len() as int)),
            Some(tx_file(old(m)@.pipes.len() as int)),
        ],
        final(m)@.pipes == old(m)@.pipes.push(PipeView { buffer: Seq::empty(), reader_open: true, writer_open: true }),
{
    proof {
        reveal_strlit("Hello, keos!");
        broadcast use vstd::string::is_ascii_spec_bytes;
        assert(vstd::string::is_ascii("Hello, keos!"));
    }
    let ghost m0 = m@;
    let ghost pi = m0.pipes.len() as int;
    let (fd0, fd1) = open_pipe(p, m);
    let mut ok = fd0 >= 0 && fd1 >= 0 && fd0 != fd1;
    let data = put_str(m, DATA_AT, "Hello, keos!");
    assert(entry(p.file_struct@, 4) == Some(tx_file(pi)));
    let w = call_write_pipe(p, m, fd1 as usize, data, 12);
    ok = ok && w == 12;
    assert(m@.pipes[pi].buffer =~= bytes_of("Hello, keos!"));
    assert(entry(p.file_struct@, 3) == Some(rx_file(pi)));
    let buf = m.mem.base + BUF_AT;
    let n = call_read_pipe(p, m, fd0 as usize, buf, 12);
    ok = ok && n == 12;
    assert(m@.mem.subrange(BUF_AT as int, BUF_AT + 12) =~= bytes_of("Hello, keos!"));
    ok = ok && mem_holds(m, BUF_AT, "Hello, keos!");
    assert(m@.pipes[pi].buffer =~= Seq::<u8>::empty());
    assert(m@.pipes[pi] == PipeView { buffer: Seq::empty(), reader_open: true, writer_open: true });
    assert(m@.pipes =~= m0.pipes.push(PipeView { buffer: Seq::empty(), reader_open: true, writer_open: true }));
    ok
}

/// The call of system call `no` with arguments `a1` to `a3`.
pub open spec fn call3(no: usize, a1: usize, a2: usize, a3: usize) -> SyscallAbi {
    SyscallAbi { sysno: no, arg1: a1, arg2: a2, arg3: a3, arg4: 0, arg5: 0, arg6: 0 }
}

/// Issues system call `no` with arguments `a1` to `a3`, which fails with
/// `e` and changes nothing, and tells whether `rax` holds `e`.
fn call_fails(p: &mut Process, m: &mut Machine, no: usize, a1: usize, a2: usize, a3: usize, e: KernelError) -> (ok: bool)
    requires
        table_ok(old(p).file_struct@, old(m)@),
        old(m).wf(),
        completes(old(p).file_struct@, old(m)@, call3(no, a1, a2, a3)),
        dispatch_spec(old(p).file_struct@, old(m)@, call3(no, a1, a2, a3)) == fail(
            old(p).file_struct@,
            old(m)@,
            e,
        ),
    ensures
        ok,
        table_ok(final(p).file_struct@, final(m)@),
        final(m).wf(),
        final(p).file_struct@ == old(p).file_struct@,
        final(m)@ == old(m)@,
{
    let rax = syscall3(p, m, no, a1, a2, a3);
    rax == e.into_usize()
}

/// The descriptor `-1`, as a system call argument.
pub const NO_FD: usize = !0usize;

/// Descriptor argument [`NO_FD`] names descriptor `-1`.
proof fn lemma_no_fd()
    ensures
        fd_number(NO_FD) == -1,
{
    let x: usize = NO_FD;
    assert(x as i32 == -1i32) by (bit_vector)
        requires
            x == !0usize,
    ;
}

/// Opens `nonexistant`, opens with a null path and opens `hello` with mode
/// 9999: each fails, with [`KernelError::NoSuchEntry`],
/// [`KernelError::BadAddress`] and [`KernelError::InvalidArgument`].
pub fn open_invalid(p: &mut Process, m: &mut Machine) -> (passed: bool)
    requires
        ready(old(p).file_struct@, old(m)@),
        old(m)@.lookup(bytes_of("hello")) is Some,
        old(m)@.lookup(bytes_of("nonexistant")) is None,
    ensures
        passed,
        final(p).file_struct@ == fresh_table(),
        final(m)@.contents == old(m)@.contents,
        final(m)@ == (MachineView {
            mem: splice(
                splice(old(m)@.mem, PATH_AT as int, bytes_of("nonexistant").push(0)),
                PATH_AT as int,
                bytes_of("hello").push(0),
            ),
            ..old(m)@
        }),
{
    proof {
        reveal_strlit("hello");
        reveal_strlit("nonexistant");
        broadcast use vstd::string::is_ascii_spec_bytes;
        assert(vstd::string::is_ascii("hello"));
        assert(vstd::string::is_ascii("nonexistant"));
    }
    let ghost m0 = m@;
    let path = put_cstr(m, PATH_AT, "nonexistant");
    assert(m@.lookup(bytes_of("nonexistant")) == m0.lookup(bytes_of("nonexistant")));
    let mut ok = call_fails(p, m, 1, path, 0, 0, KernelError::NoSuchEntry);
    proof {
        lemma_cstr_below(m@.mem, m@.mem_base, 0);
    }
    ok = ok && call_fails(p, m, 1, 0, 0, 0, KernelError::BadAddress);
    let path = put_cstr(m, PATH_AT, "hello");
    ok = ok && call_fails(p, m, 1, path, 9999, 0, KernelError::InvalidArgument);
    ok
}

/// Reads through descriptor `-1`: [`KernelError::BadFileDescriptor`].
pub fn read_error_bad_fd(p: &mut Process, m: &mut Machine) -> (passed: bool)
    requires
        ready(old(p).file_struct@, old(m)@),
    ensures
        passed,
        final(p).file_struct@ == old(p).file_struct@,
        final(m)@ == old(m)@,
{
    proof {
        lemma_no_fd();
    }
    let buf = m.mem.base + BUF_AT;
    call_fails(p, m, 2, NO_FD, buf, 10, KernelError::BadFileDescriptor)
}

/// Reads from `hello` opened for writing only:
/// [`KernelError::InvalidArgument`].
pub fn read_error_bad_mode(p: &mut Process, m: &mut Machine) -> (passed: bool)
    requires
        ready(old(p).file_struct@, old(m)@),
        old(m)@.lookup(bytes_of("hello")) is Some,
    ensures
        passed,
        final(p).file_struct@ == fresh_table().push(opened(old(m)@, "hello", FileMode::Write, 0)),
        final(m)@.contents == old(m)@.contents,
{
    proof {
        reveal_strlit("hello");
        broadcast use vstd::string::is_ascii_spec_bytes;
        assert(vstd::string::is_ascii("hello"));
    }
    let ghost m0 = m@;
    let path = put_cstr(m, PATH_AT, "hello");
    assert(m@.lookup(bytes_of("hello")) == m0.lookup(bytes_of("hello")));
    proof {
        lemma_lowest_free(p.file_struct@, 3);
    }
    let fd = call_open(p, m, path, 1);
    let mut ok = fd >= 0;
    let buf = m.mem.base + BUF_AT;
    ok = ok && call_fails(p, m, 2, fd as usize, buf, 24, KernelError::InvalidArgument);
    assert(p.file_struct@ =~= fresh_table().push(opened(m0, "hello", FileMode::Write, 0)));
    ok
}

/// Reads from `hello` into a null buffer: [`KernelError::BadAddress`].
pub fn read_error_bad_address(p: &mut Process, m: &mut Machine) -> (passed: bool)
    requires
        ready(old(p).file_struct@, old(m)@),
        old(m)@.lookup(bytes_of("hello")) is Some,
    ensures
        passed,
        final(p).file_struct@ == fresh_table().push(opened(old(m)@, "hello", FileMode::Read, 0)),
        final(m)@.contents == old(m)@.contents,
{
    proof {
        reveal_strlit("hello");
        broadcast use vstd::string::is_ascii_spec_bytes;
        assert(vstd::string::is_ascii("hello"));
    }
    let ghost m0 = m@;
    let path = put_cstr(m, PATH_AT, "hello");
    assert(m@.lookup(bytes_of("hello")) == m0.lookup(bytes_of("hello")));
    proof {
        lemma_lowest_free(p.file_struct@, 3);
    }
    let fd = call_open(p, m, path, 0);
    let mut ok = fd >= 0;
    ok = ok && call_fails(p, m, 2, fd as usize, 0, 10, KernelError::BadAddress);
    assert(p.file_struct@ =~= fresh_table().push(opened(m0, "hello", FileMode::Read, 0)));
    ok
}

/// Writes through descriptor `-1`: [`KernelError::BadFileDescriptor`].
pub fn write_error_bad_fd(p: &mut Process, m: &mut Machine) -> (passed: bool)
    requires
        ready(old(p).file_struct@, old(m)@),
    ensures
        passed,
        final(p).file_struct@ == old(p).file_struct@,
        final(m)@ == old(m)@,
{
    proof {
        lemma_no_fd();
    }
    let buf = m.mem.base + BUF_AT;
    call_fails(p, m, 3, NO_FD, buf, 10, KernelError::BadFileDescriptor)
}

/// Writes to `hello` opened for reading only:
/// [`KernelError::InvalidArgument`], and the file is unchanged.
pub fn write_error_bad_mode(p: &mut Process, m: &mut Machine) -> (passed: bool)
    requires
        ready(old(p).file_struct@, old(m)@),
        old(m)@.lookup(bytes_of("hello")) is Some,
    ensures
        passed,
        final(p).file_struct@ == fresh_table().push(opened(old(m)@, "hello", FileMode::Read, 0)),
        final(m)@.contents == old(m)@.contents,
{
    proof {
        reveal_strlit("hello");
        broadcast use vstd::string::is_ascii_spec_bytes;
        assert(vstd::string::is_ascii("hello"));
    }
    let ghost m0 = m@;
    let path = put_cstr(m, PATH_AT, "hello");
    assert(m@.lookup(bytes_of("hello")) == m0.lookup(bytes_of("hello")));
    proof {
        lemma_lowest_free(p.file_struct@, 3);
    }
    let fd = call_open(p, m, path, 0);
    let mut ok = fd >= 0;
    let buf = m.mem.base + BUF_AT;
    ok = ok && call_fails(p, m, 3, fd as usize, buf, 24, KernelError::InvalidArgument);
    assert(p.file_struct@ =~= fresh_table().push(opened(m0, "hello", FileMode::Read, 0)));
    ok
}

/// Writes to `hello` from a null buffer: [`KernelError::BadAddress`].
pub fn write_error_bad_address(p: &mut Process, m: &mut Machine) -> (passed: bool)
    requires
        ready(old(p).file_struct@, old(m)@),
        old(m)@.lookup(bytes_of("hello")) is Some,
    ensures
        passed,
        final(p).file_struct@ == fresh_table().push(opened(old(m)@, "hello", FileMode::Write, 0)),
        final(m)@.contents == old(m)@.contents,
{
    proof {
        reveal_strlit("hello");
        broadcast use vstd::string::is_ascii_spec_bytes;
        assert(vstd::string::is_ascii("hello"));
    }
    let ghost m0 = m@;
    let path = put_cstr(m, PATH_AT, "hello");
    assert(m@.lookup(bytes_of("hello")) == m0.lookup(bytes_of("hello")));
    proof {
        lemma_lowest_free(p.file_struct@, 3);
    }
    let fd = call_open(p, m, path, 1);
    let mut ok = fd >= 0;
    ok = ok && call_fails(p, m, 3, fd as usize, 0, 10, KernelError::BadAddress);
    assert(p.file_struct@ =~= fresh_table().push(opened(m0, "hello", FileMode::Write, 0)));
    ok
}

/// Opens `hello` for reading and returns its descriptor, 3.
fn open_hello(p: &mut Process, m: &mut Machine, mode: usize) -> (fd: isize)
    requires
        ready(old(p).file_struct@, old(m)@),
        old(m)@.lookup(bytes_of("hello")) is Some,
        mode <= 2,
    ensures
        fd == 3,
        table_ok(final(p).file_struct@, final(m)@),
        final(m).wf(),
        final(m)@.mem.len() == old(m)@.mem.len(),
        final(m)@ == (MachineView { mem: final(m)@.mem, ..old(m)@ }),
        final(p).file_struct@ == fresh_table().push(opened(old(m)@, "hello", mode_of(mode), 0)),
{
    proof {
        reveal_strlit("hello");
        broadcast use vstd::string::is_ascii_spec_bytes;
        assert(vstd::string::is_ascii("hello"));
    }
    let ghost m0 = m@;
    let path = put_cstr(m, PATH_AT, "hello");
    assert(m@.lookup(bytes_of("hello")) == m0.lookup(bytes_of("hello")));
    proof {
        lemma_lowest_free(p.file_struct@, 3);
    }
    let fd = call_open(p, m, path, mode);
    assert(p.file_struct@ =~= fresh_table().push(opened(m0, "hello", mode_of(mode), 0)));
    fd
}

/// Seeks `hello` to its start, reads `Welcome to KeOS Project!` and closes
/// it.
pub fn seek_begin(p: &mut Process, m: &mut Machine) -> (passed: bool)
    requires
        ready(old(p).file_struct@, old(m)@),
        old(m)@.lookup(bytes_of("hello")) is Some,
        starts_with(old(m)@.contents[file_named(old(m)@, "hello")], "Welcome to KeOS Project!"),
    ensures
        passed,
        final(p).file_struct@ == fresh_table().push(None),
        final(m)@.contents == old(m)@.contents,
{
    proof {
        reveal_strlit("Welcome to KeOS Project!");
        broadcast use vstd::string::is_ascii_spec_bytes;
        assert(vstd::string::is_ascii("Welcome to KeOS Project!"));
    }
    let ghost m0 = m@;
    let ghost c = m0.contents[file_named(m0, "hello")];
    proof {
        lemma_lookup_name(m0.names, bytes_of("hello"));
    }
    let fd = open_hello(p, m, 0);
    let mut ok = fd >= 0;
    let s = call_seek(p, m, 3, 0, 0);
    ok = ok && s == 0;
    let buf = m.mem.base + BUF_AT;
    assert(file_slice(c, 0, 24) == c.subrange(0, 24));
    let n = call_read_file(p, m, 3, buf, 24);
    ok = ok && n == 24;
    assert(m@.mem.subrange(BUF_AT as int, BUF_AT + 24) =~= bytes_of("Welcome to KeOS Project!"));
    ok = ok && mem_holds(m, BUF_AT, "Welcome to KeOS Project!");
    let cl = call_close(p, m, 3);
    ok = ok && cl == 0;
    assert(p.file_struct@ =~= fresh_table().push(None));
    ok
}

/// The offset `-13`, as a system call argument.
pub const BACK_13: usize = !12usize;

/// Reads 24 bytes of `hello`, finds the offset at 24, seeks 13 bytes back
/// to 11 and reads the 4 bytes `KeOS` over the start of the buffer.
pub fn seek_current(p: &mut Process, m: &mut Machine) -> (passed: bool)
    requires
        ready(old(p).file_struct@, old(m)@),
        old(m)@.lookup(bytes_of("hello")) is Some,
        starts_with(old(m)@.contents[file_named(old(m)@, "hello")], "Welcome to KeOS Project!"),
    ensures
        passed,
        final(p).file_struct@ == fresh_table().push(None),
        final(m)@.contents == old(m)@.contents,
{
    proof {
        reveal_strlit("Welcome to KeOS Project!");
        reveal_strlit("KeOSome to KeOS Project!");
        broadcast use vstd::string::is_ascii_spec_bytes;
        assert(vstd::string::is_ascii("Welcome to KeOS Project!"));
        assert(vstd::string::is_ascii("KeOSome to KeOS Project!"));
        let x: usize = BACK_13;
        assert(x as isize == -13isize) by (bit_vector)
            requires
                x == !12usize,
        ;
    }
    let ghost m0 = m@;
    let ghost c = m0.contents[file_named(m0, "hello")];
    proof {
        lemma_lookup_name(m0.names, bytes_of("hello"));
    }
    let fd = open_hello(p, m, 0);
    let mut ok = fd >= 0;
    let buf = m.mem.base + BUF_AT;
    assert(file_slice(c, 0, 24) == c.subrange(0, 24));
    let n = call_read_file(p, m, 3, buf, 24);
    ok = ok && n == 24;
    let s = call_seek(p, m, 3, 0, 1);
    ok = ok && s == 24;
    let s = call_seek(p, m, 3, BACK_13, 1);
    ok = ok && s == 11;
    assert(file_slice(c, 11, 4) == c.subrange(11, 15));
    let ghost mem1 = m@.mem;
    let n = call_read_file(p, m, 3, buf, 4);
    ok = ok && n == 4;
    assert(m@.mem.subrange(BUF_AT as int, BUF_AT + 24) =~= c.subrange(11, 15) + c.subrange(4, 24));
    assert(c.subrange(11, 15) =~= bytes_of("Welcome to KeOS Project!").subrange(11, 15));
    assert(c.subrange(4, 24) =~= bytes_of("Welcome to KeOS Project!").subrange(4, 24));
    assert(bytes_of("KeOSome to KeOS Project!") =~= bytes_of("Welcome to KeOS Project!").subrange(11, 15)
        + bytes_of("Welcome to KeOS Project!").subrange(4, 24));
    ok = ok && mem_holds(m, BUF_AT, "KeOSome to KeOS Project!");
    let cl = call_close(p, m, 3);
    ok = ok && cl == 0;
    assert(p.file_struct@ =~= fresh_table().push(None));
    ok
}

/// The offset `-16`, as a system call argument.
pub const BACK_16: usize = !15usize;

/// Seeks `hello` to 16 bytes before its end, checks the offset against the
/// file's size, and closes it.
pub fn seek_end(p: &mut Process, m: &mut Machine) -> (passed: bool)
    requires
        ready(old(p).file_struct@, old(m)@),
        old(m)@.lookup(bytes_of("hello")) is Some,
        16 <= old(m)@.contents[file_named(old(m)@, "hello")].len() <= isize::MAX,
    ensures
        passed,
        final(p).file_struct@ == fresh_table().push(None),
        final(m)@.contents == old(m)@.contents,
{
    proof {
        reveal_strlit("hello");
        let x: usize = BACK_16;
        assert(x as isize == -16isize) by (bit_vector)
            requires
                x == !15usize,
        ;
    }
    let ghost m0 = m@;
    proof {
        lemma_lookup_name(m0.names, bytes_of("hello"));
    }
    let fd = open_hello(p, m, 0);
    let mut ok = fd >= 0;
    let s = call_seek(p, m, 3, BACK_16, 2);
    let size = match m.lookup("hello".as_bytes()) {
        Some(i) => m.contents[i].len(),
        None => 0,
    };
    ok = ok && size >= 16 && s as usize == size - 16;
    let cl = call_close(p, m, 3);
    ok = ok && cl == 0;
    assert(p.file_struct@ =~= fresh_table().push(None));
    ok
}

/// Seeks `hello` to offset 3000, past its end, where a read finds nothing.
pub fn seek_beyond_eof(p: &mut Process, m: &mut Machine) -> (passed: bool)
    requires
        ready(old(p).file_struct@, old(m)@),
        old(m)@.lookup(bytes_of("hello")) is Some,
        old(m)@.contents[file_named(old(m)@, "hello")].len() <= 3000,
    ensures
        passed,
        final(p).file_struct@ == fresh_table().push(None),
        final(m)@.contents == old(m)@.contents,
{
    let ghost m0 = m@;
    proof {
        reveal_strlit("hello");
        lemma_lookup_name(m0.names, bytes_of("hello"));
    }
    let fd = open_hello(p, m, 0);
    let mut ok = fd >= 0;
    let s = call_seek(p, m, 3, 3000, 0);
    ok = ok && s == 3000;
    let buf = m.mem.base + BUF_AT;
    let n = call_read_file(p, m, 3, buf, 10);
    ok = ok && n == 0;
    let cl = call_close(p, m, 3);
    ok = ok && cl == 0;
    assert(p.file_struct@ =~= fresh_table().push(None));
    ok
}

/// Seeks standard input, output and error: each is
/// [`KernelError::InvalidArgument`].
pub fn seek_error_stdio(p: &mut Process, m: &mut Machine) -> (passed: bool)
    requires
        ready(old(p).file_struct@, old(m)@),
    ensures
        passed,
        final(p).file_struct@ == old(p).file_struct@,
        final(m)@ == old(m)@,
{
    let mut ok = call_fails(p, m, 4, 0, 0, 0, KernelError::InvalidArgument);
    ok = ok && call_fails(p, m, 4, 1, 0, 0, KernelError::InvalidArgument);
    ok = ok && call_fails(p, m, 4, 2, 0, 0, KernelError::InvalidArgument);
    ok
}

/// Seeks descriptor `-1` from the start, the offset and the end: each is
/// [`KernelError::BadFileDescriptor`].
pub fn seek_error_bad_fd(p: &mut Process, m: &mut Machine) -> (passed: bool)
    requires
        ready(old(p).file_struct@, old(m)@),
    ensures
        passed,
        final(p).file_struct@ == old(p).file_struct@,
        final(m)@ == old(m)@,
{
    proof {
        lemma_no_fd();
    }
    let mut ok = call_fails(p, m, 4, NO_FD, 0, 0, KernelError::BadFileDescriptor);
    ok = ok && call_fails(p, m, 4, NO_FD, 0, 1, KernelError::BadFileDescriptor);
    ok = ok && call_fails(p, m, 4, NO_FD, 0, 2, KernelError::BadFileDescriptor);
    ok
}

/// Seeks `hello` with `whence` 3: [`KernelError::InvalidArgument`].
pub fn seek_error_bad_whence(p: &mut Process, m: &mut Machine) -> (passed: bool)
    requires
        ready(old(p).file_struct@, old(m)@),
        old(m)@.lookup(bytes_of("hello")) is Some,
    ensures
        passed,
        final(p).file_struct@ == fresh_table().push(opened(old(m)@, "hello", FileMode::Read, 0)),
        final(m)@.contents == old(m)@.contents,
{
    let fd = open_hello(p, m, 0);
    let mut ok = fd >= 0;
    ok = ok && call_fails(p, m, 4, 3, 0, 3, KernelError::InvalidArgument);
    ok
}

/// Asks the offset of standard input, output and error: each is
/// [`KernelError::InvalidArgument`].
pub fn tell_error_stdio(p: &mut Process, m: &mut Machine) -> (passed: bool)
    requires
        ready(old(p).file_struct@, old(m)@),
    ensures
        passed,
        final(p).file_struct@ == old(p).file_struct@,
        final(m)@ == old(m)@,
{
    let mut ok = call_fails(p, m, 5, 0, 0, 0, KernelError::InvalidArgument);
    ok = ok && call_fails(p, m, 5, 1, 0, 0, KernelError::InvalidArgument);
    ok = ok && call_fails(p, m, 5, 2, 0, 0, KernelError::InvalidArgument);
    ok
}

/// Asks the offset of descriptor 3123, which is not open:
/// [`KernelError::BadFileDescriptor`].
pub fn tell_error_bad_fd(p: &mut Process, m: &mut Machine) -> (passed: bool)
    requires
        ready(old(p).file_struct@, old(m)@),
    ensures
        passed,
        final(p).file_struct@ == old(p).file_struct@,
        final(m)@ == old(m)@,
{
    call_fails(p, m, 5, 3123, 0, 0, KernelError::BadFileDescriptor)
}

/// The bytes typed at the terminal and not read yet.
pub open spec fn pending_input(m: MachineView) -> Seq<u8> {
    m.tty_input.subrange(m.tty_consumed, m.tty_input.len() as int)
}

/// Reads `KeOS is fun!` from standard input. A read into a null buffer is
/// [`KernelError::BadAddress`] and a write to standard input
/// [`KernelError::InvalidArgument`]; once the input is used up a read gives
/// 0 and leaves the buffer as it was.
pub fn stdio_normal(p: &mut Process, m: &mut Machine) -> (passed: bool)
    requires
        ready(old(p).file_struct@, old(m)@),
        pending_input(old(m)@) == bytes_of("KeOS is fun!"),
    ensures
        passed,
        final(p).file_struct@ == fresh_table(),
        final(m)@.tty_output == old(m)@.tty_output,
        final(m)@.tty_consumed == final(m)@.tty_input.len(),
{
    proof {
        reveal_strlit("KeOS is fun!");
        broadcast use vstd::string::is_ascii_spec_bytes;
        assert(vstd::string::is_ascii("KeOS is fun!"));
    }
    let buf = m.mem.base + BUF_AT;
    let n = call_read_tty(p, m, 0, buf, 12);
    let mut ok = n == 12;
    assert(m@.mem.subrange(BUF_AT as int, BUF_AT + 12) =~= bytes_of("KeOS is fun!"));
    ok = ok && mem_holds(m, BUF_AT, "KeOS is fun!");
    ok = ok && call_fails(p, m, 2, 0, 0, 12, KernelError::BadAddress);
    let zeros = m.mem.base + DATA_AT;
    ok = ok && call_fails(p, m, 3, 0, zeros, 12, KernelError::InvalidArgument);
    let ff = [0xffu8; 12];
    put(m, BUF_AT, ff.as_slice());
    let n = call_read_tty(p, m, 0, buf, 8);
    ok = ok && n == 0;
    assert(m@.mem.subrange(BUF_AT as int, BUF_AT + 12) =~= ff@);
    ok = ok && mem_has(m, BUF_AT, ff.as_slice());
    ok
}

/// Reading standard output is [`KernelError::InvalidArgument`]; writing
/// `Hello, keos!` to it gives 12 and shows the text on the terminal.
pub fn stdout_normal(p: &mut Process, m: &mut Machine) -> (passed: bool)
    requires
        ready(old(p).file_struct@, old(m)@),
    ensures
        passed,
        final(p).file_struct@ == fresh_table(),
        final(m)@.tty_output == old(m)@.tty_output + bytes_of("Hello, keos!"),
{
    proof {
        reveal_strlit("Hello, keos!");
        broadcast use vstd::string::is_ascii_spec_bytes;
        assert(vstd::string::is_ascii("Hello, keos!"));
    }
    let zeros = m.mem.base + DATA_AT;
    let mut ok = call_fails(p, m, 2, 1, zeros, 12, KernelError::InvalidArgument);
    let data = put_str(m, DATA_AT, "Hello, keos!");
    let w = call_write_tty(p, m, 1, data, 12);
    ok = ok && w == 12;
    ok
}

/// Writing to standard output from a null buffer is
/// [`KernelError::BadAddress`].
pub fn stdout_invalid(p: &mut Process, m: &mut Machine) -> (passed: bool)
    requires
        ready(old(p).file_struct@, old(m)@),
    ensures
        passed,
        final(p).file_struct@ == old(p).file_struct@,
        final(m)@ == old(m)@,
{
    call_fails(p, m, 3, 1, 0, 12, KernelError::BadAddress)
}

/// Reading standard error is [`KernelError::InvalidArgument`]; writing
/// `Hello, keos!` to it gives 12 and shows the text on the terminal.
pub fn stderr_normal(p: &mut Process, m: &mut Machine) -> (passed: bool)
    requires
        ready(old(p).file_struct@, old(m)@),
    ensures
        passed,
        final(p).file_struct@ == fresh_table(),
        final(m)@.tty_output == old(m)@.tty_output + bytes_of("Hello, keos!"),
{
    proof {
        reveal_strlit("Hello, keos!");
        broadcast use vstd::string::is_ascii_spec_bytes;
        assert(vstd::string::is_ascii("Hello, keos!"));
    }
    let zeros = m.mem.base + DATA_AT;
    let mut ok = call_fails(p, m, 2, 2, zeros, 12, KernelError::InvalidArgument);
    let data = put_str(m, DATA_AT, "Hello, keos!");
    let w = call_write_tty(p, m, 2, data, 12);
    ok = ok && w == 12;
    ok
}

/// Writing to standard error from a null buffer is
/// [`KernelError::BadAddress`].
pub fn stderr_invalid(p: &mut Process, m: &mut Machine) -> (passed: bool)
    requires
        ready(old(p).file_struct@, old(m)@),
    ensures
        passed,
        final(p).file_struct@ == old(p).file_struct@,
        final(m)@ == old(m)@,
{
    call_fails(p, m, 3, 2, 0, 12, KernelError::BadAddress)
}

/// Closes a descriptor of `hello`, after which reading, writing and closing
/// it again are [`KernelError::BadFileDescriptor`], as is closing
/// descriptor 9222. Standard input, output and error work until they are
/// closed and are bad descriptors after: 7 bytes read from standard input
/// are written to standard error before it is closed.
pub fn close(p: &mut Process, m: &mut Machine) -> (passed: bool)
    requires
        ready(old(p).file_struct@, old(m)@),
        old(m)@.lookup(bytes_of("hello")) is Some,
        pending_input(old(m)@) == bytes_of("Awesome or not?"),
    ensures
        passed,
        final(p).file_struct@ == seq![None::<File>, None, None, None],
        final(m)@.tty_output == old(m)@.tty_output + bytes_of("Awesome"),
        final(m)@.contents == old(m)@.contents,
{
    proof {
        reveal_strlit("Awesome or not?");
        reveal_strlit("Awesome");
        broadcast use vstd::string::is_ascii_spec_bytes;
        assert(vstd::string::is_ascii("Awesome or not?"));
        assert(vstd::string::is_ascii("Awesome"));
    }
    let ghost m0 = m@;
    let fd = open_hello(p, m, 2);
    let mut ok = fd >= 0;
    let fd = fd as usize;
    let c = call_close(p, m, fd);
    ok = ok && c == 0;
    let buf = m.mem.base + BUF_AT;
    ok = ok && call_fails(p, m, 2, fd, buf, 24, KernelError::BadFileDescriptor);
    ok = ok && call_fails(p, m, 3, fd, buf, 24, KernelError::BadFileDescriptor);
    ok = ok && call_fails(p, m, 6, 9222, 0, 0, KernelError::BadFileDescriptor);
    let n = call_read_tty(p, m, 0, buf, 7);
    ok = ok && n == 7;
    assert(m@.mem.subrange(BUF_AT as int, BUF_AT + 7) =~= bytes_of("Awesome"));
    let c = call_close(p, m, 0);
    ok = ok && c == 0;
    ok = ok && call_fails(p, m, 2, 0, buf, 7, KernelError::BadFileDescriptor);
    let c = call_close(p, m, 1);
    ok = ok && c == 0;
    ok = ok && call_fails(p, m, 3, 1, buf, 7, KernelError::BadFileDescriptor);
    let w = call_write_tty(p, m, 2, buf, 7);
    ok = ok && w == 7;
    let c = call_close(p, m, 2);
    ok = ok && c == 0;
    ok = ok && call_fails(p, m, 3, 2, buf, 7, KernelError::BadFileDescriptor);
    assert(p.file_struct@ =~= seq![None::<File>, None, None, None]);
    ok
}

/// Creates a pipe, writes `Hello, keos!`, closes the write end, and reads
/// `Hello, ` and then the 5 bytes `keos!` that are left of 7 asked; the next
/// read finds the pipe empty and its writer gone:
/// [`KernelError::BrokenPipe`].
pub fn pipe_partial(p: &mut Process, m: &mut Machine) -> (passed: bool)
    requires
        ready(old(p).file_struct@, old(m)@),
    ensures
        passed,
        final(p).file_struct@ == fresh_table() + seq![Some(rx_file(old(m)@.pipes.len() as int)), None],
        final(m)@.pipes == old(m)@.pipes.push(PipeView { buffer: Seq::empty(), reader_open: true, writer_open: false }),
{
    proof {
        reveal_strlit("Hello, keos!");
        reveal_strlit("Hello, ");
        reveal_strlit("keos!");
        broadcast use vstd::string::is_ascii_spec_bytes;
        assert(vstd::string::is_ascii("Hello, keos!"));
        assert(vstd::string::is_ascii("Hello, "));
        assert(vstd::string::is_ascii("keos!"));
    }
    let ghost m0 = m@;
    let ghost pi = m0.pipes.len() as int;
    let ghost msg = bytes_of("Hello, keos!");
    let (fd0, fd1) = open_pipe(p, m);
    let mut ok = fd0 >= 0 && fd1 >= 0 && fd0 != fd1;
    let data = put_str(m, DATA_AT, "Hello, keos!");
    assert(entry(p.file_struct@, 4) == Some(tx_file(pi)));
    let w = call_write_pipe(p, m, fd1 as usize, data, 12);
    ok = ok && w == 12;
    assert(m@.pipes[pi].buffer =~= msg);
    let c = syscall3(p, m, 6, fd1 as usize, 0, 0);
    ok = ok && c == 0;
    assert(m@.pipes[pi] == PipeView { buffer: msg, reader_open: true, writer_open: false });
    assert(entry(p.file_struct@, 3) == Some(rx_file(pi)));
    let buf = m.mem.base + BUF_AT;
    let n = call_read_pipe(p, m, fd0 as usize, buf, 7);
    ok = ok && n == 7;
    assert(m@.mem.subrange(BUF_AT as int, BUF_AT + 7) =~= bytes_of("Hello, "));
    ok = ok && mem_holds(m, BUF_AT, "Hello, ");
    assert(m@.pipes[pi].buffer =~= msg.skip(7));
    let n = call_read_pipe(p, m, fd0 as usize, buf, 7);
    ok = ok && n == 5;
    assert(m@.mem.subrange(BUF_AT as int, BUF_AT + 5) =~= bytes_of("keos!"));
    ok = ok && mem_holds(m, BUF_AT, "keos!");
    assert(m@.pipes[pi].buffer =~= Seq::<u8>::empty());
    ok = ok && call_fails(p, m, 2, fd0 as usize, buf, 12, KernelError::BrokenPipe);
    assert(m@.pipes =~= m0.pipes.push(PipeView { buffer: Seq::empty(), reader_open: true, writer_open: false }));
    assert(p.file_struct@ =~= fresh_table() + seq![Some(rx_file(pi)), None]);
    ok
}

/// Writing to the read end of a pipe and reading from its write end are
/// both [`KernelError::InvalidArgument`].
pub fn pipe_error_bad_direction(p: &mut Process, m: &mut Machine) -> (passed: bool)
    requires
        ready(old(p).file_struct@, old(m)@),
    ensures
        passed,
        final(p).file_struct@ == fresh_table() + seq![
            Some(rx_file(old(m)@.pipes.len() as int)),
            Some(tx_file(old(m)@.pipes.len() as int)),
        ],
        final(m)@.pipes == old(m)@.pipes.push(PipeView { buffer: Seq::empty(), reader_open: true, writer_open: true }),
{
    let (fd0, fd1) = open_pipe(p, m);
    let mut ok = fd0 >= 0 && fd1 >= 0 && fd0 != fd1;
    let buf = m.mem.base + BUF_AT;
    ok = ok && call_fails(p, m, 3, fd0 as usize, buf, 8, KernelError::InvalidArgument);
    ok = ok && call_fails(p, m, 2, fd1 as usize, buf, 8, KernelError::InvalidArgument);
    ok
}

/// Creating a pipe whose descriptors go to a null pointer is
/// [`KernelError::BadAddress`].
pub fn pipe_error_bad_address(p: &mut Process, m: &mut Machine) -> (passed: bool)
    requires
        ready(old(p).file_struct@, old(m)@),
    ensures
        passed,
        final(p).file_struct@ == old(p).file_struct@,
        final(m)@ == old(m)@,
{
    call_fails(p, m, 7, 0, 0, 0, KernelError::BadAddress)
}

} // verus!
