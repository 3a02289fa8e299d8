//! The file state of a process: its table of file descriptors, and the
//! system calls that open, read, write, seek, tell, close and pipe through
//! it.
//!
//! Descriptors 0, 1 and 2 start out as standard input, output and error. A
//! new descriptor is always the lowest free one, and a process holds at most
//! [`MAX_OPEN_FILES`] of them.
use crate::bytes::u32_le;
use crate::error::KernelError;
use crate::machine::{file_slice, splice, write_content, Machine, MachineView, PipeView};
use crate::project1::syscall::SyscallAbi;
use vstd::prelude::*;

verus! {

/// How many descriptors a process can hold open at once: a new file is
/// refused only when more than 1024 are open already, so descriptors 0 to
/// 1024 can all be in use.
pub const MAX_OPEN_FILES: usize = 1025;

/// How a file was opened: for reading, for writing, or for both.
#[derive(Clone, Copy, Debug, PartialEq, Eq)]
pub enum FileMode {
    Read,
    Write,
    ReadWrite,
}

/// The number by which user space asks for each mode (`O_RDONLY`,
/// `O_WRONLY`, `O_RDWR`).
pub open spec fn mode_number(m: FileMode) -> usize {
    match m {
        FileMode::Read => 0,
        FileMode::Write => 1,
        FileMode::ReadWrite => 2,
    }
}

/// The mode with number `v`, for `v` at most 2.
pub open spec fn mode_of(v: usize) -> FileMode {
    if v == 0 {
        FileMode::Read
    } else if v == 1 {
        FileMode::Write
    } else {
        FileMode::ReadWrite
    }
}

impl FileMode {
    pub open spec fn readable(self) -> bool {
        self is Read || self is ReadWrite
    }

    pub open spec fn writable(self) -> bool {
        self is Write || self is ReadWrite
    }

    /// The mode with number `v`; [`KernelError::InvalidArgument`] for any
    /// other number.
    pub fn from_usize(v: usize) -> (r: Result<FileMode, KernelError>)
        ensures
            match r {
                Ok(m) => v <= 2 && m == mode_of(v) && mode_number(m) == v,
                Err(e) => e == KernelError::InvalidArgument && v > 2,
            },
    {
        match v {
            0 => Ok(FileMode::Read),
            1 => Ok(FileMode::Write),
            2 => Ok(FileMode::ReadWrite),
            _ => Err(KernelError::InvalidArgument),
        }
    }
}

/// What an open descriptor refers to.
#[derive(Clone, Copy, Debug, PartialEq, Eq)]
pub enum FileKind {
    /// A regular file of the root directory, by index, with the offset of
    /// the next read or write.
    RegularFile { file: usize, position: usize },
    /// The terminal: standard input, output or error.
    Stdio,
    /// The read end of a pipe, by index.
    Rx(usize),
    /// The write end of a pipe, by index.
    Tx(usize),
}

/// An open file: how it was opened and what it refers to.
#[derive(Clone, Copy, Debug, PartialEq, Eq)]
pub struct File {
    pub mode: FileMode,
    pub file: FileKind,
}

/// An index into a process's file descriptor table.
#[derive(Clone, Copy, Debug, PartialEq, Eq)]
pub struct FileDescriptor(pub i32);

/// The file descriptor table of a process: entry `i` is descriptor `i`,
/// `None` where that descriptor is not open.
pub struct FileStruct {
    pub files: Vec<Option<File>>,
}

impl View for FileStruct {
    type V = Seq<Option<File>>;

    open spec fn view(&self) -> Seq<Option<File>> {
        self.files@
    }
}

/// The result of a system call together with the state it leaves behind.
pub struct Outcome {
    pub table: Seq<Option<File>>,
    pub machine: MachineView,
    pub result: Result<usize, KernelError>,
}

/// The outcome of a system call that fails with `e` and changes nothing.
pub open spec fn fail(t: Seq<Option<File>>, m: MachineView, e: KernelError) -> Outcome {
    Outcome { table: t, machine: m, result: Err(e) }
}

/// The descriptor that a system call argument names: its low 32 bits, read
/// as a signed number.
pub open spec fn fd_number(arg: usize) -> int {
    (arg as i32) as int
}

/// The open file that descriptor argument `arg` names in table `t`.
pub open spec fn entry(t: Seq<Option<File>>, arg: usize) -> Option<File> {
    let fd = fd_number(arg);
    if 0 <= fd < t.len() {
        t[fd]
    } else {
        None
    }
}

/// Whether descriptor `i` is free in table `t`.
pub open spec fn is_free(t: Seq<Option<File>>, i: int) -> bool {
    0 <= i < MAX_OPEN_FILES && (i >= t.len() || t[i] is None)
}

/// The lowest free descriptor of `t` that is at least `i`, if any.
pub open spec fn free_from(t: Seq<Option<File>>, i: int) -> Option<int>
    decreases MAX_OPEN_FILES - i,
{
    if i < 0 || i >= MAX_OPEN_FILES {
        None
    } else if is_free(t, i) {
        Some(i)
    } else {
        free_from(t, i + 1)
    }
}

/// The lowest free descriptor of `t`, if any.
pub open spec fn lowest_free(t: Seq<Option<File>>) -> Option<int> {
    free_from(t, 0)
}

/// The search from `i` on finds the lowest free descriptor at or above `i`.
pub proof fn lemma_free_from(t: Seq<Option<File>>, i: int)
    requires
        0 <= i,
    ensures
        match free_from(t, i) {
            Some(k) => i <= k && is_free(t, k) && forall|j: int| i <= j < k ==> !is_free(t, j),
            None => forall|j: int| i <= j ==> !is_free(t, j),
        },
    decreases MAX_OPEN_FILES - i,
{
    if i < MAX_OPEN_FILES && !is_free(t, i) {
        lemma_free_from(t, i + 1);
    }
}

/// `t` with `f` installed at descriptor `i`.
pub open spec fn install(t: Seq<Option<File>>, i: int, f: File) -> Seq<Option<File>> {
    if i < t.len() {
        t.update(i, Some(f))
    } else {
        t.push(Some(f))
    }
}

/// Descriptor `i` is the lowest free one of `t` when it is free and no lower
/// one is; when no descriptor is free, there is none.
pub proof fn lemma_lowest_free(t: Seq<Option<File>>, i: int)
    ensures
        is_free(t, i) && (forall|j: int| 0 <= j < i ==> !is_free(t, j)) ==> lowest_free(t) == Some(i),
        lowest_free(t) matches Some(k) ==> is_free(t, k) && forall|j: int| 0 <= j < k ==> !is_free(t, j),
        lowest_free(t) is None ==> forall|j: int| !is_free(t, j),
{
    lemma_free_from(t, 0);
    if let Some(k) = lowest_free(t) {
        if is_free(t, i) && (forall|j: int| 0 <= j < i ==> !is_free(t, j)) {
            if k < i {
                assert(!is_free(t, k));
            } else if k > i {
                assert(!is_free(t, i));
            }
        }
    } else {
        assert forall|j: int| !is_free(t, j) by {
            if j >= 0 {
                assert(!is_free(t, j));
            }
        }
    }
}

/// Whether an entry of a table refers only to files and pipes that exist.
pub open spec fn entry_ok(e: Option<File>, m: MachineView) -> bool {
    match e {
        Some(f) => match f.file {
            FileKind::RegularFile { file, position } => file < m.contents.len(),
            FileKind::Stdio => true,
            FileKind::Rx(p) => p < m.pipes.len(),
            FileKind::Tx(p) => p < m.pipes.len(),
        },
        None => true,
    }
}

/// Whether table `t` is well formed for machine `m`.
pub open spec fn table_ok(t: Seq<Option<File>>, m: MachineView) -> bool {
    &&& t.len() <= MAX_OPEN_FILES
    &&& forall|i: int| 0 <= i < t.len() ==> #[trigger] entry_ok(t[i], m)
}

/// The three descriptors of a new process: standard input (read only),
/// standard output and standard error (write only).
pub open spec fn fresh_table() -> Seq<Option<File>> {
    seq![
        Some(File { mode: FileMode::Read, file: FileKind::Stdio }),
        Some(File { mode: FileMode::Write, file: FileKind::Stdio }),
        Some(File { mode: FileMode::Write, file: FileKind::Stdio }),
    ]
}

/// What `open(path = arg1, flags = arg2)` does: it reads the path, checks the
/// mode, looks the file up in the root directory and installs it at the
/// lowest free descriptor, at offset 0.
pub open spec fn open_spec(t: Seq<Option<File>>, m: MachineView, abi: SyscallAbi) -> Outcome {
    match m.cstr(abi.arg1 as int) {
        None => fail(t, m, KernelError::BadAddress),
        Some(path) => if abi.arg2 > 2 {
            fail(t, m, KernelError::InvalidArgument)
        } else {
            match m.lookup(path) {
                None => fail(t, m, KernelError::NoSuchEntry),
                Some(ino) => match lowest_free(t) {
                    None => fail(t, m, KernelError::TooManyOpenFile),
                    Some(fd) => Outcome {
                        table: install(
                            t,
                            fd,
                            File {
                                mode: mode_of(abi.arg2),
                                file: FileKind::RegularFile { file: ino as usize, position: 0 },
                            },
                        ),
                        machine: m,
                        result: Ok(fd as usize),
                    },
                },
            }
        },
    }
}

/// The checks that `read` and `write` make before they touch the file: the
/// descriptor is open, its mode allows the access, and the `count` bytes of
/// the buffer are mapped.
pub open spec fn access_error(
    t: Seq<Option<File>>,
    m: MachineView,
    abi: SyscallAbi,
    writing: bool,
) -> Option<KernelError> {
    match entry(t, abi.arg1) {
        None => Some(KernelError::BadFileDescriptor),
        Some(f) => if (writing && !f.mode.writable()) || (!writing && !f.mode.readable()) {
            Some(KernelError::InvalidArgument)
        } else if !m.covers(abi.arg2 as int, abi.arg3 as int) {
            Some(KernelError::BadAddress)
        } else {
            None
        },
    }
}

/// Whether `read` would wait: it reads more from a pipe than the pipe holds
/// while the pipe's write end is still open.
pub open spec fn read_blocks(t: Seq<Option<File>>, m: MachineView, abi: SyscallAbi) -> bool {
    &&& access_error(t, m, abi, false) is None
    &&& entry(t, abi.arg1) matches Some(f) && f.file matches FileKind::Rx(p) && p < m.pipes.len()
        && abi.arg3 > m.pipes[p as int].buffer.len() && m.pipes[p as int].writer_open
}

/// `m` with the bytes read copied into user memory at `addr`.
pub open spec fn copy_out(m: MachineView, addr: usize, bytes: Seq<u8>) -> MachineView {
    MachineView { mem: splice(m.mem, addr - m.mem_base, bytes), ..m }
}

/// What `read(fd = arg1, buf = arg2, count = arg3)` does. A regular file
/// gives up to `count` bytes from its offset, which moves past them;
/// standard input gives up to `count` of the bytes typed and not read yet;
/// a pipe gives `count` bytes, or what is left once its write end is
/// closed, and fails with [`KernelError::BrokenPipe`] when nothing is left.
/// The bytes land in the buffer, and the result is how many there are.
pub open spec fn read_spec(t: Seq<Option<File>>, m: MachineView, abi: SyscallAbi) -> Outcome {
    match access_error(t, m, abi, false) {
        Some(e) => fail(t, m, e),
        None => {
            let f = entry(t, abi.arg1)->Some_0;
            let count = abi.arg3 as int;
            match f.file {
                FileKind::RegularFile { file, position } => {
                    let bytes = file_slice(m.contents[file as int], position as int, count);
                    Outcome {
                        table: t.update(
                            fd_number(abi.arg1),
                            Some(
                                File {
                                    mode: f.mode,
                                    file: FileKind::RegularFile {
                                        file,
                                        position: (position + bytes.len()) as usize,
                                    },
                                },
                            ),
                        ),
                        machine: copy_out(m, abi.arg2, bytes),
                        result: Ok(bytes.len() as usize),
                    }
                },
                FileKind::Stdio => {
                    let pending = m.tty_input.subrange(m.tty_consumed, m.tty_input.len() as int);
                    let n = if count < pending.len() { count } else { pending.len() as int };
                    Outcome {
                        table: t,
                        machine: copy_out(
                            MachineView { tty_consumed: m.tty_consumed + n, ..m },
                            abi.arg2,
                            pending.take(n),
                        ),
                        result: Ok(n as usize),
                    }
                },
                FileKind::Rx(p) => {
                    let pipe = m.pipes[p as int];
                    if count > pipe.buffer.len() && pipe.buffer.len() == 0 {
                        fail(t, m, KernelError::BrokenPipe)
                    } else {
                        let n = if count < pipe.buffer.len() { count } else { pipe.buffer.len() as int };
                        Outcome {
                            table: t,
                            machine: copy_out(
                                MachineView {
                                    pipes: m.pipes.update(
                                        p as int,
                                        PipeView { buffer: pipe.buffer.skip(n), ..pipe },
                                    ),
                                    ..m
                                },
                                abi.arg2,
                                pipe.buffer.take(n),
                            ),
                            result: Ok(n as usize),
                        }
                    }
                },
                FileKind::Tx(_) => fail(t, m, KernelError::InvalidArgument),
            }
        },
    }
}

/// Whether `write` would grow a file past the largest offset.
pub open spec fn write_overflows(t: Seq<Option<File>>, abi: SyscallAbi) -> bool {
    entry(t, abi.arg1) matches Some(f) && f.file matches FileKind::RegularFile { file, position }
        && position + abi.arg3 > usize::MAX
}

/// What `write(fd = arg1, buf = arg2, count = arg3)` does: the `count` bytes
/// of the buffer go to the file at its offset (which moves past them), to
/// the terminal, or into the pipe, whose read end must still be open; the
/// result is `count`.
pub open spec fn write_spec(t: Seq<Option<File>>, m: MachineView, abi: SyscallAbi) -> Outcome {
    match access_error(t, m, abi, true) {
        Some(e) => fail(t, m, e),
        None => {
            let f = entry(t, abi.arg1)->Some_0;
            let off = abi.arg2 - m.mem_base;
            let data = m.mem.subrange(off, off + abi.arg3);
            match f.file {
                FileKind::RegularFile { file, position } => Outcome {
                    table: t.update(
                        fd_number(abi.arg1),
                        Some(
                            File {
                                mode: f.mode,
                                file: FileKind::RegularFile {
                                    file,
                                    position: (position + abi.arg3) as usize,
                                },
                            },
                        ),
                    ),
                    machine: MachineView {
                        contents: m.contents.update(
                            file as int,
                            write_content(m.contents[file as int], position as int, data),
                        ),
                        ..m
                    },
                    result: Ok(abi.arg3),
                },
                FileKind::Stdio => Outcome {
                    table: t,
                    machine: MachineView { tty_output: m.tty_output + data, ..m },
                    result: Ok(abi.arg3),
                },
                FileKind::Tx(p) => if !m.pipes[p as int].reader_open {
                    fail(t, m, KernelError::BrokenPipe)
                } else {
                    Outcome {
                        table: t,
                        machine: MachineView {
                            pipes: m.pipes.update(
                                p as int,
                                PipeView {
                                    buffer: m.pipes[p as int].buffer + data,
                                    ..m.pipes[p as int]
                                },
                            ),
                            ..m
                        },
                        result: Ok(abi.arg3),
                    }
                },
                FileKind::Rx(_) => fail(t, m, KernelError::InvalidArgument),
            }
        },
    }
}

/// What `seek(fd = arg1, offset = arg2, whence = arg3)` does on a regular
/// file: the new offset is `offset` (read as signed) from the start
/// (`whence` 0), from the current offset (1) or from the end (2). Past the
/// end is allowed; a negative offset, one past `isize::MAX` or another
/// `whence` is [`KernelError::InvalidArgument`], and so is seeking anything
/// but a regular file. The result is the new offset.
pub open spec fn seek_spec(t: Seq<Option<File>>, m: MachineView, abi: SyscallAbi) -> Outcome {
    match entry(t, abi.arg1) {
        None => fail(t, m, KernelError::BadFileDescriptor),
        Some(f) => match f.file {
            FileKind::RegularFile { file, position } => {
                let start: int = if abi.arg3 == 0 {
                    0
                } else if abi.arg3 == 1 {
                    position as int
                } else {
                    m.contents[file as int].len() as int
                };
                let target = start + (abi.arg2 as isize) as int;
                if abi.arg3 > 2 || target < 0 || target > isize::MAX {
                    fail(t, m, KernelError::InvalidArgument)
                } else {
                    Outcome {
                        table: t.update(
                            fd_number(abi.arg1),
                            Some(
                                File {
                                    mode: f.mode,
                                    file: FileKind::RegularFile { file, position: target as usize },
                                },
                            ),
                        ),
                        machine: m,
                        result: Ok(target as usize),
                    }
                }
            },
            _ => fail(t, m, KernelError::InvalidArgument),
        },
    }
}

/// What `tell(fd = arg1)` does: the offset of a regular file;
/// [`KernelError::InvalidArgument`] for anything else.
pub open spec fn tell_spec(t: Seq<Option<File>>, m: MachineView, abi: SyscallAbi) -> Outcome {
    match entry(t, abi.arg1) {
        None => fail(t, m, KernelError::BadFileDescriptor),
        Some(f) => match f.file {
            FileKind::RegularFile { file, position } => Outcome {
                table: t,
                machine: m,
                result: Ok(position),
            },
            _ => fail(t, m, KernelError::InvalidArgument),
        },
    }
}

/// What `close(fd = arg1)` does: the descriptor becomes free, and a pipe end
/// that it held is closed. The result is 0.
pub open spec fn close_spec(t: Seq<Option<File>>, m: MachineView, abi: SyscallAbi) -> Outcome {
    match entry(t, abi.arg1) {
        None => fail(t, m, KernelError::BadFileDescriptor),
        Some(f) => Outcome {
            table: t.update(fd_number(abi.arg1), None),
            machine: match f.file {
                FileKind::Rx(p) => MachineView {
                    pipes: m.pipes.update(
                        p as int,
                        PipeView { reader_open: false, ..m.pipes[p as int] },
                    ),
                    ..m
                },
                FileKind::Tx(p) => MachineView {
                    pipes: m.pipes.update(
                        p as int,
                        PipeView { writer_open: false, ..m.pipes[p as int] },
                    ),
                    ..m
                },
                _ => m,
            },
            result: Ok(0),
        },
    }
}

/// The read end of pipe `p`, as a descriptor holds it.
pub open spec fn rx_file(p: int) -> File {
    File { mode: FileMode::Read, file: FileKind::Rx(p as usize) }
}

/// The write end of pipe `p`, as a descriptor holds it.
pub open spec fn tx_file(p: int) -> File {
    File { mode: FileMode::Write, file: FileKind::Tx(p as usize) }
}

/// What `pipe(pipefd = arg1)` does: it creates a pipe, installs its read end
/// and then its write end at the lowest free descriptors, and stores the two
/// descriptors as 32-bit little-endian integers at `pipefd`. The result is
/// 0.
pub open spec fn pipe_spec(t: Seq<Option<File>>, m: MachineView, abi: SyscallAbi) -> Outcome {
    if !m.covers(abi.arg1 as int, 8) {
        fail(t, m, KernelError::BadAddress)
    } else {
        let p = m.pipes.len() as int;
        match lowest_free(t) {
            None => fail(t, m, KernelError::TooManyOpenFile),
            Some(a) => {
                let t1 = install(t, a, rx_file(p));
                match lowest_free(t1) {
                    None => fail(t, m, KernelError::TooManyOpenFile),
                    Some(b) => Outcome {
                        table: install(t1, b, tx_file(p)),
                        machine: copy_out(
                            MachineView {
                                pipes: m.pipes.push(
                                    PipeView {
                                        buffer: Seq::empty(),
                                        reader_open: true,
                                        writer_open: true,
                                    },
                                ),
                                ..m
                            },
                            abi.arg1,
                            u32_le(a as u32) + u32_le(b as u32),
                        ),
                        result: Ok(0),
                    },
                }
            },
        }
    }
}

/// The outcome that a system call on `t` and `m` returned `r` and left `t2`
/// and `m2` behind.
pub open spec fn outcome(t2: Seq<Option<File>>, m2: MachineView, r: Result<usize, KernelError>) -> Outcome {
    Outcome { table: t2, machine: m2, result: r }
}

/// Installing a file that refers only to what exists keeps a table well
/// formed.
pub proof fn lemma_install_ok(t: Seq<Option<File>>, m: MachineView, f: File)
    requires
        table_ok(t, m),
        entry_ok(Some(f), m),
    ensures
        lowest_free(t) matches Some(i) ==> table_ok(install(t, i, f), m),
{
    lemma_lowest_free(t, 0);
    if let Some(i) = lowest_free(t) {
        assert(is_free(t, i));
        if i > t.len() {
            assert(is_free(t, t.len() as int));
        }
        let t2 = install(t, i, f);
        assert forall|k: int| 0 <= k < t2.len() implies #[trigger] entry_ok(t2[k], m) by {
            if k != i {
                assert(t2[k] == t[k]);
            }
        }
    }
}

/// A table stays well formed while no file goes away and no pipe either.
pub proof fn lemma_table_ok_grow(t: Seq<Option<File>>, m1: MachineView, m2: MachineView)
    requires
        table_ok(t, m1),
        m1.contents.len() <= m2.contents.len(),
        m1.pipes.len() <= m2.pipes.len(),
    ensures
        table_ok(t, m2),
{
    assert forall|i: int| 0 <= i < t.len() implies #[trigger] entry_ok(t[i], m2) by {
        assert(entry_ok(t[i], m1));
    }
}

impl FileStruct {
    /// A copy of this table, as a forked child gets it.
    pub fn duplicate(&self) -> (r: Self)
        ensures
            r@ == self@,
    {
        let mut files: Vec<Option<File>> = Vec::new();
        let mut i: usize = 0;
        while i < self.files.len()
            invariant
                i <= self@.len(),
                files@ == self@.take(i as int),
            decreases self@.len() - i,
        {
            files.push(self.files[i]);
            i = i + 1;
            assert(files@ =~= self@.take(i as int));
        }
        assert(files@ =~= self@);
        FileStruct { files }
    }

    /// A table with descriptors 0, 1 and 2 open on the terminal: standard
    /// input for reading, standard output and error for writing.
    pub fn new() -> (r: Self)
        ensures
            r@ == fresh_table(),
    {
        let mut this = FileStruct { files: Vec::new() };
        proof {
            lemma_lowest_free(this@, 0);
        }
        let r0 = this.install_file(File { mode: FileMode::Read, file: FileKind::Stdio });
        proof {
            lemma_lowest_free(this@, 1);
        }
        let r1 = this.install_file(File { mode: FileMode::Write, file: FileKind::Stdio });
        proof {
            lemma_lowest_free(this@, 2);
        }
        let r2 = this.install_file(File { mode: FileMode::Write, file: FileKind::Stdio });
        assert(this@ =~= fresh_table());
        this
    }

    /// Installs `file` at the lowest free descriptor and returns that
    /// descriptor; [`KernelError::TooManyOpenFile`] when all
    /// [`MAX_OPEN_FILES`] descriptors are taken.
    pub fn install_file(&mut self, file: File) -> (r: Result<FileDescriptor, KernelError>)
        requires
            old(self)@.len() <= MAX_OPEN_FILES,
        ensures
            final(self)@.len() <= MAX_OPEN_FILES,
            match lowest_free(old(self)@) {
                Some(i) => r == Ok::<FileDescriptor, KernelError>(FileDescriptor(i as i32))
                    && final(self)@ == install(old(self)@, i, file),
                None => r == Err::<FileDescriptor, KernelError>(KernelError::TooManyOpenFile)
                    && final(self)@ == old(self)@,
            },
    {
        let ghost t = self@;
        let mut i: usize = 0;
        while i < self.files.len()
            invariant
                i <= self.files@.len(),
                self@ == t,
                t == old(self)@,
                t.len() <= MAX_OPEN_FILES,
                forall|j: int| 0 <= j < i ==> !is_free(t, j),
            decreases self.files@.len() - i,
        {
            if self.files[i].is_none() {
                proof {
                    lemma_lowest_free(t, i as int);
                    assert(is_free(t, i as int));
                    assert(lowest_free(t) == Some(i as int));
                }
                self.files.set(i, Some(file));
                assert(self@ == install(t, i as int, file));
                return Ok(FileDescriptor(i as i32));
            }
            i = i + 1;
        }
        if self.files.len() < MAX_OPEN_FILES {
            proof {
                lemma_lowest_free(t, i as int);
            }
            self.files.push(Some(file));
            Ok(FileDescriptor(i as i32))
        } else {
            proof {
                lemma_lowest_free(t, 0);
                if let Some(k) = lowest_free(t) {
                    assert(!is_free(t, k));
                }
            }
            Err(KernelError::TooManyOpenFile)
        }
    }

    /// The descriptor that argument `arg` names and the file open there.
    pub fn entry_of(&self, arg: usize) -> (r: Option<(usize, File)>)
        ensures
            match r {
                Some((i, f)) => i == fd_number(arg) && i < self@.len() && entry(self@, arg) == Some(f),
                None => entry(self@, arg) is None,
            },
    {
        let fd = arg as i32;
        if fd < 0 {
            return None;
        }
        let i = fd as usize;
        if i >= self.files.len() {
            return None;
        }
        match self.files[i] {
            Some(f) => Some((i, f)),
            None => None,
        }
    }

    /// Opens the file of the root directory named by the string at `arg1`,
    /// for reading (`arg2` = 0), writing (1) or both (2), at the lowest free
    /// descriptor, which it returns.
    #[verifier::rlimit(40)]
    pub fn open(&mut self, m: &mut Machine, abi: &SyscallAbi) -> (r: Result<usize, KernelError>)
        requires
            table_ok(old(self)@, old(m)@),
            old(m).wf(),
        ensures
            table_ok(final(self)@, final(m)@),
            final(m).wf(),
            outcome(final(self)@, final(m)@, r) == open_spec(old(self)@, old(m)@, *abi),
    {
        let ghost t = self@;
        let ghost mv = m@;
        let path = match m.mem.load_cstr(abi.arg1) {
            Ok(p) => p,
            Err(e) => {
                assert(mv.cstr(abi.arg1 as int) is None);
                return Err(e);
            },
        };
        assert(mv.cstr(abi.arg1 as int) == Some(path@));
        let mode = match FileMode::from_usize(abi.arg2) {
            Ok(md) => md,
            Err(e) => return Err(e),
        };
        let ino = match m.lookup(path.as_slice()) {
            Some(i) => i,
            None => {
                assert(mv.lookup(path@) is None);
                return Err(KernelError::NoSuchEntry);
            },
        };
        assert(mv.lookup(path@) == Some(ino as int));
        let f = File { mode, file: FileKind::RegularFile { file: ino, position: 0 } };
        assert(f == File {
            mode: mode_of(abi.arg2),
            file: FileKind::RegularFile { file: (ino as int) as usize, position: 0 },
        });
        let res = self.install_file(f);
        proof {
            lemma_install_ok(t, mv, f);
            lemma_lowest_free(t, 0);
        }
        match res {
            Ok(fd) => {
                assert(0 <= fd.0 < 1025);
                Ok(fd.0 as usize)
            },
            Err(e) => Err(e),
        }
    }

    /// Whether `mode` allows reading.
    fn can_read(mode: FileMode) -> (r: bool)
        ensures
            r == mode.readable(),
    {
        match mode {
            FileMode::Read => true,
            FileMode::Write => false,
            FileMode::ReadWrite => true,
        }
    }

    /// Whether `mode` allows writing.
    fn can_write(mode: FileMode) -> (r: bool)
        ensures
            r == mode.writable(),
    {
        match mode {
            FileMode::Read => false,
            FileMode::Write => true,
            FileMode::ReadWrite => true,
        }
    }

    /// Reads up to `arg3` bytes from descriptor `arg1` into the buffer at
    /// `arg2` and returns how many it read; see [`read_spec`].
    #[verifier::rlimit(40)]
    pub fn read(&mut self, m: &mut Machine, abi: &SyscallAbi) -> (r: Result<usize, KernelError>)
        requires
            table_ok(old(self)@, old(m)@),
            old(m).wf(),
            !read_blocks(old(self)@, old(m)@, *abi),
        ensures
            table_ok(final(self)@, final(m)@),
            final(m).wf(),
            outcome(final(self)@, final(m)@, r) == read_spec(old(self)@, old(m)@, *abi),
    {
        let ghost t = self@;
        let ghost mv = m@;
        let (fd, f) = match self.entry_of(abi.arg1) {
            Some(x) => x,
            None => return Err(KernelError::BadFileDescriptor),
        };
        if !Self::can_read(f.mode) {
            return Err(KernelError::InvalidArgument);
        }
        if !m.mem.is_mapped(abi.arg2, abi.arg3) {
            return Err(KernelError::BadAddress);
        }
        assert(access_error(t, mv, *abi, false) is None);
        assert(entry_ok(t[fd as int], mv));
        match f.file {
            FileKind::RegularFile { file, position } => {
                let flen = m.contents[file].len();
                assert(flen == mv.contents[file as int].len());
                let bytes = m.read_file(file, position, abi.arg3);
                assert(position + bytes@.len() <= flen || bytes@.len() == 0);
                let stored = m.mem.store(abi.arg2, bytes.as_slice());
                let nf = File {
                    mode: f.mode,
                    file: FileKind::RegularFile { file, position: position + bytes.len() },
                };
                self.files.set(fd, Some(nf));
                assert(m@ == copy_out(mv, abi.arg2, bytes@));
                assert(table_ok(self@, m@)) by {
                    assert forall|i: int| 0 <= i < self@.len() implies #[trigger] entry_ok(self@[i], m@) by {
                        if i != fd {
                            assert(entry_ok(t[i], mv));
                        }
                    }
                }
                Ok(bytes.len())
            },
            FileKind::Stdio => {
                let bytes = m.tty.read(abi.arg3);
                let stored = m.mem.store(abi.arg2, bytes.as_slice());
                proof {
                    let pending = mv.tty_input.subrange(mv.tty_consumed, mv.tty_input.len() as int);
                    let n = if abi.arg3 < pending.len() { abi.arg3 as int } else { pending.len() as int };
                    assert(m@ == copy_out(
                        MachineView { tty_consumed: mv.tty_consumed + n, ..mv },
                        abi.arg2,
                        pending.take(n),
                    ));
                    lemma_table_ok_grow(t, mv, m@);
                }
                Ok(bytes.len())
            },
            FileKind::Rx(p) => {
                let avail = m.pipes[p].buffer.len();
                if abi.arg3 > avail && avail == 0 {
                    return Err(KernelError::BrokenPipe);
                }
                let bytes = m.pipe_read(p, abi.arg3);
                let stored = m.mem.store(abi.arg2, bytes.as_slice());
                proof {
                    let pipe = mv.pipes[p as int];
                    let n = if abi.arg3 < pipe.buffer.len() { abi.arg3 as int } else { pipe.buffer.len() as int };
                    assert(m@ == copy_out(
                        MachineView {
                            pipes: mv.pipes.update(p as int, PipeView { buffer: pipe.buffer.skip(n), ..pipe }),
                            ..mv
                        },
                        abi.arg2,
                        pipe.buffer.take(n),
                    ));
                    lemma_table_ok_grow(t, mv, m@);
                }
                Ok(bytes.len())
            },
            FileKind::Tx(_) => Err(KernelError::InvalidArgument),
        }
    }

    /// Writes the `arg3` bytes of the buffer at `arg2` to descriptor `arg1`
    /// and returns how many it wrote; see [`write_spec`].
    #[verifier::rlimit(40)]
    pub fn write(&mut self, m: &mut Machine, abi: &SyscallAbi) -> (r: Result<usize, KernelError>)
        requires
            table_ok(old(self)@, old(m)@),
            old(m).wf(),
            !write_overflows(old(self)@, *abi),
        ensures
            table_ok(final(self)@, final(m)@),
            final(m).wf(),
            outcome(final(self)@, final(m)@, r) == write_spec(old(self)@, old(m)@, *abi),
    {
        let ghost t = self@;
        let ghost mv = m@;
        let (fd, f) = match self.entry_of(abi.arg1) {
            Some(x) => x,
            None => return Err(KernelError::BadFileDescriptor),
        };
        if !Self::can_write(f.mode) {
            return Err(KernelError::InvalidArgument);
        }
        let data = match m.mem.load(abi.arg2, abi.arg3) {
            Ok(d) => d,
            Err(e) => return Err(e),
        };
        assert(access_error(t, mv, *abi, true) is None);
        assert(entry_ok(t[fd as int], mv));
        match f.file {
            FileKind::RegularFile { file, position } => {
                m.write_file(file, position, data.as_slice());
                let nf = File {
                    mode: f.mode,
                    file: FileKind::RegularFile { file, position: position + abi.arg3 },
                };
                self.files.set(fd, Some(nf));
                assert(table_ok(self@, m@)) by {
                    assert forall|i: int| 0 <= i < self@.len() implies #[trigger] entry_ok(self@[i], m@) by {
                        if i != fd {
                            assert(entry_ok(t[i], mv));
                        }
                    }
                }
                Ok(abi.arg3)
            },
            FileKind::Stdio => {
                m.tty.write(data.as_slice());
                assert(m@ == MachineView { tty_output: mv.tty_output + data@, ..mv });
                proof {
                    lemma_table_ok_grow(t, mv, m@);
                }
                Ok(abi.arg3)
            },
            FileKind::Tx(p) => {
                if !m.pipes[p].reader_open {
                    return Err(KernelError::BrokenPipe);
                }
                m.pipe_write(p, data.as_slice());
                proof {
                    lemma_table_ok_grow(t, mv, m@);
                }
                Ok(abi.arg3)
            },
            FileKind::Rx(_) => Err(KernelError::InvalidArgument),
        }
    }

    /// Moves the offset of descriptor `arg1` and returns the new offset; see
    /// [`seek_spec`].
    pub fn seek(&mut self, m: &mut Machine, abi: &SyscallAbi) -> (r: Result<usize, KernelError>)
        requires
            table_ok(old(self)@, old(m)@),
            old(m).wf(),
        ensures
            table_ok(final(self)@, final(m)@),
            final(m).wf(),
            outcome(final(self)@, final(m)@, r) == seek_spec(old(self)@, old(m)@, *abi),
    {
        let ghost t = self@;
        let (fd, f) = match self.entry_of(abi.arg1) {
            Some(x) => x,
            None => return Err(KernelError::BadFileDescriptor),
        };
        assert(entry_ok(t[fd as int], m@));
        match f.file {
            FileKind::RegularFile { file, position } => {
                if abi.arg3 > 2 {
                    return Err(KernelError::InvalidArgument);
                }
                let start: i128 = if abi.arg3 == 0 {
                    0
                } else if abi.arg3 == 1 {
                    position as i128
                } else {
                    m.contents[file].len() as i128
                };
                proof {
                    if abi.arg3 == 2 {
                        assert(m.contents@[file as int]@ == m@.contents[file as int]);
                    }
                }
                let offset = abi.arg2 as isize;
                let target: i128 = start + offset as i128;
                if target < 0 || target > isize::MAX as i128 {
                    return Err(KernelError::InvalidArgument);
                }
                let nf = File {
                    mode: f.mode,
                    file: FileKind::RegularFile { file, position: target as usize },
                };
                self.files.set(fd, Some(nf));
                assert(table_ok(self@, m@)) by {
                    assert forall|i: int| 0 <= i < self@.len() implies #[trigger] entry_ok(self@[i], m@) by {
                        if i != fd {
                            assert(entry_ok(t[i], m@));
                        }
                    }
                }
                Ok(target as usize)
            },
            _ => Err(KernelError::InvalidArgument),
        }
    }

    /// The offset of descriptor `arg1`; see [`tell_spec`].
    pub fn tell(&mut self, m: &mut Machine, abi: &SyscallAbi) -> (r: Result<usize, KernelError>)
        requires
            table_ok(old(self)@, old(m)@),
            old(m).wf(),
        ensures
            table_ok(final(self)@, final(m)@),
            final(m).wf(),
            outcome(final(self)@, final(m)@, r) == tell_spec(old(self)@, old(m)@, *abi),
    {
        match self.entry_of(abi.arg1) {
            Some((_, f)) => match f.file {
                FileKind::RegularFile { file, position } => Ok(position),
                _ => Err(KernelError::InvalidArgument),
            },
            None => Err(KernelError::BadFileDescriptor),
        }
    }

    /// Closes descriptor `arg1`; see [`close_spec`].
    pub fn close(&mut self, m: &mut Machine, abi: &SyscallAbi) -> (r: Result<usize, KernelError>)
        requires
            table_ok(old(self)@, old(m)@),
            old(m).wf(),
        ensures
            table_ok(final(self)@, final(m)@),
            final(m).wf(),
            outcome(final(self)@, final(m)@, r) == close_spec(old(self)@, old(m)@, *abi),
    {
        let ghost t = self@;
        let ghost mv = m@;
        let (fd, f) = match self.entry_of(abi.arg1) {
            Some(x) => x,
            None => return Err(KernelError::BadFileDescriptor),
        };
        assert(entry_ok(t[fd as int], mv));
        self.files.set(fd, None);
        match f.file {
            FileKind::Rx(p) => m.close_pipe_end(p, true),
            FileKind::Tx(p) => m.close_pipe_end(p, false),
            _ => {},
        }
        assert(table_ok(self@, m@)) by {
            assert forall|i: int| 0 <= i < self@.len() implies #[trigger] entry_ok(self@[i], m@) by {
                if i != fd {
                    assert(entry_ok(t[i], mv));
                }
            }
        }
        Ok(0)
    }


    /// Creates a pipe, installs its read end and its write end at the two
    /// lowest free descriptors and stores the two descriptors at `arg1`;
    /// see [`pipe_spec`].
    #[verifier::rlimit(40)]
    pub fn pipe(&mut self, m: &mut Machine, abi: &SyscallAbi) -> (r: Result<usize, KernelError>)
        requires
            table_ok(old(self)@, old(m)@),
            old(m).wf(),
            old(m)@.pipes.len() + 1 < usize::MAX,
        ensures
            table_ok(final(self)@, final(m)@),
            final(m).wf(),
            outcome(final(self)@, final(m)@, r) == pipe_spec(old(self)@, old(m)@, *abi),
    {
        let ghost t = self@;
        let ghost mv = m@;
        if !m.mem.is_mapped(abi.arg1, 8) {
            return Err(KernelError::BadAddress);
        }
        let p = m.pipes.len();
        let old_len = self.files.len();
        let a = match self.install_file(File { mode: FileMode::Read, file: FileKind::Rx(p) }) {
            Ok(fd) => fd.0,
            Err(e) => return Err(e),
        };
        proof {
            lemma_lowest_free(t, 0);
        }
        let ghost t1 = self@;
        assert(t1 == install(t, a as int, rx_file(p as int)));
        let b = match self.install_file(File { mode: FileMode::Write, file: FileKind::Tx(p) }) {
            Ok(fd) => fd.0,
            Err(e) => {
                if (a as usize) < old_len {
                    self.files.set(a as usize, None);
                    assert(self@ =~= t);
                } else {
                    let _ = self.files.pop();
                    assert(self@ =~= t);
                }
                return Err(e);
            },
        };
        proof {
            lemma_lowest_free(t1, 0);
        }
        let pi = m.new_pipe();
        let au = a as u32;
        let bu = b as u32;
        let bytes: Vec<u8> = vec![
            (au & 0xffu32) as u8,
            ((au >> 8u32) & 0xffu32) as u8,
            ((au >> 16u32) & 0xffu32) as u8,
            ((au >> 24u32) & 0xffu32) as u8,
            (bu & 0xffu32) as u8,
            ((bu >> 8u32) & 0xffu32) as u8,
            ((bu >> 16u32) & 0xffu32) as u8,
            ((bu >> 24u32) & 0xffu32) as u8,
        ];
        assert(bytes@ =~= u32_le((a as int) as u32) + u32_le((b as int) as u32));
        let stored = m.mem.store(abi.arg1, bytes.as_slice());
        proof {
            let mp = MachineView {
                pipes: mv.pipes.push(PipeView { buffer: Seq::empty(), reader_open: true, writer_open: true }),
                ..mv
            };
            assert(m@ == copy_out(mp, abi.arg1, u32_le((a as int) as u32) + u32_le((b as int) as u32)));
            let t2 = self@;
            assert(table_ok(t2, m@)) by {
                assert forall|i: int| 0 <= i < t2.len() implies #[trigger] entry_ok(t2[i], m@) by {
                    if i < t.len() && t2[i] == t[i] {
                        assert(entry_ok(t[i], mv));
                    }
                }
            }
        }
        Ok(0)
    }

}

/// Reading a file at the offset where `data` was just written gives `data`
/// back.
pub proof fn lemma_write_content_read(c: Seq<u8>, pos: int, data: Seq<u8>)
    requires
        0 <= pos,
    ensures
        file_slice(write_content(c, pos, data), pos, data.len() as int) == data,
{
    let w = write_content(c, pos, data);
    if data.len() > 0 {
        assert(file_slice(w, pos, data.len() as int) =~= data);
    } else {
        assert(file_slice(w, pos, 0) =~= data);
    }
}

/// What a read gives back of a write: once `write` has put `count` bytes
/// into a regular file at offset `p`, a `read` of `count` bytes through any
/// descriptor open for reading on the same file at offset `p` returns
/// `count` and fills its buffer with those bytes.
pub proof fn lemma_read_after_write(
    t: Seq<Option<File>>,
    m: MachineView,
    wabi: SyscallAbi,
    rabi: SyscallAbi,
)
    requires
        table_ok(t, m),
        m.wf(),
        write_spec(t, m, wabi).result is Ok,
        entry(t, wabi.arg1) is Some,
        entry(t, wabi.arg1)->Some_0.file is RegularFile,
        ({
            let o = write_spec(t, m, wabi);
            let f = entry(t, wabi.arg1)->Some_0;
            &&& entry(o.table, rabi.arg1) is Some
            &&& entry(o.table, rabi.arg1)->Some_0.mode.readable()
            &&& entry(o.table, rabi.arg1)->Some_0.file == FileKind::RegularFile {
                file: f.file->RegularFile_file,
                position: f.file->RegularFile_position,
            }
            &&& o.machine.covers(rabi.arg2 as int, rabi.arg3 as int)
            &&& rabi.arg3 == wabi.arg3
        }),
    ensures
        ({
            let o = write_spec(t, m, wabi);
            let o2 = read_spec(o.table, o.machine, rabi);
            let woff = wabi.arg2 - m.mem_base;
            let roff = rabi.arg2 - m.mem_base;
            &&& o2.result == Ok::<usize, KernelError>(wabi.arg3)
            &&& o2.machine.mem.subrange(roff, roff + rabi.arg3) == m.mem.subrange(woff, woff + wabi.arg3)
        }),
{
    let o = write_spec(t, m, wabi);
    let f = entry(t, wabi.arg1)->Some_0;
    let file = f.file->RegularFile_file;
    let pos = f.file->RegularFile_position;
    let woff = wabi.arg2 - m.mem_base;
    let data = m.mem.subrange(woff, woff + wabi.arg3);
    assert(entry_ok(t[fd_number(wabi.arg1)], m));
    let c2 = write_content(m.contents[file as int], pos as int, data);
    assert(o.machine.contents[file as int] == c2);
    lemma_write_content_read(m.contents[file as int], pos as int, data);
    let o2 = read_spec(o.table, o.machine, rabi);
    let roff = rabi.arg2 - m.mem_base;
    assert(o2.machine.mem.subrange(roff, roff + rabi.arg3) =~= data);
}

/// `tell` reports the offset that `seek` set.
pub proof fn lemma_seek_tell(t: Seq<Option<File>>, m: MachineView, sabi: SyscallAbi, tabi: SyscallAbi)
    requires
        seek_spec(t, m, sabi).result is Ok,
        tabi.arg1 == sabi.arg1,
    ensures
        tell_spec(seek_spec(t, m, sabi).table, seek_spec(t, m, sabi).machine, tabi).result
            == seek_spec(t, m, sabi).result,
{
}

/// A closed descriptor is free again: nothing can use it until an `open` or
/// a `pipe` installs a file there.
pub proof fn lemma_close_frees(t: Seq<Option<File>>, m: MachineView, abi: SyscallAbi)
    requires
        close_spec(t, m, abi).result is Ok,
        t.len() <= MAX_OPEN_FILES,
    ensures
        entry(close_spec(t, m, abi).table, abi.arg1) is None,
        is_free(close_spec(t, m, abi).table, fd_number(abi.arg1)),
{
}

} // verus!
