use lib::error::KernelError;
use lib::machine::{Machine, Registers, Teletype, UserMemory};
use lib::project1::file_struct::{File, FileKind, FileMode, FileStruct};
use lib::project1::grader::{
    close, open_invalid, open_normal, pipe_error_bad_address, pipe_error_bad_direction,
    pipe_normal, pipe_partial, read_error_bad_address, read_error_bad_fd, read_error_bad_mode,
    read_normal, read_truncate, seek_begin, seek_beyond_eof, seek_current, seek_end,
    seek_error_bad_fd, seek_error_bad_whence, seek_error_stdio, stderr_empty, stderr_invalid,
    stderr_normal, stdio_normal, stdio_partial, stdout_empty, stdout_invalid, stdout_normal,
    syscall_abi, tell_basic, tell_error_bad_fd, tell_error_stdio, tell_write, write_error_bad_address,
    write_error_bad_fd, write_error_bad_mode, write_normal, write_persistence, write_sync,
    SyscallAbiValidator,
};
use lib::project1::syscall::SyscallAbi;
use lib::project1::{Process, SyscallNumber};

const BASE: usize = 0x10_0000;

fn hello_content() -> Vec<u8> {
    let mut v = b"Welcome to KeOS Project!\n\nEven the longest journey begins with a single step.".to_vec();
    while v.len() < 140 {
        v.push(b'.');
    }
    v
}

fn machine(input: &[u8]) -> Machine {
    let files: Vec<(&str, Vec<u8>)> = vec![
        ("hello", hello_content()),
        ("hello2", hello_content()),
        ("hello3", hello_content()),
        ("hello4", hello_content()),
    ];
    Machine {
        names: files.iter().map(|(n, _)| n.as_bytes().to_vec()).collect(),
        contents: files.iter().map(|(_, c)| c.clone()).collect(),
        tty: Teletype::new(input.to_vec()),
        pipes: Vec::new(),
        mem: UserMemory::new(BASE, 4096),
    }
}

/// Issues a system call from process `p` and returns `rax` as a signed value.
fn sys(p: &mut Process, m: &mut Machine, no: usize, a1: usize, a2: usize, a3: usize) -> isize {
    let mut regs = Registers { rax: no, rdi: a1, rsi: a2, rdx: a3, r10: 0, r8: 0, r9: 0 };
    p.syscall(m, &mut regs);
    regs.rax as isize
}

fn put_str(m: &mut Machine, off: usize, s: &[u8]) -> usize {
    m.mem.store(BASE + off, s).unwrap();
    BASE + off
}

fn err(e: KernelError) -> isize {
    -(e.errno() as isize)
}

#[test]
fn syscall_abi_passes() {
    assert!(syscall_abi());
}

#[test]
fn validator_reports_each_argument() {
    let mut v = SyscallAbiValidator {};
    let mut regs = Registers { rax: 0x10003, rdi: 1, rsi: 2, rdx: 3, r10: 4, r8: 5, r9: 6 };
    v.syscall(&mut regs);
    assert_eq!(regs.rax, 4);
    let mut regs = Registers { rax: 0x10006, rdi: 1, rsi: 2, rdx: 3, r10: 4, r8: 5, r9: 6 };
    v.syscall(&mut regs);
    assert_eq!(regs.rax as isize, -22);
    assert_eq!(regs.rdi, 1);
}

#[test]
fn abi_from_registers_and_return_value() {
    let mut regs = Registers { rax: 7, rdi: 11, rsi: 12, rdx: 13, r10: 14, r8: 15, r9: 16 };
    let abi = SyscallAbi::from_registers(&regs);
    assert_eq!((abi.sysno, abi.arg1, abi.arg2, abi.arg3, abi.arg4, abi.arg5, abi.arg6), (7, 11, 12, 13, 14, 15, 16));
    abi.set_return_value(&mut regs, Err(KernelError::BadFileDescriptor));
    assert_eq!(regs.rax as isize, -9);
    abi.set_return_value(&mut regs, Ok(42));
    assert_eq!(regs.rax, 42);
    assert_eq!(regs.r9, 16);
}

#[test]
fn syscall_numbers_of_project1() {
    assert_eq!(SyscallNumber::try_from(1), Ok(SyscallNumber::Open));
    assert_eq!(SyscallNumber::try_from(7), Ok(SyscallNumber::Pipe));
    assert_eq!(SyscallNumber::try_from(0), Err(KernelError::NoSuchSyscall));
    assert_eq!(SyscallNumber::try_from(8), Err(KernelError::NoSuchSyscall));
    assert_eq!(SyscallNumber::Tell.as_usize(), 5);
}

#[test]
fn unknown_syscall_fails() {
    let mut p = Process::new();
    let mut m = machine(b"");
    assert_eq!(sys(&mut p, &mut m, 99, 0, 0, 0), err(KernelError::NoSuchSyscall));
}

#[test]
fn new_file_struct_has_stdio() {
    let fs = FileStruct::new();
    assert_eq!(fs.files.len(), 3);
    assert_eq!(fs.files[0], Some(File { mode: FileMode::Read, file: FileKind::Stdio }));
    assert_eq!(fs.files[1], Some(File { mode: FileMode::Write, file: FileKind::Stdio }));
    assert_eq!(fs.files[2], Some(File { mode: FileMode::Write, file: FileKind::Stdio }));
}

#[test]
fn open_normal_passes() {
    assert!(open_normal(&mut Process::new(), &mut machine(b"")));
}

#[test]
fn read_normal_passes() {
    assert!(read_normal(&mut Process::new(), &mut machine(b"")));
}

#[test]
fn read_truncate_passes() {
    assert!(read_truncate(&mut Process::new(), &mut machine(b"")));
}

#[test]
fn write_normal_passes() {
    let mut m = machine(b"");
    assert!(write_normal(&mut Process::new(), &mut m));
    assert_eq!(m.contents[1], hello_content());
}

#[test]
fn write_sync_passes() {
    let mut m = machine(b"");
    assert!(write_sync(&mut Process::new(), &mut m));
    assert_eq!(&m.contents[1][..7], b"Awesome");
}

#[test]
fn write_persistence_passes() {
    let mut m = machine(b"");
    assert!(write_persistence(&mut Process::new(), &mut m));
    assert_eq!(m.contents[2], hello_content());
}

#[test]
fn tell_basic_passes() {
    assert!(tell_basic(&mut Process::new(), &mut machine(b"")));
}

#[test]
fn tell_write_passes() {
    let mut m = machine(b"");
    assert!(tell_write(&mut Process::new(), &mut m));
    assert_eq!(&m.contents[3][..7], b"Awesome");
    assert_eq!(m.contents[3].len(), 140);
}

#[test]
fn stdio_partial_passes() {
    let mut m = machine(b"Hello, World");
    assert!(stdio_partial(&mut Process::new(), &mut m));
    assert!(m.tty.output.is_empty());
}

#[test]
fn stdout_empty_passes() {
    let mut m = machine(b"");
    assert!(stdout_empty(&mut Process::new(), &mut m));
    assert!(m.tty.output.is_empty());
}

#[test]
fn stderr_empty_passes() {
    let mut m = machine(b"");
    assert!(stderr_empty(&mut Process::new(), &mut m));
    assert!(m.tty.output.is_empty());
}

#[test]
fn pipe_normal_passes() {
    assert!(pipe_normal(&mut Process::new(), &mut machine(b"")));
}

#[test]
fn open_errors() {
    let mut p = Process::new();
    let mut m = machine(b"");
    let missing = put_str(&mut m, 0, b"nonexistant\0");
    assert_eq!(sys(&mut p, &mut m, 1, missing, 0, 0), err(KernelError::NoSuchEntry));
    assert_eq!(sys(&mut p, &mut m, 1, 0, 0, 0), err(KernelError::BadAddress));
    let hello = put_str(&mut m, 32, b"hello\0");
    assert_eq!(sys(&mut p, &mut m, 1, hello, 9999, 0), err(KernelError::InvalidArgument));
    assert_eq!(sys(&mut p, &mut m, 1, hello, 0, 0), 3);
}

#[test]
fn read_and_write_errors() {
    let mut p = Process::new();
    let mut m = machine(b"");
    let buf = BASE + 512;
    assert_eq!(sys(&mut p, &mut m, 2, usize::MAX, buf, 10), err(KernelError::BadFileDescriptor));
    let hello = put_str(&mut m, 0, b"hello\0");
    let wo = sys(&mut p, &mut m, 1, hello, 1, 0) as usize;
    assert_eq!(sys(&mut p, &mut m, 2, wo, buf, 24), err(KernelError::InvalidArgument));
    let ro = sys(&mut p, &mut m, 1, hello, 0, 0) as usize;
    assert_eq!(sys(&mut p, &mut m, 3, ro, buf, 24), err(KernelError::InvalidArgument));
    assert_eq!(sys(&mut p, &mut m, 2, ro, 0, 10), err(KernelError::BadAddress));
    assert_eq!(sys(&mut p, &mut m, 3, wo, 0, 10), err(KernelError::BadAddress));
    assert_eq!(sys(&mut p, &mut m, 2, 1, buf, 12), err(KernelError::InvalidArgument));
    assert_eq!(sys(&mut p, &mut m, 3, 0, buf, 12), err(KernelError::InvalidArgument));
}

#[test]
fn seek_and_tell() {
    let mut p = Process::new();
    let mut m = machine(b"");
    let hello = put_str(&mut m, 0, b"hello\0");
    let fd = sys(&mut p, &mut m, 1, hello, 0, 0) as usize;
    let buf = BASE + 512;
    assert_eq!(sys(&mut p, &mut m, 2, fd, buf, 24), 24);
    assert_eq!(sys(&mut p, &mut m, 4, fd, 0, 1), 24);
    assert_eq!(sys(&mut p, &mut m, 4, fd, (-13isize) as usize, 1), 11);
    assert_eq!(sys(&mut p, &mut m, 2, fd, buf, 4), 4);
    assert_eq!(&m.mem.bytes[512..516], b"KeOS");
    assert_eq!(sys(&mut p, &mut m, 4, fd, (-0x10isize) as usize, 2), 140 - 0x10);
    assert_eq!(sys(&mut p, &mut m, 4, fd, 3000, 0), 3000);
    assert_eq!(sys(&mut p, &mut m, 2, fd, buf, 10), 0);
    assert_eq!(sys(&mut p, &mut m, 5, fd, 0, 0), 3000);
    assert_eq!(sys(&mut p, &mut m, 4, fd, 0, 3), err(KernelError::InvalidArgument));
    assert_eq!(sys(&mut p, &mut m, 4, fd, (-1isize) as usize, 0), err(KernelError::InvalidArgument));
    for stdio in 0..3 {
        assert_eq!(sys(&mut p, &mut m, 4, stdio, 0, 0), err(KernelError::InvalidArgument));
        assert_eq!(sys(&mut p, &mut m, 5, stdio, 0, 0), err(KernelError::InvalidArgument));
    }
    assert_eq!(sys(&mut p, &mut m, 4, usize::MAX, 0, 0), err(KernelError::BadFileDescriptor));
    assert_eq!(sys(&mut p, &mut m, 5, 3123, 0, 0), err(KernelError::BadFileDescriptor));
}

#[test]
fn write_past_end_fills_with_zeros() {
    let mut p = Process::new();
    let mut m = machine(b"");
    let hello = put_str(&mut m, 0, b"hello\0");
    let fd = sys(&mut p, &mut m, 1, hello, 2, 0) as usize;
    assert_eq!(sys(&mut p, &mut m, 4, fd, 150, 0), 150);
    let data = put_str(&mut m, 64, b"tail");
    assert_eq!(sys(&mut p, &mut m, 3, fd, data, 4), 4);
    assert_eq!(m.contents[0].len(), 154);
    assert_eq!(&m.contents[0][140..150], &[0u8; 10]);
    assert_eq!(&m.contents[0][150..], b"tail");
    assert_eq!(sys(&mut p, &mut m, 5, fd, 0, 0), 154);
}

#[test]
fn close_frees_descriptors() {
    let mut p = Process::new();
    let mut m = machine(b"Awesome or not?");
    let buf = BASE + 512;
    let hello = put_str(&mut m, 0, b"hello\0");
    let fd = sys(&mut p, &mut m, 1, hello, 2, 0) as usize;
    assert_eq!(sys(&mut p, &mut m, 6, fd, 0, 0), 0);
    assert_eq!(sys(&mut p, &mut m, 2, fd, buf, 24), err(KernelError::BadFileDescriptor));
    assert_eq!(sys(&mut p, &mut m, 3, fd, buf, 24), err(KernelError::BadFileDescriptor));
    assert_eq!(sys(&mut p, &mut m, 6, 9222, 0, 0), err(KernelError::BadFileDescriptor));
    assert_eq!(sys(&mut p, &mut m, 2, 0, buf, 7), 7);
    assert_eq!(sys(&mut p, &mut m, 6, 0, 0, 0), 0);
    assert_eq!(sys(&mut p, &mut m, 2, 0, buf, 7), err(KernelError::BadFileDescriptor));
    assert_eq!(sys(&mut p, &mut m, 6, 1, 0, 0), 0);
    assert_eq!(sys(&mut p, &mut m, 3, 1, buf, 7), err(KernelError::BadFileDescriptor));
    assert_eq!(sys(&mut p, &mut m, 3, 2, buf, 7), 7);
    assert_eq!(sys(&mut p, &mut m, 6, 2, 0, 0), 0);
    assert_eq!(sys(&mut p, &mut m, 3, 2, buf, 7), err(KernelError::BadFileDescriptor));
    assert_eq!(m.tty.output, b"Awesome".to_vec());
    // The lowest free descriptor is reused.
    assert_eq!(sys(&mut p, &mut m, 1, hello, 0, 0), 0);
}

#[test]
fn stdout_write_reaches_terminal() {
    let mut p = Process::new();
    let mut m = machine(b"");
    let data = put_str(&mut m, 64, b"Hello, keos!");
    assert_eq!(sys(&mut p, &mut m, 3, 1, data, 12), 12);
    assert_eq!(sys(&mut p, &mut m, 3, 2, data, 5), 5);
    assert_eq!(m.tty.output, b"Hello, keos!Hello".to_vec());
}

#[test]
fn pipe_partial_and_broken() {
    let mut p = Process::new();
    let mut m = machine(b"");
    let fds = BASE + 256;
    assert_eq!(sys(&mut p, &mut m, 7, fds, 0, 0), 0);
    let rx = u32::from_le_bytes(m.mem.bytes[256..260].try_into().unwrap()) as usize;
    let tx = u32::from_le_bytes(m.mem.bytes[260..264].try_into().unwrap()) as usize;
    assert_eq!((rx, tx), (3, 4));
    let data = put_str(&mut m, 64, b"Hello, keos!");
    assert_eq!(sys(&mut p, &mut m, 3, tx, data, 12), 12);
    assert_eq!(sys(&mut p, &mut m, 6, tx, 0, 0), 0);
    let buf = BASE + 512;
    assert_eq!(sys(&mut p, &mut m, 2, rx, buf, 7), 7);
    assert_eq!(&m.mem.bytes[512..519], b"Hello, ");
    assert_eq!(sys(&mut p, &mut m, 2, rx, buf, 7), 5);
    assert_eq!(&m.mem.bytes[512..517], b"keos!");
    assert_eq!(sys(&mut p, &mut m, 2, rx, buf, 12), err(KernelError::BrokenPipe));
}

#[test]
fn pipe_directions_and_address() {
    let mut p = Process::new();
    let mut m = machine(b"");
    let fds = BASE + 256;
    assert_eq!(sys(&mut p, &mut m, 7, fds, 0, 0), 0);
    let buf = BASE + 512;
    assert_eq!(sys(&mut p, &mut m, 3, 3, buf, 8), err(KernelError::InvalidArgument));
    assert_eq!(sys(&mut p, &mut m, 2, 4, buf, 8), err(KernelError::InvalidArgument));
    assert_eq!(sys(&mut p, &mut m, 7, 0, 0, 0), err(KernelError::BadAddress));
    assert_eq!(sys(&mut p, &mut m, 6, 3, 0, 0), 0);
    let data = put_str(&mut m, 64, b"x");
    assert_eq!(sys(&mut p, &mut m, 3, 4, data, 1), err(KernelError::BrokenPipe));
}

#[test]
fn too_many_open_files() {
    let mut fs = FileStruct::new();
    for i in 3..=1024 {
        assert_eq!(fs.install_file(File { mode: FileMode::Read, file: FileKind::Stdio }).map(|fd| fd.0), Ok(i));
    }
    assert_eq!(
        fs.install_file(File { mode: FileMode::Read, file: FileKind::Stdio }).map(|fd| fd.0),
        Err(KernelError::TooManyOpenFile)
    );
}

#[test]
fn open_invalid_passes() {
    assert!(open_invalid(&mut Process::new(), &mut machine(b"")));
}

#[test]
fn read_error_graders_pass() {
    assert!(read_error_bad_fd(&mut Process::new(), &mut machine(b"")));
    assert!(read_error_bad_mode(&mut Process::new(), &mut machine(b"")));
    assert!(read_error_bad_address(&mut Process::new(), &mut machine(b"")));
}

#[test]
fn write_error_graders_pass() {
    let mut m = machine(b"");
    assert!(write_error_bad_fd(&mut Process::new(), &mut m));
    assert!(write_error_bad_mode(&mut Process::new(), &mut m));
    assert!(write_error_bad_address(&mut Process::new(), &mut m));
    assert_eq!(m.contents[0], hello_content());
}

#[test]
fn seek_graders_pass() {
    assert!(seek_begin(&mut Process::new(), &mut machine(b"")));
    let mut p = Process::new();
    let mut m = machine(b"");
    assert!(seek_current(&mut p, &mut m));
    assert_eq!(m.mem.load(BASE + 256, 24).unwrap(), b"KeOSome to KeOS Project!".to_vec());
    assert!(seek_end(&mut Process::new(), &mut machine(b"")));
    assert!(seek_beyond_eof(&mut Process::new(), &mut machine(b"")));
}

#[test]
fn seek_error_graders_pass() {
    assert!(seek_error_stdio(&mut Process::new(), &mut machine(b"")));
    assert!(seek_error_bad_fd(&mut Process::new(), &mut machine(b"")));
    assert!(seek_error_bad_whence(&mut Process::new(), &mut machine(b"")));
}

#[test]
fn tell_error_graders_pass() {
    assert!(tell_error_stdio(&mut Process::new(), &mut machine(b"")));
    assert!(tell_error_bad_fd(&mut Process::new(), &mut machine(b"")));
}

#[test]
fn stdio_normal_passes() {
    let mut m = machine(b"KeOS is fun!");
    assert!(stdio_normal(&mut Process::new(), &mut m));
    assert!(m.tty.output.is_empty());
}

#[test]
fn stdout_and_stderr_graders_pass() {
    let mut m = machine(b"");
    assert!(stdout_normal(&mut Process::new(), &mut m));
    assert_eq!(m.tty.output, b"Hello, keos!".to_vec());
    let mut m = machine(b"");
    assert!(stderr_normal(&mut Process::new(), &mut m));
    assert_eq!(m.tty.output, b"Hello, keos!".to_vec());
    assert!(stdout_invalid(&mut Process::new(), &mut machine(b"")));
    assert!(stderr_invalid(&mut Process::new(), &mut machine(b"")));
}

#[test]
fn close_passes() {
    let mut p = Process::new();
    let mut m = machine(b"Awesome or not?");
    assert!(close(&mut p, &mut m));
    assert_eq!(m.tty.output, b"Awesome".to_vec());
    assert!(p.file_struct.files.iter().all(|f| f.is_none()));
}

#[test]
fn pipe_partial_passes() {
    let mut m = machine(b"");
    assert!(pipe_partial(&mut Process::new(), &mut m));
    assert_eq!(m.pipes.len(), 1);
    assert!(m.pipes[0].reader_open && !m.pipes[0].writer_open);
}

#[test]
fn pipe_error_graders_pass() {
    assert!(pipe_error_bad_direction(&mut Process::new(), &mut machine(b"")));
    assert!(pipe_error_bad_address(&mut Process::new(), &mut machine(b"")));
}
