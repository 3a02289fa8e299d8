use lib::error::KernelError;
use lib::machine::{Machine, Registers, Teletype, UserMemory};
use lib::project1::file_struct::{File, FileKind, FileMode, FileStruct};
use lib::project1::syscall::SyscallAbi;
use lib::project2::elf::Permission;
use lib::project2::mm_struct::{decode_prot, Backing, MmStruct, VmArea};
use lib::project2::Process;

const READ: Permission = Permission { read: true, write: false, executable: false, user: false };
const READ_WRITE: Permission = Permission { read: true, write: true, executable: false, user: false };

fn abi(a1: usize, a2: usize, a3: usize, a4: usize, a5: usize) -> SyscallAbi {
    SyscallAbi { sysno: 8, arg1: a1, arg2: a2, arg3: a3, arg4: a4, arg5: a5, arg6: 0 }
}

fn machine() -> Machine {
    Machine {
        names: vec![b"hello".to_vec(), b"empty".to_vec()],
        contents: vec![b"Hello, mmap!".to_vec(), Vec::new()],
        tty: Teletype::new(Vec::new()),
        pipes: Vec::new(),
        mem: UserMemory::new(0x10_0000, 4096),
    }
}

#[test]
fn do_mmap() {
    let mut mm = MmStruct::new();
    let small_va: u64 = 0x1000;
    let big_va: u64 = 0x0000_7FFF_4746_0000;
    assert_eq!(mm.do_mmap(small_va, 0x1000, READ, Backing::Anonymous), Ok(0x1000));
    assert_eq!(mm.do_mmap(big_va, 0x2000, READ, Backing::Anonymous), Ok(0x0000_7FFF_4746_0000));
    assert_eq!(mm.areas.len(), 2);
    assert_eq!(mm.areas[1].end, 0x0000_7FFF_4746_2000);
}

#[test]
fn bad_addr_0() {
    let mut mm = MmStruct::new();
    let null_va: u64 = 0;
    let small_va: u64 = 0x1000;
    let misaligned: u64 = 0x1337;
    let kern_percpu: u64 = 0xFFFF_FF00_0090_0000;
    assert_eq!(
        mm.do_mmap(null_va, 0x1000, READ, Backing::Anonymous),
        Err(KernelError::InvalidArgument)
    );
    assert_eq!(
        mm.do_mmap(kern_percpu, 0x1000, READ, Backing::Anonymous),
        Err(KernelError::InvalidArgument)
    );
    assert_eq!(
        mm.do_mmap(small_va, -0x2000i64 as u64, READ, Backing::Anonymous),
        Err(KernelError::InvalidArgument)
    );
    assert_eq!(
        mm.do_mmap(misaligned, 0x1000, READ, Backing::Anonymous),
        Err(KernelError::InvalidArgument)
    );
    assert!(mm.areas.is_empty());
}

#[test]
fn access_ok_normal() {
    let mut mm = MmStruct::new();
    let ro: u64 = 0x1000;
    let rw: u64 = 0x2000;
    assert_eq!(mm.do_mmap(ro, 0x1000, READ, Backing::Anonymous), Ok(0x1000));
    assert!(mm.access_ok(ro, ro + 0xfff, false));
    assert_eq!(mm.do_mmap(rw, 0x1000, READ_WRITE, Backing::Anonymous), Ok(0x2000));
    assert!(mm.access_ok(rw, rw + 0xfff, true));
}

#[test]
fn access_ok_invalid() {
    let mut mm = MmStruct::new();
    let null_va: u64 = 0;
    let misaligned: u64 = 0x42;
    let kern_percpu: u64 = 0xFFFF_FF00_0090_0000;
    assert!(!mm.access_ok(kern_percpu, kern_percpu + 0xfff, false));
    assert!(!mm.access_ok(null_va, null_va + 0xfff, false));
    assert!(!mm.access_ok(misaligned, misaligned + 1, false));
    let non_allocated: u64 = 0xDEADBEEF;
    assert!(!mm.access_ok(non_allocated, non_allocated + 1, false));
    let ro: u64 = 0x1000;
    assert_eq!(mm.do_mmap(ro, 0x1000, READ, Backing::Anonymous), Ok(0x1000));
    assert!(!mm.access_ok(ro, ro + 0xfff, true));
}

#[test]
fn access_ok_spans_adjacent_regions() {
    let mut mm = MmStruct::new();
    assert_eq!(mm.do_mmap(0x3000, 0x1000, READ_WRITE, Backing::Anonymous), Ok(0x3000));
    assert_eq!(mm.do_mmap(0x1000, 0x1800, READ_WRITE, Backing::Anonymous), Ok(0x1000));
    // The second region is rounded up to whole pages: 0x1000..0x3000.
    assert!(mm.access_ok(0x1000, 0x4000, true));
    assert!(mm.access_ok(0x2fff, 0x3001, false));
    assert!(!mm.access_ok(0x1000, 0x4001, false));
    // An empty range asks for nothing.
    assert!(mm.access_ok(0x9000, 0x9000, true));
}

#[test]
fn overlapping_mmap_is_refused() {
    let mut mm = MmStruct::new();
    assert_eq!(mm.do_mmap(0x4000, 0x1001, READ, Backing::Anonymous), Ok(0x4000));
    assert_eq!(mm.do_mmap(0x5000, 0x1000, READ, Backing::Anonymous), Err(KernelError::InvalidArgument));
    assert_eq!(mm.do_mmap(0x3000, 0x1001, READ, Backing::Anonymous), Err(KernelError::InvalidArgument));
    assert_eq!(mm.do_mmap(0x3000, 0x1000, READ, Backing::Anonymous), Ok(0x3000));
    assert_eq!(mm.do_mmap(0x6000, 0x1000, READ, Backing::Anonymous), Ok(0x6000));
}

#[test]
fn mmap_needs_read_permission() {
    let mut mm = MmStruct::new();
    let write_only = Permission { read: false, write: true, executable: false, user: false };
    assert_eq!(mm.do_mmap(0x1000, 0x1000, write_only, Backing::Anonymous), Err(KernelError::InvalidArgument));
    assert_eq!(mm.do_mmap(0x1000, 0x1000, READ, Backing::Anonymous), Ok(0x1000));
    assert!(mm.areas[0].perm.user);
}

#[test]
fn munmap_removes_exactly_the_region() {
    let mut mm = MmStruct::new();
    assert_eq!(mm.do_mmap(0x1000, 0x2000, READ_WRITE, Backing::Anonymous), Ok(0x1000));
    assert_eq!(mm.do_mmap(0x8000, 0x1000, READ, Backing::Anonymous), Ok(0x8000));
    assert_eq!(mm.do_munmap(0x2000), Err(KernelError::InvalidArgument));
    assert_eq!(mm.do_munmap(0x1000), Ok(0));
    assert!(!mm.access_ok(0x1000, 0x1001, false));
    assert!(mm.access_ok(0x8000, 0x9000, false));
    assert_eq!(mm.do_munmap(0x1000), Err(KernelError::InvalidArgument));
    assert_eq!(mm.areas.len(), 1);
}

#[test]
fn get_user_page_reports_page_and_rights() {
    let mut mm = MmStruct::new();
    assert_eq!(mm.do_mmap(0x1000, 0x2000, READ_WRITE, Backing::Anonymous), Ok(0x1000));
    let (page, perm) = mm.get_user_page(0x2345).unwrap();
    assert_eq!(page, 0x2000);
    assert!(perm.read && perm.write && perm.user && !perm.executable);
    assert_eq!(mm.get_user_page(0x3000), Err(KernelError::BadAddress));
    assert_eq!(mm.get_user_page(0), Err(KernelError::BadAddress));
}

#[test]
fn protection_bits_decode() {
    assert_eq!(decode_prot(1), Some(Permission { read: true, write: false, executable: false, user: true }));
    assert_eq!(decode_prot(7), Some(Permission { read: true, write: true, executable: true, user: true }));
    assert_eq!(decode_prot(0), Some(Permission { read: false, write: false, executable: false, user: true }));
    assert_eq!(decode_prot(8), None);
}

#[test]
fn mmap_syscall_anonymous_and_file_backed() {
    let m = machine();
    let mut fs = FileStruct::new();
    fs.install_file(File { mode: FileMode::Read, file: FileKind::RegularFile { file: 0, position: 0 } }).unwrap();
    fs.install_file(File { mode: FileMode::Read, file: FileKind::RegularFile { file: 1, position: 0 } }).unwrap();
    let mut mm = MmStruct::new();
    assert_eq!(mm.mmap(&mut fs, &m, &abi(0x1000, 0x1000, 3, usize::MAX, 0)), Ok(0x1000));
    assert_eq!(mm.mmap(&mut fs, &m, &abi(0x4000, 100, 1, 3, 0x10)), Ok(0x4000));
    assert_eq!(mm.areas[1].backing, Backing::File { file: 0, offset: 0x10 });
    assert_eq!(mm.areas[1].end, 0x5000);
    // The empty file, a closed descriptor, the terminal, unknown bits.
    assert_eq!(mm.mmap(&mut fs, &m, &abi(0x6000, 100, 1, 4, 0)), Err(KernelError::InvalidArgument));
    assert_eq!(mm.mmap(&mut fs, &m, &abi(0x6000, 100, 1, 9, 0)), Err(KernelError::BadFileDescriptor));
    assert_eq!(mm.mmap(&mut fs, &m, &abi(0x6000, 100, 1, 0, 0)), Err(KernelError::InvalidArgument));
    assert_eq!(mm.mmap(&mut fs, &m, &abi(0x6000, 100, 9, usize::MAX, 0)), Err(KernelError::InvalidArgument));
    assert_eq!(mm.mmap(&mut fs, &m, &abi(0x1000, 100, 1, usize::MAX, 0)), Err(KernelError::InvalidArgument));
    assert_eq!(mm.areas.len(), 2);
    let unmap = SyscallAbi { sysno: 9, arg1: 0x4000, arg2: 0, arg3: 0, arg4: 0, arg5: 0, arg6: 0 };
    assert_eq!(mm.munmap(&unmap), Ok(0));
    assert_eq!(mm.munmap(&unmap), Err(KernelError::InvalidArgument));
    let only: Vec<VmArea> = mm.areas.clone();
    assert_eq!(only.len(), 1);
}

#[test]
fn process_dispatches_memory_calls() {
    let mut m = machine();
    let mut p = Process::new();
    let mut regs = Registers { rax: 8, rdi: 0x1000, rsi: 0x1000, rdx: 3, r10: usize::MAX, r8: 0, r9: 0 };
    assert_eq!(p.syscall(&mut m, &mut regs), None);
    assert_eq!(regs.rax, 0x1000);
    assert_eq!(p.mm_struct.areas.len(), 1);
    // Mapping the same page again fails with -EINVAL.
    let mut regs = Registers { rax: 8, rdi: 0x1000, rsi: 0x1000, rdx: 3, r10: usize::MAX, r8: 0, r9: 0 };
    assert_eq!(p.syscall(&mut m, &mut regs), None);
    assert_eq!(regs.rax as isize, -(KernelError::InvalidArgument.errno() as isize));
    let mut regs = Registers { rax: 9, rdi: 0x1000, rsi: 0, rdx: 0, r10: 0, r8: 0, r9: 0 };
    assert_eq!(p.syscall(&mut m, &mut regs), None);
    assert_eq!(regs.rax, 0);
    assert!(p.mm_struct.areas.is_empty());
    // File calls still work; an unknown number fails; exit ends the process.
    let mut regs = Registers { rax: 6, rdi: 1, rsi: 0, rdx: 0, r10: 0, r8: 0, r9: 0 };
    assert_eq!(p.syscall(&mut m, &mut regs), None);
    assert_eq!(regs.rax, 0);
    let mut regs = Registers { rax: 42, rdi: 0, rsi: 0, rdx: 0, r10: 0, r8: 0, r9: 0 };
    assert_eq!(p.syscall(&mut m, &mut regs), None);
    assert_eq!(regs.rax as isize, -(KernelError::NoSuchSyscall.errno() as isize));
    let mut regs = Registers { rax: 0, rdi: 3, rsi: 0, rdx: 0, r10: 0, r8: 0, r9: 0 };
    assert_eq!(p.syscall(&mut m, &mut regs), Some(3));
    assert_eq!(regs.rax, 0);
}

#[test]
fn get_user_page_and_applies_the_function() {
    let mut mm = MmStruct::new();
    assert_eq!(mm.do_mmap(0x1000, 0x2000, READ_WRITE, Backing::Anonymous), Ok(0x1000));
    assert_eq!(mm.get_user_page_and(0x2345, |page, perm| (page, perm.write)), Ok((0x2000, true)));
    assert_eq!(mm.get_user_page_and(0x9000, |page, _| page), Err(KernelError::BadAddress));
}
