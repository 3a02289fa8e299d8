use lib::error::KernelError;
use lib::machine::{Machine, Registers, Teletype, UserMemory};
use lib::project2::elf::Permission;
use lib::project2::mm_struct::Backing;
use lib::project3::lazy_pager::{AnonLoader, FileBackedLoader, LazyPager, PageFaultReason};
use lib::project1::file_struct::FileStruct;
use lib::project3::{fork, Process};

const READ: Permission = Permission { read: true, write: false, executable: false, user: false };
const READ_WRITE: Permission = Permission { read: true, write: true, executable: false, user: false };

fn machine() -> Machine {
    Machine {
        names: vec![b"hello".to_vec()],
        contents: vec![b"Hello, mmap!".to_vec()],
        tty: Teletype::new(Vec::new()),
        pipes: Vec::new(),
        mem: UserMemory::new(0x10_0000, 4096),
    }
}

fn fault(addr: u64, write: bool, present: bool) -> PageFaultReason {
    PageFaultReason { fault_addr: addr, is_write_access: write, is_present: present }
}

fn page_data(p: &LazyPager, va: u64) -> Option<(bool, Vec<u8>)> {
    p.pages.iter().find(|q| q.va == va).map(|q| (q.writable, q.data.clone()))
}

#[test]
fn error_code_decodes() {
    let r = PageFaultReason::new(0b10, 0x1234);
    assert_eq!(r.fault_addr, 0x1234);
    assert!(r.is_write_access && !r.is_present);
    assert!(r.is_demand_paging_fault() && !r.is_cow_fault());
    let r = PageFaultReason::new(0b11, 0x1234);
    assert!(!r.is_demand_paging_fault() && r.is_cow_fault());
    let r = PageFaultReason::new(0b01, 0x1234);
    assert!(!r.is_demand_paging_fault() && !r.is_cow_fault());
}

#[test]
fn loaders_fill_pages() {
    let m = machine();
    let zero = AnonLoader {}.load(0x5000);
    assert_eq!(zero.len(), 4096);
    assert!(zero.iter().all(|b| *b == 0));
    let l = FileBackedLoader { file: 0, offset: 0, start: 0x1000 };
    let page = l.load(&m, 0x1000);
    assert_eq!(page.len(), 4096);
    assert_eq!(&page[..12], b"Hello, mmap!");
    assert!(page[12..].iter().all(|b| *b == 0));
    let l = FileBackedLoader { file: 0, offset: 7, start: 0x1000 };
    assert_eq!(&l.load(&m, 0x1000)[..6], b"mmap!\0");
    assert!(l.load(&m, 0x2000).iter().all(|b| *b == 0));
    let far = FileBackedLoader { file: 0, offset: u64::MAX, start: 0x1000 };
    assert!(far.load(&m, 0x2000).iter().all(|b| *b == 0));
}

#[test]
fn mmap_loads_nothing_until_a_fault() {
    let m = machine();
    let mut p = LazyPager::new();
    assert_eq!(p.mmap(0x1000, 0x2000, READ_WRITE, Backing::Anonymous), Ok(0x1000));
    assert_eq!(p.mmap(0x8000, 100, READ, Backing::File { file: 0, offset: 0 }), Ok(0x8000));
    assert_eq!(p.mmap(0x2000, 0x1000, READ, Backing::Anonymous), Err(KernelError::InvalidArgument));
    assert!(p.pages.is_empty());
    assert!(p.access_ok(0x1fff, true));
    assert!(p.access_ok(0x8010, false));
    assert!(!p.access_ok(0x8010, true));
    assert!(!p.access_ok(0x3000, false));
    assert!(p.pages.is_empty());
    // A read fault in the file-backed region loads the file's bytes.
    assert_eq!(p.handle_page_fault(&m, &fault(0x8004, false, false)), Ok(()));
    let (w, data) = page_data(&p, 0x8000).unwrap();
    assert!(!w);
    assert_eq!(&data[..12], b"Hello, mmap!");
    // A second fault on the same page changes nothing.
    assert_eq!(p.do_lazy_load(&m, &fault(0x8fff, false, false)), Ok(()));
    assert_eq!(p.pages.len(), 1);
    // get_user_page loads on demand and reports the rights.
    let perm = p.get_user_page(&m, 0x2345).unwrap();
    assert!(perm.write && perm.user);
    let (w, data) = page_data(&p, 0x2000).unwrap();
    assert!(w);
    assert!(data.iter().all(|b| *b == 0));
    assert_eq!(p.get_user_page(&m, 0x9000), None);
}

#[test]
fn bad_faults_are_refused() {
    let m = machine();
    let mut p = LazyPager::new();
    assert_eq!(p.mmap(0x400000, 0x1000, READ, Backing::Anonymous), Ok(0x400000));
    // Writing to read-only memory, loaded or not.
    assert_eq!(p.handle_page_fault(&m, &fault(0x400010, true, false)), Err(KernelError::InvalidAccess));
    assert_eq!(p.handle_page_fault(&m, &fault(0x400010, false, false)), Ok(()));
    assert_eq!(p.handle_page_fault(&m, &fault(0x400010, true, true)), Err(KernelError::InvalidAccess));
    // A read fault on a present page, and an unmapped address.
    assert_eq!(p.handle_page_fault(&m, &fault(0x400010, false, true)), Err(KernelError::InvalidAccess));
    assert_eq!(p.handle_page_fault(&m, &fault(0xdead_0000, false, false)), Err(KernelError::InvalidAccess));
    assert_eq!(p.pages.len(), 1);
}

#[test]
fn fork_shares_write_protected_pages() {
    let m = machine();
    let mut parent = LazyPager::new();
    assert_eq!(parent.mmap(0x1000, 0x2000, READ_WRITE, Backing::File { file: 0, offset: 0 }), Ok(0x1000));
    assert_eq!(parent.handle_page_fault(&m, &fault(0x1000, true, false)), Ok(()));
    assert_eq!(page_data(&parent, 0x1000).unwrap().0, true);
    let mut child = parent.write_protect_ptes().unwrap();
    assert_eq!(page_data(&parent, 0x1000).unwrap().0, false);
    assert_eq!(page_data(&child, 0x1000).unwrap().0, false);
    assert_eq!(child.vmas.areas.len(), 1);
    // A write by the child makes its page writable, with the same bytes.
    assert_eq!(child.handle_page_fault(&m, &fault(0x1008, true, true)), Ok(()));
    let (w, data) = page_data(&child, 0x1000).unwrap();
    assert!(w);
    assert_eq!(&data[..12], b"Hello, mmap!");
    assert_eq!(page_data(&parent, 0x1000).unwrap().0, false);
    // A write fault on a page that is not loaded is no copy-on-write.
    assert_eq!(child.do_copy_on_write(&fault(0x2000, true, true)), Err(KernelError::InvalidAccess));
}

#[test]
fn munmap_drops_the_region_and_its_pages() {
    let m = machine();
    let mut p = LazyPager::new();
    assert_eq!(p.mmap(0x1000, 0x2000, READ_WRITE, Backing::Anonymous), Ok(0x1000));
    assert_eq!(p.mmap(0x5000, 0x1000, READ_WRITE, Backing::Anonymous), Ok(0x5000));
    assert_eq!(p.handle_page_fault(&m, &fault(0x1000, false, false)), Ok(()));
    assert_eq!(p.handle_page_fault(&m, &fault(0x5000, false, false)), Ok(()));
    assert_eq!(p.handle_page_fault(&m, &fault(0x2000, false, false)), Ok(()));
    assert_eq!(p.munmap(0x2000), Err(KernelError::InvalidArgument));
    assert_eq!(p.munmap(0x1000), Ok(0));
    assert_eq!(p.pages.len(), 1);
    assert_eq!(p.pages[0].va, 0x5000);
    assert_eq!(p.handle_page_fault(&m, &fault(0x1000, false, false)), Err(KernelError::InvalidAccess));
}

#[test]
fn fork_copies_files_and_zeroes_the_child_result() {
    let m = machine();
    let mut fs = FileStruct::new();
    fs.install_file(lib::project1::file_struct::File {
        mode: lib::project1::file_struct::FileMode::Read,
        file: lib::project1::file_struct::FileKind::RegularFile { file: 0, position: 5 },
    })
    .unwrap();
    let mut mm = LazyPager::new();
    assert_eq!(mm.mmap(0x1000, 0x1000, READ_WRITE, Backing::Anonymous), Ok(0x1000));
    assert_eq!(mm.handle_page_fault(&m, &fault(0x1000, true, false)), Ok(()));
    let regs = Registers { rax: 10, rdi: 1, rsi: 2, rdx: 3, r10: 4, r8: 5, r9: 6 };
    let (child_fs, child, child_regs) = fork(&fs, &mut mm, &regs).unwrap();
    assert_eq!(child_fs.files, fs.files);
    assert_eq!(child_regs.rax, 0);
    assert_eq!((child_regs.rdi, child_regs.r9), (1, 6));
    assert_eq!(child.pages.len(), 1);
    assert!(!child.pages[0].writable && !mm.pages[0].writable);
}

#[test]
fn process_page_fault_ends_the_process_on_a_bad_access() {
    let m = machine();
    let mut mm = LazyPager::new();
    assert_eq!(mm.mmap(0x1000, 0x1000, READ, Backing::Anonymous), Ok(0x1000));
    let mut p = Process::from_mm_struct(mm);
    // A read of a fresh page (error code 0) loads it.
    assert_eq!(p.page_fault(&m, 0b00, 0x1010), None);
    assert_eq!(p.mm_struct.pages.len(), 1);
    // A write to it (present, write) is refused: the process ends with -1.
    assert_eq!(p.page_fault(&m, 0b11, 0x1010), Some(-1));
    assert_eq!(p.page_fault(&m, 0b00, 0x9000), Some(-1));
}
