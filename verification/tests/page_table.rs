use lib::error::KernelError;
use lib::project1::syscall::SyscallAbi;
use lib::project2::elf::Permission;
use lib::project3::get_phys;
use lib::project2::page_table::{PageTable, PageTableMappingError, Pte, PTE_P, PTE_RW, PTE_US, PTE_XD};

fn perm(read: bool, write: bool, executable: bool, user: bool) -> Permission {
    Permission { read, write, executable, user }
}

fn all_cases() -> Vec<Permission> {
    let mut v = Vec::new();
    for bits in 0..16u8 {
        v.push(perm(bits & 1 != 0, bits & 2 != 0, bits & 4 != 0, bits & 8 != 0));
    }
    v
}

fn expected_flags(p: Permission) -> u64 {
    let mut f = 0;
    if p.read || p.write || p.executable {
        f |= PTE_P;
        if p.write {
            f |= PTE_RW;
        }
        if p.user {
            f |= PTE_US;
        }
        if !p.executable {
            f |= PTE_XD;
        }
    }
    f
}

fn check_insert_one(pgtbl: &mut PageTable, va: u64, pa: u64, permission: Permission) {
    assert!(pgtbl.map(va, pa, permission).is_ok());
    let pte = pgtbl.walk(va).expect("walk failed");
    assert_eq!(pte.pa, pa);
    assert_eq!(pte.flags, expected_flags(permission));
}

fn check_remove_one(pgtbl: &mut PageTable, va: u64) {
    assert!(pgtbl.unmap(va).is_ok());
    assert_eq!(pgtbl.walk(va), Err(PageTableMappingError::NotExist));
}

#[test]
fn simple() {
    let mut pgtbl = PageTable::new();
    let rw = perm(true, true, false, false);
    assert!(pgtbl.map(0x1000, 0x20_0000, rw).is_ok());
    assert!(pgtbl.walk(0x1000).is_ok());
    assert_eq!(pgtbl.unmap(0x1000), Ok(0x20_0000));
    assert_eq!(pgtbl.walk(0x1000), Err(PageTableMappingError::NotExist));
}

#[test]
fn simple2() {
    let mut pgtbl = PageTable::new();
    for p in all_cases() {
        let map_expect = if !p.read { Err(PageTableMappingError::InvalidPermission) } else { Ok(()) };
        for i in 0x1234u64..0x1334 {
            assert_eq!(pgtbl.map(i * 0x1000, i * 0x1000 + 0x100_0000, p), map_expect);
        }
        for i in (0x1234u64..0x1334).rev() {
            let r = pgtbl.unmap(i * 0x1000).map(|_| ());
            if map_expect.is_err() {
                assert_eq!(r, Err(PageTableMappingError::NotExist));
            } else {
                assert_eq!(r, Ok(()));
            }
        }
    }
}

#[test]
fn x86_permission_flags() {
    let mut pgtbl = PageTable::new();
    let cases = [
        (0x1000u64, perm(true, true, true, false)),
        (0x2000, perm(true, false, true, false)),
        (0x3000, perm(true, true, false, false)),
        (0x4000, perm(true, false, false, true)),
    ];
    for (i, (va, p)) in cases.iter().enumerate() {
        check_insert_one(&mut pgtbl, *va, 0x10_0000 * (i as u64 + 1), *p);
    }
    assert_eq!(pgtbl.walk(0x1000).unwrap().flags, PTE_P | PTE_RW);
    assert_eq!(pgtbl.walk(0x2000).unwrap().flags, PTE_P);
    assert_eq!(pgtbl.walk(0x3000).unwrap().flags, PTE_P | PTE_RW | PTE_XD);
    assert_eq!(pgtbl.walk(0x4000).unwrap().flags, PTE_P | PTE_US | PTE_XD);
    // Any address in a mapped page walks to its entry.
    assert_eq!(pgtbl.walk(0x1abc), pgtbl.walk(0x1000));
    for (va, _) in cases.iter() {
        check_remove_one(&mut pgtbl, *va);
    }
}

#[test]
fn free() {
    let mut pgtbl = PageTable::new();
    for i in 0x1234u64..0x1434 {
        assert!(pgtbl.map(i * 0x1000, i * 0x1000, perm(true, false, false, false)).is_ok());
    }
    assert_eq!(pgtbl.walk(0x1433 * 0x1000).unwrap().pa, 0x1433 * 0x1000);
    assert_eq!(pgtbl.walk(0x1434 * 0x1000), Err(PageTableMappingError::NotExist));
}

#[test]
fn error() {
    let mut pgtbl = PageTable::new();
    let read = perm(true, false, false, false);
    assert!(pgtbl.map(0x1234000, 0x5000, read).is_ok());
    assert_eq!(pgtbl.map(0x1234000, 0x6000, read), Err(PageTableMappingError::Duplicated));
    assert_eq!(pgtbl.walk(0x1234000), Ok(Pte { pa: 0x5000, flags: PTE_P | PTE_XD }));
    assert_eq!(pgtbl.map(0x1234123, 0x6000, read), Err(PageTableMappingError::Unaligned));
    assert_eq!(pgtbl.unmap(0x1235000).map(|_| ()), Err(PageTableMappingError::NotExist));
    assert_eq!(pgtbl.unmap(0x1234001), Err(PageTableMappingError::Unaligned));
}

#[test]
fn complicate() {
    let mut pgtbl = PageTable::new();
    let permission = perm(true, false, true, false);
    let addrs: [u64; 5] = [0xfffffff000, 0xffffffe000, 0xffffdff000, 0xffbffff000, 0x7ffffff000];
    for (i, &addr) in addrs.iter().enumerate() {
        check_insert_one(&mut pgtbl, addr, 0x1000 * (i as u64 + 1), permission);
        if i != 0 {
            assert!(pgtbl.walk(addrs[i - 1]).is_ok());
        }
    }
    for (i, &addr) in addrs.iter().enumerate() {
        if i == 0 {
            continue;
        }
        check_remove_one(&mut pgtbl, addr);
        assert!(pgtbl.walk(addrs[0]).is_ok());
    }
    check_remove_one(&mut pgtbl, addrs[0]);
}

#[test]
fn get_phys_reports_translation_and_flags() {
    let mut pgtbl = PageTable::new();
    assert!(pgtbl.map(0x40_0000, 0x1234_5000, perm(true, true, false, true)).is_ok());
    let abi = |a1: usize, a2: usize| SyscallAbi { sysno: 0x81, arg1: a1, arg2: a2, arg3: 0, arg4: 0, arg5: 0, arg6: 0 };
    assert_eq!(get_phys(&pgtbl, 0xdead, &abi(0x40_0abc, 0)), Ok(0x1234_5abc));
    assert_eq!(get_phys(&pgtbl, 0xdead, &abi(0x40_0abc, 1)), Ok((PTE_P | PTE_RW | PTE_US | PTE_XD) as usize));
    assert_eq!(get_phys(&pgtbl, 0xdead, &abi(0x40_1000, 0)), Err(KernelError::InvalidArgument));
    assert_eq!(get_phys(&pgtbl, 0xdead, &abi(0x0001_0000_0000_0000, 0)), Err(KernelError::InvalidArgument));
    assert_eq!(get_phys(&pgtbl, 0xdead, &abi(0, 0x80041337)), Ok(0xdead));
}
