use lib::error::KernelError;
use lib::project2::elf::{ELFHeader, Elf, PFlags, PType, Phdr, EHDR_SIZE, PHDR_SIZE};

fn put_u16(b: &mut [u8], off: usize, v: u16) {
    b[off..off + 2].copy_from_slice(&v.to_le_bytes());
}

fn put_u32(b: &mut [u8], off: usize, v: u32) {
    b[off..off + 4].copy_from_slice(&v.to_le_bytes());
}

fn put_u64(b: &mut [u8], off: usize, v: u64) {
    b[off..off + 8].copy_from_slice(&v.to_le_bytes());
}

/// An x86-64 executable with `phdrs` program headers right after its header.
fn executable(phdrs: &[(u32, u32, u64, u64, u64, u64)]) -> Vec<u8> {
    let mut f = vec![0u8; EHDR_SIZE + phdrs.len() * PHDR_SIZE];
    f[0..4].copy_from_slice(&[0x7f, b'E', b'L', b'F']);
    f[4] = 2;
    f[5] = 1;
    f[6] = 1;
    put_u16(&mut f, 16, 2);
    put_u16(&mut f, 18, 0x3E);
    put_u32(&mut f, 20, 1);
    put_u64(&mut f, 24, 0x401000);
    put_u64(&mut f, 32, EHDR_SIZE as u64);
    put_u16(&mut f, 52, EHDR_SIZE as u16);
    put_u16(&mut f, 54, PHDR_SIZE as u16);
    put_u16(&mut f, 56, phdrs.len() as u16);
    for (i, &(ty, flags, off, vaddr, filesz, memsz)) in phdrs.iter().enumerate() {
        let o = EHDR_SIZE + i * PHDR_SIZE;
        put_u32(&mut f, o, ty);
        put_u32(&mut f, o + 4, flags);
        put_u64(&mut f, o + 8, off);
        put_u64(&mut f, o + 16, vaddr);
        put_u64(&mut f, o + 24, vaddr);
        put_u64(&mut f, o + 32, filesz);
        put_u64(&mut f, o + 40, memsz);
        put_u64(&mut f, o + 48, 0x1000);
    }
    f
}

#[test]
fn header_fields_decode_little_endian() {
    let f = executable(&[]);
    let h = ELFHeader::from_bytes(&f);
    assert_eq!(h.magic, [0x7f, b'E', b'L', b'F']);
    assert_eq!(h.class, 2);
    assert_eq!(h.data, 1);
    assert_eq!(h.e_type, 2);
    assert_eq!(h.e_machine, 0x3E);
    assert_eq!(h.e_entry, 0x401000);
    assert_eq!(h.e_phoff, 64);
    assert_eq!(h.e_phentsize, 0x38);
    assert_eq!(h.e_phnum, 0);
    assert!(h.is_loadable());
}

#[test]
fn from_file_accepts_an_executable() {
    let f = executable(&[(1, 5, 0, 0x400000, 0x100, 0x200)]);
    let elf = Elf::from_file(&f).expect("a loadable file");
    assert_eq!(elf.header.e_entry, 0x401000);
    assert_eq!(elf.file.len(), f.len());
}

#[test]
fn from_file_refuses_bad_magic() {
    let mut f = executable(&[]);
    f[1] = b'X';
    assert!(Elf::from_file(&f).is_none());
}

#[test]
fn from_file_refuses_other_machines_classes_and_types() {
    let mut f = executable(&[]);
    put_u16(&mut f, 18, 0x28);
    assert!(Elf::from_file(&f).is_none());
    let mut f = executable(&[]);
    f[4] = 1;
    assert!(Elf::from_file(&f).is_none());
    let mut f = executable(&[]);
    f[5] = 2;
    assert!(Elf::from_file(&f).is_none());
    let mut f = executable(&[]);
    put_u16(&mut f, 16, 3);
    assert!(Elf::from_file(&f).is_none());
}

#[test]
fn from_file_reads_a_short_file_as_zeros() {
    assert!(Elf::from_file(&[]).is_none());
    assert!(Elf::from_file(&[0x7f, b'E', b'L', b'F']).is_none());
}

#[test]
fn phdrs_lists_every_program_header() {
    let f = executable(&[
        (1, 5, 0, 0x400000, 0x100, 0x200),
        (1, 6, 0x1000, 0x600000, 0x80, 0x1000),
        (0x6474e551, 6, 0, 0, 0, 0),
    ]);
    let elf = Elf::from_file(&f).unwrap();
    let ph = elf.phdrs().unwrap();
    assert_eq!(ph.len(), 3);
    assert_eq!(ph[0].type_, PType::Load);
    assert_eq!(ph[0].p_vaddr, 0x400000);
    assert_eq!(ph[0].p_filesz, 0x100);
    assert_eq!(ph[0].p_memsz, 0x200);
    assert_eq!(ph[1].p_offset, 0x1000);
    assert_eq!(ph[1].p_flags.bits, 6);
    assert_eq!(ph[2].type_, PType::GnuStack);
    assert_eq!(ph[2].p_align, 0x1000);
}

#[test]
fn phdrs_refuses_an_unknown_segment_type() {
    let f = executable(&[(1, 5, 0, 0x400000, 0x100, 0x200), (0x9999, 4, 0, 0, 0, 0)]);
    let elf = Elf::from_file(&f).unwrap();
    assert_eq!(elf.phdrs().unwrap_err(), KernelError::InvalidArgument);
}

#[test]
fn phdrs_past_the_end_read_as_null_segments() {
    let mut f = executable(&[(1, 5, 0, 0x400000, 0x100, 0x200)]);
    put_u16(&mut f, 56, 2);
    let elf = Elf::from_file(&f).unwrap();
    let ph = elf.phdrs().unwrap();
    assert_eq!(ph.len(), 2);
    assert_eq!(ph[1].type_, PType::Null);
    assert_eq!(ph[1].p_vaddr, 0);
}

#[test]
fn ptype_numbers() {
    assert_eq!(PType::from_u32(0), Some(PType::Null));
    assert_eq!(PType::from_u32(1), Some(PType::Load));
    assert_eq!(PType::from_u32(7), Some(PType::Tls));
    assert_eq!(PType::from_u32(0x6474e550), Some(PType::GnuEhFrame));
    assert_eq!(PType::from_u32(0x6474e553), Some(PType::GnuProperty));
    assert_eq!(PType::from_u32(8), None);
}

#[test]
fn permission_follows_the_flags() {
    let mut b = vec![0u8; PHDR_SIZE];
    put_u32(&mut b, 0, 1);
    put_u32(&mut b, 4, PFlags::READ | PFlags::EXECUTABLE);
    let p = Phdr::from_bytes(&b, 0).unwrap();
    let perm = p.permission();
    assert!(perm.read && perm.executable && perm.user && !perm.write);
    put_u32(&mut b, 4, PFlags::READ | PFlags::WRITE);
    let perm = Phdr::from_bytes(&b, 0).unwrap().permission();
    assert!(perm.read && perm.write && !perm.executable);
    put_u32(&mut b, 4, 0);
    let perm = Phdr::from_bytes(&b, 0).unwrap().permission();
    assert!(!perm.read && !perm.write && !perm.executable && perm.user);
}

#[test]
fn pflags_contains_every_bit_asked() {
    let f = PFlags { bits: 5 };
    assert!(f.contains(4));
    assert!(f.contains(1));
    assert!(f.contains(5));
    assert!(!f.contains(2));
    assert!(!f.contains(6));
}
