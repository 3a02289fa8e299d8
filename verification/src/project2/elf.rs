//! The ELF executable format: the file header and the program headers that
//! a loader maps into memory.
//!
//! Both are read from the file's bytes in little-endian order; bytes past
//! the end of the file read as zero.
use crate::bytes::{le_u16, le_u32, le_u64, read_u16, read_u32, read_u64};
use crate::error::KernelError;
use vstd::prelude::*;

verus! {

/// The size of an ELF64 file header.
pub const EHDR_SIZE: usize = 64;

/// The size of an ELF64 program header.
pub const PHDR_SIZE: usize = 0x38;

/// The ELF64 file header.
#[derive(Clone, Copy, Debug)]
pub struct ELFHeader {
    /// `\x7FELF`.
    pub magic: [u8; 4],
    /// 1 for 32-bit objects, 2 for 64-bit ones.
    pub class: u8,
    /// 1 for little endian, 2 for big endian.
    pub data: u8,
    pub version: u8,
    pub abi: u8,
    pub abi_version: u8,
    pub pad: [u8; 7],
    /// 2 for an executable file.
    pub e_type: u16,
    /// 0x3E for x86-64.
    pub e_machine: u16,
    pub e_version: u32,
    /// The entry point.
    pub e_entry: u64,
    /// The offset of the program header table in the file.
    pub e_phoff: u64,
    pub e_shoff: u64,
    pub e_flags: u32,
    pub e_ehsize: u16,
    pub e_phentsize: u16,
    /// The number of program headers.
    pub e_phnum: u16,
    pub e_shentsize: u16,
    pub e_shnum: u16,
    pub e_shstrndx: u16,
}

/// The `len` bytes of `file` from `off` on, with zeros past its end.
pub open spec fn padded(file: Seq<u8>, off: int, len: int) -> Seq<u8> {
    Seq::new(len as nat, |i: int| if off + i < file.len() { file[off + i] } else { 0u8 })
}

/// Whether `h` is the header that the 64 bytes `b` encode.
pub open spec fn header_of(b: Seq<u8>, h: ELFHeader) -> bool {
    &&& h.magic@ == b.subrange(0, 4)
    &&& h.class == b[4] && h.data == b[5] && h.version == b[6]
    &&& h.abi == b[7] && h.abi_version == b[8]
    &&& h.pad@ == b.subrange(9, 16)
    &&& h.e_type == le_u16(b, 16) && h.e_machine == le_u16(b, 18)
    &&& h.e_version == le_u32(b, 20)
    &&& h.e_entry == le_u64(b, 24) && h.e_phoff == le_u64(b, 32)
    &&& h.e_shoff == le_u64(b, 40)
    &&& h.e_flags == le_u32(b, 48)
    &&& h.e_ehsize == le_u16(b, 52) && h.e_phentsize == le_u16(b, 54)
    &&& h.e_phnum == le_u16(b, 56) && h.e_shentsize == le_u16(b, 58)
    &&& h.e_shnum == le_u16(b, 60) && h.e_shstrndx == le_u16(b, 62)
}

/// Whether a header is that of a little-endian 64-bit x86-64 executable.
pub open spec fn loadable(h: ELFHeader) -> bool {
    &&& h.magic@ == seq![0x7fu8, 0x45u8, 0x4cu8, 0x46u8]
    &&& h.data == 1
    &&& h.class == 2
    &&& h.e_machine == 0x3E
    &&& h.e_type == 2
}

/// Copies the `len` bytes of `file` from `off` on, with zeros past its end.
fn read_padded(file: &[u8], off: usize, len: usize) -> (r: Vec<u8>)
    ensures
        r@ == padded(file@, off as int, len as int),
{
    let mut v: Vec<u8> = Vec::new();
    let mut i: usize = 0;
    while i < len
        invariant
            i <= len,
            v@ == padded(file@, off as int, len as int).take(i as int),
        decreases len - i,
    {
        let b = if off < file.len() && i < file.len() - off {
            file[off + i]
        } else {
            0u8
        };
        v.push(b);
        i = i + 1;
        assert(v@ =~= padded(file@, off as int, len as int).take(i as int));
    }
    assert(v@ =~= padded(file@, off as int, len as int));
    v
}

impl ELFHeader {
    /// Decodes the header from the first 64 bytes of `b`.
    pub fn from_bytes(b: &[u8]) -> (h: Self)
        requires
            b@.len() >= EHDR_SIZE,
        ensures
            header_of(b@, h),
    {
        let h = ELFHeader {
            magic: [b[0], b[1], b[2], b[3]],
            class: b[4],
            data: b[5],
            version: b[6],
            abi: b[7],
            abi_version: b[8],
            pad: [b[9], b[10], b[11], b[12], b[13], b[14], b[15]],
            e_type: read_u16(b, 16),
            e_machine: read_u16(b, 18),
            e_version: read_u32(b, 20),
            e_entry: read_u64(b, 24),
            e_phoff: read_u64(b, 32),
            e_shoff: read_u64(b, 40),
            e_flags: read_u32(b, 48),
            e_ehsize: read_u16(b, 52),
            e_phentsize: read_u16(b, 54),
            e_phnum: read_u16(b, 56),
            e_shentsize: read_u16(b, 58),
            e_shnum: read_u16(b, 60),
            e_shstrndx: read_u16(b, 62),
        };
        assert(h.magic@ =~= b@.subrange(0, 4));
        assert(h.pad@ =~= b@.subrange(9, 16));
        h
    }

    /// Whether this is the header of a little-endian 64-bit x86-64
    /// executable.
    pub fn is_loadable(&self) -> (r: bool)
        ensures
            r == loadable(*self),
    {
        let ok = self.magic[0] == 0x7f && self.magic[1] == 0x45 && self.magic[2] == 0x4c
            && self.magic[3] == 0x46 && self.data == 1 && self.class == 2 && self.e_machine
            == 0x3E && self.e_type == 2;
        assert(ok ==> self.magic@ =~= seq![0x7fu8, 0x45u8, 0x4cu8, 0x46u8]);
        ok
    }
}

/// An executable file and its header.
pub struct Elf<'a> {
    pub header: ELFHeader,
    pub file: &'a [u8],
}

/// The kind of a segment.
#[derive(Clone, Copy, PartialEq, Eq, Debug)]
pub enum PType {
    Null,
    Load,
    Dynamic,
    Interp,
    Note,
    Shlib,
    Phdr,
    Tls,
    GnuEhFrame,
    GnuStack,
    GnuRelro,
    GnuProperty,
}

/// The number that a program header holds for each kind of segment.
pub open spec fn ptype_number(t: PType) -> u32 {
    match t {
        PType::Null => 0x0,
        PType::Load => 0x1,
        PType::Dynamic => 0x2,
        PType::Interp => 0x3,
        PType::Note => 0x4,
        PType::Shlib => 0x5,
        PType::Phdr => 0x6,
        PType::Tls => 0x7,
        PType::GnuEhFrame => 0x6474e550,
        PType::GnuStack => 0x6474e551,
        PType::GnuRelro => 0x6474e552,
        PType::GnuProperty => 0x6474e553,
    }
}

impl PType {
    /// The kind of segment with number `v`, if `v` names one.
    pub fn from_u32(v: u32) -> (r: Option<PType>)
        ensures
            match r {
                Some(t) => ptype_number(t) == v,
                None => forall|t: PType| ptype_number(t) != v,
            },
    {
        match v {
            0x0 => Some(PType::Null),
            0x1 => Some(PType::Load),
            0x2 => Some(PType::Dynamic),
            0x3 => Some(PType::Interp),
            0x4 => Some(PType::Note),
            0x5 => Some(PType::Shlib),
            0x6 => Some(PType::Phdr),
            0x7 => Some(PType::Tls),
            0x6474e550 => Some(PType::GnuEhFrame),
            0x6474e551 => Some(PType::GnuStack),
            0x6474e552 => Some(PType::GnuRelro),
            0x6474e553 => Some(PType::GnuProperty),
            _ => None,
        }
    }
}

/// The permission flags of a segment: bit 2 for read, bit 1 for write and
/// bit 0 for execute.
#[derive(Clone, Copy, Debug)]
pub struct PFlags {
    pub bits: u32,
}

impl PFlags {
    pub const READ: u32 = 4;

    pub const WRITE: u32 = 2;

    pub const EXECUTABLE: u32 = 1;

    /// Whether every flag of `flag` is set.
    pub fn contains(&self, flag: u32) -> (r: bool)
        ensures
            r == (self.bits & flag == flag),
    {
        self.bits & flag == flag
    }
}

/// The access rights of a mapped page.
#[derive(Clone, Copy, Debug, PartialEq, Eq)]
pub struct Permission {
    pub read: bool,
    pub write: bool,
    pub executable: bool,
    pub user: bool,
}

/// An ELF64 program header: one segment of the file.
#[derive(Clone, Copy, Debug)]
pub struct Phdr {
    /// Segment type.
    pub type_: PType,
    /// Segment permissions.
    pub p_flags: PFlags,
    /// Offset in the file where the segment starts.
    pub p_offset: u64,
    /// Virtual address where the segment is mapped.
    pub p_vaddr: u64,
    /// Physical address (not used).
    pub p_paddr: u64,
    /// Size of the segment in the file.
    pub p_filesz: u64,
    /// Size of the segment in memory.
    pub p_memsz: u64,
    /// Alignment of the segment.
    pub p_align: u64,
}

/// Whether `p` is the program header that the 56 bytes of `b` at `off`
/// encode.
pub open spec fn phdr_of(b: Seq<u8>, off: int, p: Phdr) -> bool {
    &&& ptype_number(p.type_) == le_u32(b, off)
    &&& p.p_flags.bits == le_u32(b, off + 4)
    &&& p.p_offset == le_u64(b, off + 8)
    &&& p.p_vaddr == le_u64(b, off + 16)
    &&& p.p_paddr == le_u64(b, off + 24)
    &&& p.p_filesz == le_u64(b, off + 32)
    &&& p.p_memsz == le_u64(b, off + 40)
    &&& p.p_align == le_u64(b, off + 48)
}

/// Whether entry `i` of the program header table `table` has a type that is
/// not a known kind of segment.
pub open spec fn unknown_type_at(table: Seq<u8>, i: int) -> bool {
    forall|t: PType| ptype_number(t) != le_u32(table, i * PHDR_SIZE)
}

impl Phdr {
    /// Decodes the program header at `off` in `b`; `None` when its type is
    /// not a known kind of segment.
    pub fn from_bytes(b: &[u8], off: usize) -> (r: Option<Phdr>)
        requires
            off + PHDR_SIZE <= b.len(),
        ensures
            match r {
                Some(p) => phdr_of(b@, off as int, p),
                None => forall|t: PType| ptype_number(t) != le_u32(b@, off as int),
            },
    {
        let type_ = match PType::from_u32(read_u32(b, off)) {
            Some(t) => t,
            None => return None,
        };
        Some(
            Phdr {
                type_,
                p_flags: PFlags { bits: read_u32(b, off + 4) },
                p_offset: read_u64(b, off + 8),
                p_vaddr: read_u64(b, off + 16),
                p_paddr: read_u64(b, off + 24),
                p_filesz: read_u64(b, off + 32),
                p_memsz: read_u64(b, off + 40),
                p_align: read_u64(b, off + 48),
            },
        )
    }

    /// The page permissions of this segment: user-accessible, and readable,
    /// writable or executable as its flags say.
    pub fn permission(&self) -> (r: Permission)
        ensures
            r.user,
            r.read == (self.p_flags.bits & 4 == 4),
            r.write == (self.p_flags.bits & 2 == 2),
            r.executable == (self.p_flags.bits & 1 == 1),
    {
        let mut permission = Permission { read: false, write: false, executable: false, user: true };
        if self.p_flags.contains(PFlags::READ) {
            permission.read = true;
        }
        if self.p_flags.contains(PFlags::WRITE) {
            permission.write = true;
        }
        if self.p_flags.contains(PFlags::EXECUTABLE) {
            permission.executable = true;
        }
        permission
    }
}

impl<'a> Elf<'a> {
    /// Reads the header from the first block of `file` and accepts the file
    /// when it is a little-endian 64-bit x86-64 executable.
    pub fn from_file(file: &'a [u8]) -> (r: Option<Self>)
        ensures
            match r {
                Some(elf) => elf.file@ == file@ && header_of(padded(file@, 0, 4096), elf.header)
                    && loadable(elf.header),
                None => forall|h: ELFHeader| header_of(padded(file@, 0, 4096), h) ==> !loadable(h),
            },
    {
        let block = read_padded(file, 0, 4096);
        let header = ELFHeader::from_bytes(block.as_slice());
        if header.is_loadable() {
            Some(Elf { header, file })
        } else {
            proof {
                assert forall|h: ELFHeader| header_of(padded(file@, 0, 4096), h) implies !loadable(h) by {
                    assert(h.magic@ == header.magic@);
                }
            }
            None
        }
    }

    /// The program headers: `e_phnum` entries of 56 bytes from `e_phoff` on;
    /// [`KernelError::InvalidArgument`] when one of them has a type that is
    /// not a known kind of segment.
    pub fn phdrs(&self) -> (r: Result<Vec<Phdr>, KernelError>)
        requires
            self.header.e_phoff <= usize::MAX,
        ensures
            ({
                let table = padded(self.file@, self.header.e_phoff as int, self.header.e_phnum * PHDR_SIZE);
                match r {
                    Ok(v) => v@.len() == self.header.e_phnum && forall|i: int|
                        0 <= i < v@.len() ==> phdr_of(table, i * PHDR_SIZE, #[trigger] v@[i]),
                    Err(e) => e == KernelError::InvalidArgument && exists|i: int|
                        0 <= i < self.header.e_phnum && #[trigger] unknown_type_at(table, i),
                }
            }),
    {
        let base = self.header.e_phoff as usize;
        let n = self.header.e_phnum as usize;
        let buffer = read_padded(self.file, base, n * PHDR_SIZE);
        let ghost table = buffer@;
        let mut v: Vec<Phdr> = Vec::new();
        let mut i: usize = 0;
        while i < n
            invariant
                i <= n,
                n == self.header.e_phnum,
                buffer@ == table,
                table == padded(self.file@, self.header.e_phoff as int, self.header.e_phnum * PHDR_SIZE),
                table.len() == n * PHDR_SIZE,
                v@.len() == i,
                forall|k: int| 0 <= k < i ==> phdr_of(table, k * PHDR_SIZE, #[trigger] v@[k]),
            decreases n - i,
        {
            assert(i * PHDR_SIZE + PHDR_SIZE <= n * PHDR_SIZE) by (nonlinear_arith)
                requires
                    i < n,
            ;
            match Phdr::from_bytes(buffer.as_slice(), i * PHDR_SIZE) {
                Some(p) => v.push(p),
                None => {
                    assert(unknown_type_at(table, i as int));
                    return Err(KernelError::InvalidArgument);
                },
            }
            i = i + 1;
        }
        Ok(v)
    }
}

} // verus!
