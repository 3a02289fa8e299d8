//! The memory state of a process: the regions that `mmap` has mapped into
//! its user address space, each with its access rights and what fills it.
//!
//! Addresses are 64-bit virtual addresses. The page table that holds the
//! contents of the mapped pages is not modelled here: what this module
//! decides is which addresses are mapped, with which rights.
use crate::error::KernelError;
use crate::machine::{Machine, MachineView};
use crate::project1::file_struct::{entry, fd_number, table_ok, File, FileKind, FileStruct};
use crate::project1::syscall::SyscallAbi;
use crate::project2::elf::Permission;
use vstd::prelude::*;

verus! {

/// The size of a page.
pub const PAGE_SIZE: u64 = 0x1000;

/// The first address above the user half of the address space; kernel
/// addresses lie at or above it.
pub const USER_SPACE_END: u64 = 0x0000_8000_0000_0000;

/// What fills the pages of a mapped region.
#[derive(Clone, Copy, Debug, PartialEq, Eq)]
pub enum Backing {
    /// Zero-filled memory.
    Anonymous,
    /// The contents of file `file` (an index into the machine's files) from
    /// byte `offset` on, zero-filled past the file's end.
    File { file: usize, offset: u64 },
}

/// A mapped region: the pages from `start` up to `end`, with access rights
/// `perm`, filled as `backing` says.
#[derive(Clone, Copy, Debug)]
pub struct VmArea {
    pub start: u64,
    pub end: u64,
    pub perm: Permission,
    pub backing: Backing,
}

impl VmArea {
    /// Whether address `a` lies in this region.
    pub open spec fn contains(self, a: int) -> bool {
        self.start <= a < self.end
    }

    /// Whether this region may be read, and written when `is_write`.
    pub open spec fn allows(self, is_write: bool) -> bool {
        self.perm.read && (is_write ==> self.perm.write)
    }

    /// A non-empty run of whole user pages, above the null page, readable
    /// and user-accessible.
    pub open spec fn wf(self) -> bool {
        &&& 0 < self.start < self.end <= USER_SPACE_END
        &&& self.start % PAGE_SIZE == 0
        &&& self.end % PAGE_SIZE == 0
        &&& self.perm.read
        &&& self.perm.user
    }
}

/// Whether no region of `areas` meets the addresses from `start` up to `end`.
pub open spec fn free_range(areas: Seq<VmArea>, start: int, end: int) -> bool {
    forall|i: int| 0 <= i < areas.len() ==> #[trigger] areas[i].end <= start || end <= areas[i].start
}

/// Every region is well formed and no two regions meet.
pub open spec fn areas_wf(areas: Seq<VmArea>) -> bool {
    &&& forall|i: int| 0 <= i < areas.len() ==> #[trigger] areas[i].wf()
    &&& forall|i: int, j: int|
        0 <= i < areas.len() && 0 <= j < areas.len() && i != j ==> #[trigger] areas[i].end
            <= #[trigger] areas[j].start || areas[j].end <= areas[i].start
}

/// `n` rounded up to a whole number of pages.
pub open spec fn page_up(n: int) -> int {
    (n + 0xfff) / 0x1000 * 0x1000
}

/// The region that an `mmap` of `size` bytes at `addr` with rights `prot`
/// maps: whole pages, user-accessible.
pub open spec fn new_area(addr: u64, size: u64, prot: Permission, backing: Backing) -> VmArea {
    VmArea {
        start: addr,
        end: page_up(addr + size) as u64,
        perm: Permission { user: true, ..prot },
        backing,
    }
}

/// Whether an `mmap` of `size` bytes at `addr` with rights `prot` is
/// accepted in the address space `areas`: `addr` is a non-null page
/// boundary, `size` is not zero, the pages lie below the kernel half, the
/// rights include reading (a present page is always readable), and no
/// mapped region meets them.
pub open spec fn mmap_ok(areas: Seq<VmArea>, addr: u64, size: u64, prot: Permission) -> bool {
    &&& addr != 0
    &&& addr % PAGE_SIZE == 0
    &&& size != 0
    &&& addr + size <= USER_SPACE_END
    &&& prot.read
    &&& free_range(areas, addr as int, page_up(addr + size))
}

/// Whether address `a` lies in a region of `areas` that may be read, and
/// written when `is_write`.
pub open spec fn accessible(areas: Seq<VmArea>, a: int, is_write: bool) -> bool {
    exists|i: int| 0 <= i < areas.len() && #[trigger] areas[i].contains(a) && areas[i].allows(is_write)
}

/// Whether every address from `start` up to `end` is accessible.
pub open spec fn range_ok(areas: Seq<VmArea>, start: int, end: int, is_write: bool) -> bool {
    forall|a: int| start <= a < end ==> #[trigger] accessible(areas, a, is_write)
}

/// Whether some region of `areas` starts at `addr`.
pub open spec fn starts_at(areas: Seq<VmArea>, addr: u64) -> bool {
    exists|i: int| 0 <= i < areas.len() && #[trigger] areas[i].start == addr
}

/// The address space left by unmapping the region that starts at `addr`;
/// `None` when no region starts there.
pub open spec fn unmapped(areas: Seq<VmArea>, addr: u64) -> Option<Seq<VmArea>> {
    if starts_at(areas, addr) {
        Some(areas.remove(choose|i: int| 0 <= i < areas.len() && #[trigger] areas[i].start == addr))
    } else {
        None
    }
}

/// The region of `areas` that contains `a`, if there is one.
pub open spec fn area_of(areas: Seq<VmArea>, a: int) -> Option<VmArea> {
    if exists|i: int| 0 <= i < areas.len() && #[trigger] areas[i].contains(a) {
        Some(areas[choose|i: int| 0 <= i < areas.len() && #[trigger] areas[i].contains(a)])
    } else {
        None
    }
}

/// The rights that the protection argument of `mmap` asks for: bit 0 to
/// read, bit 1 to write, bit 2 to execute; `None` when any other bit is
/// set.
pub open spec fn prot_of(bits: usize) -> Option<Permission> {
    if bits & !7usize != 0 {
        None
    } else {
        Some(
            Permission {
                read: bits & 1 != 0,
                write: bits & 2 != 0,
                executable: bits & 4 != 0,
                user: true,
            },
        )
    }
}

/// What fills a mapping of descriptor argument `fd` from byte `offset` on,
/// with descriptor table `t` on machine `m`: nothing (zero-filled) for
/// descriptor -1, else the regular file open there;
/// [`KernelError::BadFileDescriptor`] when the descriptor is not open,
/// [`KernelError::InvalidArgument`] when it is not a regular file or the
/// file is empty.
pub open spec fn backing_of(t: Seq<Option<File>>, m: MachineView, fd: usize, offset: usize) -> Result<
    Backing,
    KernelError,
> {
    if fd_number(fd) == -1 {
        Ok(Backing::Anonymous)
    } else {
        match entry(t, fd) {
            None => Err(KernelError::BadFileDescriptor),
            Some(f) => match f.file {
                FileKind::RegularFile { file, position } => if m.contents[file as int].len() == 0 {
                    Err(KernelError::InvalidArgument)
                } else {
                    Ok(Backing::File { file, offset: offset as u64 })
                },
                _ => Err(KernelError::InvalidArgument),
            },
        }
    }
}

/// What the `mmap` system call `abi` gives, with descriptor table `t` on
/// machine `m`, in address space `areas`: its result and the address space
/// after it. It maps `arg2` bytes at `arg1` with the rights of protection
/// bits `arg3` (see [`prot_of`]), filled from descriptor `arg4` at offset
/// `arg5` (see [`backing_of`]), and returns `arg1`;
/// [`KernelError::InvalidArgument`] for unknown protection bits or a request
/// that [`mmap_ok`] refuses.
pub open spec fn mmap_outcome(areas: Seq<VmArea>, t: Seq<Option<File>>, m: MachineView, abi: SyscallAbi) -> (
    Result<usize, KernelError>,
    Seq<VmArea>,
) {
    match prot_of(abi.arg3) {
        None => (Err(KernelError::InvalidArgument), areas),
        Some(prot) => match backing_of(t, m, abi.arg4, abi.arg5) {
            Err(e) => (Err(e), areas),
            Ok(b) => if mmap_ok(areas, abi.arg1 as u64, abi.arg2 as u64, prot) {
                (Ok(abi.arg1), areas.push(new_area(abi.arg1 as u64, abi.arg2 as u64, prot, b)))
            } else {
                (Err(KernelError::InvalidArgument), areas)
            },
        },
    }
}

/// What unmapping the region at `addr` gives in address space `areas`: 0
/// and the address space without that region;
/// [`KernelError::InvalidArgument`] and no change when no region starts
/// there.
pub open spec fn munmap_outcome(areas: Seq<VmArea>, addr: u64) -> (Result<usize, KernelError>, Seq<VmArea>) {
    match unmapped(areas, addr) {
        Some(s) => (Ok(0), s),
        None => (Err(KernelError::InvalidArgument), areas),
    }
}

/// Removing a region keeps an address space well formed.
pub proof fn lemma_remove_wf(areas: Seq<VmArea>, i: int)
    requires
        areas_wf(areas),
        0 <= i < areas.len(),
    ensures
        areas_wf(areas.remove(i)),
{
    let s = areas.remove(i);
    assert forall|k: int| 0 <= k < s.len() implies #[trigger] s[k].wf() by {
        if k < i {
            assert(s[k] == areas[k]);
        } else {
            assert(s[k] == areas[k + 1]);
        }
    }
    assert forall|k: int, j: int|
        0 <= k < s.len() && 0 <= j < s.len() && k != j implies #[trigger] s[k].end
        <= #[trigger] s[j].start || s[j].end <= s[k].start by {
        let k2 = if k < i { k } else { k + 1 };
        let j2 = if j < i { j } else { j + 1 };
        assert(s[k] == areas[k2] && s[j] == areas[j2]);
        assert(areas[k2].end <= areas[j2].start || areas[j2].end <= areas[k2].start);
    }
}

/// Rounding up to whole pages stays on a page boundary, within a page of
/// `n`, and below any page boundary at or above `n`.
pub proof fn lemma_page_up(n: int, limit: int)
    requires
        n >= 0,
        limit % 0x1000 == 0,
        n <= limit,
    ensures
        page_up(n) % 0x1000 == 0,
        n <= page_up(n) < n + 0x1000,
        page_up(n) <= limit,
{
    let q = (n + 0xfff) / 0x1000;
    let r = (n + 0xfff) % 0x1000;
    assert(n + 0xfff == q * 0x1000 + r && 0 <= r < 0x1000) by (nonlinear_arith)
        requires
            q == (n + 0xfff) / 0x1000,
            r == (n + 0xfff) % 0x1000,
    ;
    assert((q * 0x1000) % 0x1000 == 0) by (nonlinear_arith);
    let l = limit / 0x1000;
    assert(limit == l * 0x1000) by (nonlinear_arith)
        requires
            limit % 0x1000 == 0,
            l == limit / 0x1000,
    ;
    assert(q <= l) by (nonlinear_arith)
        requires
            n + 0xfff == q * 0x1000 + r,
            0 <= r < 0x1000,
            limit == l * 0x1000,
            n <= limit,
    ;
    assert(q * 0x1000 <= l * 0x1000) by (nonlinear_arith)
        requires
            q <= l,
    ;
}

/// Within a well-formed address space, one region at most contains any
/// address, and one at most starts at any address.
pub proof fn lemma_unique(areas: Seq<VmArea>, i: int, j: int, a: int)
    requires
        areas_wf(areas),
        0 <= i < areas.len(),
        0 <= j < areas.len(),
        areas[i].contains(a) && areas[j].contains(a) || areas[i].start == areas[j].start,
    ensures
        i == j,
{
    if i != j {
        assert(areas[i].wf() && areas[j].wf());
        assert(areas[i].end <= areas[j].start || areas[j].end <= areas[i].start);
    }
}

/// A region that `mmap` accepts keeps the address space well formed, and
/// is itself well formed.
pub proof fn lemma_push_wf(areas: Seq<VmArea>, addr: u64, size: u64, prot: Permission, backing: Backing)
    requires
        areas_wf(areas),
        mmap_ok(areas, addr, size, prot),
    ensures
        areas_wf(areas.push(new_area(addr, size, prot, backing))),
        new_area(addr, size, prot, backing).wf(),
{
    lemma_page_up(addr + size, USER_SPACE_END as int);
    let s = areas.push(new_area(addr, size, prot, backing));
    assert forall|k: int, j: int|
        0 <= k < s.len() && 0 <= j < s.len() && k != j implies #[trigger] s[k].end
        <= #[trigger] s[j].start || s[j].end <= s[k].start by {
        if k < areas.len() && j < areas.len() {
            assert(areas[k] == s[k] && areas[j] == s[j]);
        } else if k < areas.len() {
            assert(areas[k] == s[k]);
        } else {
            assert(areas[j] == s[j]);
        }
    }
    assert forall|k: int| 0 <= k < s.len() implies #[trigger] s[k].wf() by {
        if k < areas.len() {
            assert(areas[k] == s[k]);
        }
    }
}

/// After a successful `mmap`, every byte that was asked for may be read,
/// and written too when the rights include writing.
pub proof fn lemma_mmap_then_access_ok(
    areas: Seq<VmArea>,
    addr: u64,
    size: u64,
    prot: Permission,
    backing: Backing,
)
    requires
        areas_wf(areas),
        mmap_ok(areas, addr, size, prot),
    ensures
        range_ok(areas.push(new_area(addr, size, prot, backing)), addr as int, addr + size, false),
        prot.write ==> range_ok(
            areas.push(new_area(addr, size, prot, backing)),
            addr as int,
            addr + size,
            true,
        ),
{
    lemma_page_up(addr + size, USER_SPACE_END as int);
    let s = areas.push(new_area(addr, size, prot, backing));
    let k = areas.len() as int;
    assert(s[k] == new_area(addr, size, prot, backing));
    assert forall|a: int| addr <= a < addr + size implies #[trigger] accessible(s, a, false) by {
        assert(s[k].contains(a));
    }
    if prot.write {
        assert forall|a: int| addr <= a < addr + size implies #[trigger] accessible(s, a, true) by {
            assert(s[k].contains(a));
        }
    }
}

/// `munmap` of the address that `mmap` returned gives back the address
/// space as it was before the `mmap`.
pub proof fn lemma_munmap_undoes_mmap(
    areas: Seq<VmArea>,
    addr: u64,
    size: u64,
    prot: Permission,
    backing: Backing,
)
    requires
        areas_wf(areas),
        mmap_ok(areas, addr, size, prot),
    ensures
        unmapped(areas.push(new_area(addr, size, prot, backing)), addr) == Some(areas),
{
    lemma_page_up(addr + size, USER_SPACE_END as int);
    let s = areas.push(new_area(addr, size, prot, backing));
    let k = areas.len() as int;
    assert(s[k].start == addr);
    assert(starts_at(s, addr));
    let j = choose|j: int| 0 <= j < s.len() && #[trigger] s[j].start == addr;
    if j < k {
        assert(s[j] == areas[j]);
        assert(areas[j].wf());
        assert(areas[j].end <= addr || page_up(addr + size) <= areas[j].start);
    }
    assert(s.remove(k) =~= areas);
}

/// A second `mmap` that asks for any page of a mapped region is refused.
pub proof fn lemma_mmap_over_mapping_fails(
    areas: Seq<VmArea>,
    addr: u64,
    size: u64,
    prot: Permission,
    backing: Backing,
    addr2: u64,
    size2: u64,
    prot2: Permission,
)
    requires
        areas_wf(areas),
        mmap_ok(areas, addr, size, prot),
        addr <= addr2 < page_up(addr + size),
    ensures
        !mmap_ok(areas.push(new_area(addr, size, prot, backing)), addr2, size2, prot2),
{
    let s = areas.push(new_area(addr, size, prot, backing));
    let k = areas.len() as int;
    if mmap_ok(s, addr2, size2, prot2) {
        lemma_page_up(addr2 + size2, USER_SPACE_END as int);
        assert(s[k].end <= addr2 || page_up(addr2 + size2) <= s[k].start);
    }
}

/// The memory state of a process: the regions mapped into its address
/// space.
pub struct MmStruct {
    pub areas: Vec<VmArea>,
}

impl View for MmStruct {
    type V = Seq<VmArea>;

    open spec fn view(&self) -> Seq<VmArea> {
        self.areas@
    }
}

impl MmStruct {
    /// An address space with nothing mapped.
    pub fn new() -> (r: Self)
        ensures
            r@ == Seq::<VmArea>::empty(),
            areas_wf(r@),
    {
        MmStruct { areas: Vec::new() }
    }

    /// The index of the region that contains `a`, if there is one.
    pub fn find_area(&self, a: u64) -> (r: Option<usize>)
        ensures
            match r {
                Some(i) => i < self@.len() && self@[i as int].contains(a as int),
                None => forall|i: int| 0 <= i < self@.len() ==> !(#[trigger] self@[i]).contains(a as int),
            },
    {
        let mut i: usize = 0;
        while i < self.areas.len()
            invariant
                i <= self@.len(),
                forall|k: int| 0 <= k < i ==> !(#[trigger] self@[k]).contains(a as int),
            decreases self@.len() - i,
        {
            if self.areas[i].start <= a && a < self.areas[i].end {
                return Some(i);
            }
            i = i + 1;
        }
        None
    }

    /// Whether every address from `start` up to `end` lies in a mapped
    /// region that may be read, and written when `is_write`: what a system
    /// call checks of a user buffer before it touches it.
    pub fn access_ok(&self, start: u64, end: u64, is_write: bool) -> (r: bool)
        requires
            areas_wf(self@),
        ensures
            r == range_ok(self@, start as int, end as int, is_write),
    {
        let mut cur = start;
        while cur < end
            invariant
                areas_wf(self@),
                start <= cur,
                range_ok(self@, start as int, cur as int, is_write),
            decreases u64::MAX - cur,
        {
            match self.find_area(cur) {
                None => {
                    proof {
                        if accessible(self@, cur as int, is_write) {
                            let i = choose|i: int|
                                0 <= i < self@.len() && #[trigger] self@[i].contains(cur as int)
                                    && self@[i].allows(is_write);
                            assert(!self@[i].contains(cur as int));
                        }
                    }
                    return false;
                },
                Some(i) => {
                    let area = self.areas[i];
                    let allowed = area.perm.read && (!is_write || area.perm.write);
                    if !allowed {
                        proof {
                            if accessible(self@, cur as int, is_write) {
                                let j = choose|j: int|
                                    0 <= j < self@.len() && #[trigger] self@[j].contains(cur as int)
                                        && self@[j].allows(is_write);
                                lemma_unique(self@, i as int, j, cur as int);
                            }
                        }
                        return false;
                    }
                    proof {
                        assert forall|a: int| start <= a < area.end implies #[trigger] accessible(
                            self@,
                            a,
                            is_write,
                        ) by {
                            if a >= cur {
                                assert(self@[i as int].contains(a));
                            }
                        }
                    }
                    cur = area.end;
                },
            }
        }
        true
    }

    /// Maps `size` bytes at `addr` with rights `prot`, filled as `backing`
    /// says, and returns `addr`; [`KernelError::InvalidArgument`] when
    /// [`mmap_ok`] refuses the request, with nothing mapped.
    pub fn do_mmap(&mut self, addr: u64, size: u64, prot: Permission, backing: Backing) -> (r: Result<
        u64,
        KernelError,
    >)
        requires
            areas_wf(old(self)@),
        ensures
            areas_wf(final(self)@),
            if mmap_ok(old(self)@, addr, size, prot) {
                r == Ok::<u64, KernelError>(addr) && final(self)@ == old(self)@.push(
                    new_area(addr, size, prot, backing),
                )
            } else {
                r == Err::<u64, KernelError>(KernelError::InvalidArgument) && final(self)@ == old(self)@
            },
    {
        if addr == 0 || addr % PAGE_SIZE != 0 || size == 0 || size > USER_SPACE_END
            || addr > USER_SPACE_END - size || !prot.read {
            return Err(KernelError::InvalidArgument);
        }
        proof {
            lemma_page_up(addr + size, USER_SPACE_END as int);
        }
        let end = (addr + size + 0xfff) / 0x1000 * 0x1000;
        let mut i: usize = 0;
        while i < self.areas.len()
            invariant
                i <= self@.len(),
                self@ == old(self)@,
                areas_wf(self@),
                end == page_up(addr + size),
                forall|k: int| 0 <= k < i ==> #[trigger] self@[k].end <= addr || end <= self@[k].start,
            decreases self@.len() - i,
        {
            if !(self.areas[i].end <= addr || end <= self.areas[i].start) {
                return Err(KernelError::InvalidArgument);
            }
            i = i + 1;
        }
        let area = VmArea {
            start: addr,
            end,
            perm: Permission { user: true, ..prot },
            backing,
        };
        proof {
            let s = old(self)@.push(area);
            assert(s.last() == area);
            assert forall|k: int, j: int|
                0 <= k < s.len() && 0 <= j < s.len() && k != j implies #[trigger] s[k].end
                <= #[trigger] s[j].start || s[j].end <= s[k].start by {
                if k < old(self)@.len() && j < old(self)@.len() {
                    assert(old(self)@[k] == s[k] && old(self)@[j] == s[j]);
                } else if k < old(self)@.len() {
                    assert(old(self)@[k] == s[k]);
                } else {
                    assert(old(self)@[j] == s[j]);
                }
            }
            assert forall|k: int| 0 <= k < s.len() implies #[trigger] s[k].wf() by {
                if k < old(self)@.len() {
                    assert(old(self)@[k] == s[k]);
                }
            }
        }
        self.areas.push(area);
        Ok(addr)
    }

    /// Unmaps the region that starts at `addr` and returns 0;
    /// [`KernelError::InvalidArgument`] when no region starts there, with
    /// nothing unmapped.
    pub fn do_munmap(&mut self, addr: u64) -> (r: Result<usize, KernelError>)
        requires
            areas_wf(old(self)@),
        ensures
            areas_wf(final(self)@),
            (r, final(self)@) == munmap_outcome(old(self)@, addr),
    {
        let mut i: usize = 0;
        while i < self.areas.len()
            invariant
                i <= self@.len(),
                self@ == old(self)@,
                areas_wf(self@),
                forall|k: int| 0 <= k < i ==> (#[trigger] self@[k]).start != addr,
            decreases self@.len() - i,
        {
            if self.areas[i].start == addr {
                proof {
                    let j = choose|j: int| 0 <= j < self@.len() && #[trigger] self@[j].start == addr;
                    lemma_unique(self@, i as int, j, 0);
                    lemma_remove_wf(self@, i as int);
                }
                self.areas.remove(i);
                return Ok(0);
            }
            i = i + 1;
        }
        Err(KernelError::InvalidArgument)
    }

    /// The page that holds `addr` and the rights of the region it lies in;
    /// [`KernelError::BadAddress`] when no region contains `addr`.
    pub fn get_user_page(&self, addr: u64) -> (r: Result<(u64, Permission), KernelError>)
        requires
            areas_wf(self@),
        ensures
            match area_of(self@, addr as int) {
                Some(v) => r == Ok::<(u64, Permission), KernelError>(
                    ((addr - addr % PAGE_SIZE) as u64, v.perm),
                ),
                None => r == Err::<(u64, Permission), KernelError>(KernelError::BadAddress),
            },
    {
        match self.find_area(addr) {
            Some(i) => {
                proof {
                    let j = choose|j: int| 0 <= j < self@.len() && #[trigger] self@[j].contains(addr as int);
                    lemma_unique(self@, i as int, j, addr as int);
                }
                Ok((addr - addr % PAGE_SIZE, self.areas[i].perm))
            },
            None => Err(KernelError::BadAddress),
        }
    }

    /// Calls `f` on the page that holds `addr` and the rights of the region
    /// it lies in, and returns what `f` gives; [`KernelError::BadAddress`],
    /// without calling `f`, when no region contains `addr`.
    pub fn get_user_page_and<R, F: FnOnce(u64, Permission) -> R>(&self, addr: u64, f: F) -> (r: Result<
        R,
        KernelError,
    >)
        requires
            areas_wf(self@),
            area_of(self@, addr as int) matches Some(v) ==> f.requires(
                ((addr - addr % PAGE_SIZE) as u64, v.perm),
            ),
        ensures
            match area_of(self@, addr as int) {
                Some(v) => r matches Ok(x) && f.ensures(((addr - addr % PAGE_SIZE) as u64, v.perm), x),
                None => r matches Err(e) && e == KernelError::BadAddress,
            },
    {
        match self.get_user_page(addr) {
            Ok((page, perm)) => Ok(f(page, perm)),
            Err(e) => Err(e),
        }
    }

    /// The `mmap` system call (see [`mmap_outcome`]): maps `arg2` bytes at
    /// `arg1`, filled from descriptor `arg4` (-1 for zero-filled memory) at
    /// offset `arg5`, and returns `arg1`.
    pub fn mmap(&mut self, fstate: &mut FileStruct, m: &Machine, abi: &SyscallAbi) -> (r: Result<
        usize,
        KernelError,
    >)
        requires
            areas_wf(old(self)@),
            table_ok(old(fstate)@, m@),
        ensures
            areas_wf(final(self)@),
            final(fstate)@ == old(fstate)@,
            (r, final(self)@) == mmap_outcome(old(self)@, old(fstate)@, m@, *abi),
    {
        let prot = match decode_prot(abi.arg3) {
            Some(p) => p,
            None => return Err(KernelError::InvalidArgument),
        };
        let fd = abi.arg4 as i32;
        let backing = if fd == -1 {
            Backing::Anonymous
        } else {
            match fstate.entry_of(abi.arg4) {
                None => return Err(KernelError::BadFileDescriptor),
                Some((i, f)) => match f.file {
                    FileKind::RegularFile { file, position } => {
                        proof {
                            assert(crate::project1::file_struct::entry_ok(fstate@[i as int], m@));
                        }
                        if m.contents[file].len() == 0 {
                            return Err(KernelError::InvalidArgument);
                        }
                        Backing::File { file, offset: abi.arg5 as u64 }
                    },
                    _ => return Err(KernelError::InvalidArgument),
                },
            }
        };
        match self.do_mmap(abi.arg1 as u64, abi.arg2 as u64, prot, backing) {
            Ok(_) => Ok(abi.arg1),
            Err(e) => Err(e),
        }
    }

    /// The `munmap` system call: unmaps the region that starts at `arg1`
    /// (see [`MmStruct::do_munmap`]).
    pub fn munmap(&mut self, abi: &SyscallAbi) -> (r: Result<usize, KernelError>)
        requires
            areas_wf(old(self)@),
        ensures
            areas_wf(final(self)@),
            (r, final(self)@) == munmap_outcome(old(self)@, abi.arg1 as u64),
    {
        self.do_munmap(abi.arg1 as u64)
    }
}

/// Decodes the protection argument of `mmap` (see [`prot_of`]).
pub fn decode_prot(bits: usize) -> (r: Option<Permission>)
    ensures
        r == prot_of(bits),
{
    if bits & !7usize != 0 {
        None
    } else {
        Some(
            Permission {
                read: bits & 1 != 0,
                write: bits & 2 != 0,
                executable: bits & 4 != 0,
                user: true,
            },
        )
    }
}

} // verus!
