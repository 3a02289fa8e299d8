//! Lazy paging: `mmap` only records a region, and a page of it is loaded
//! (zero-filled, or read from the mapped file) on the first page fault that
//! touches it. After `fork`, pages are shared write-protected, and a write
//! fault on one gives the writer its own writable copy.
//!
//! The pager keeps the loaded pages of its address space, each with its
//! contents and whether its page table entry allows writing.
use crate::error::KernelError;
use crate::machine::Machine;
use crate::project2::elf::Permission;
use crate::project2::mm_struct::{
    area_of, areas_wf, lemma_page_up, lemma_push_wf, lemma_unique, mmap_ok, new_area, unmapped,
    Backing, MmStruct, VmArea, PAGE_SIZE, USER_SPACE_END,
};
use vstd::prelude::*;

verus! {

/// Bit of the page-fault error code set when the faulting page was present.
pub const PF_PRESENT: u64 = 1;

/// Bit of the page-fault error code set when the fault was a write.
pub const PF_WRITE_ACCESS: u64 = 2;

/// The cause of a page fault.
#[derive(Clone, Copy, Debug)]
pub struct PageFaultReason {
    /// The address whose access faulted.
    pub fault_addr: u64,
    /// Whether the access was a write.
    pub is_write_access: bool,
    /// Whether the page was present (mapped) when the access faulted.
    pub is_present: bool,
}

impl PageFaultReason {
    /// Decodes the error code `ec` that the processor pushed for a fault at
    /// address `cr2`.
    pub fn new(ec: u64, cr2: u64) -> (r: Self)
        ensures
            r.fault_addr == cr2,
            r.is_write_access == (ec & PF_WRITE_ACCESS == PF_WRITE_ACCESS),
            r.is_present == (ec & PF_PRESENT == PF_PRESENT),
    {
        PageFaultReason {
            fault_addr: cr2,
            is_write_access: ec & PF_WRITE_ACCESS == PF_WRITE_ACCESS,
            is_present: ec & PF_PRESENT == PF_PRESENT,
        }
    }

    /// Whether the fault touched a page that is not loaded yet.
    pub fn is_demand_paging_fault(&self) -> (r: bool)
        ensures
            r == !self.is_present,
    {
        !self.is_present
    }

    /// Whether the fault was a write to a present page, which is how a
    /// write to a write-protected shared page shows.
    pub fn is_cow_fault(&self) -> (r: bool)
        ensures
            r == (self.is_present && self.is_write_access),
    {
        self.is_present && self.is_write_access
    }
}

/// The page that starts at address `pos` of file contents `c`: the bytes
/// from there on, zero past the end of the file.
pub open spec fn file_page(c: Seq<u8>, pos: int) -> Seq<u8> {
    Seq::new(PAGE_SIZE as nat, |i: int| if 0 <= pos + i < c.len() { c[pos + i] } else { 0u8 })
}

/// A zero-filled page.
pub open spec fn zero_page() -> Seq<u8> {
    Seq::new(PAGE_SIZE as nat, |i: int| 0u8)
}

/// The first contents of page `page` of region `area`, with the files'
/// contents `files`.
pub open spec fn fill(area: VmArea, files: Seq<Seq<u8>>, page: int) -> Seq<u8> {
    match area.backing {
        Backing::Anonymous => zero_page(),
        Backing::File { file, offset } => file_page(files[file as int], offset + (page - area.start)),
    }
}

/// The loader of anonymous regions.
pub struct AnonLoader {}

impl AnonLoader {
    /// A zero-filled page, whatever the address.
    pub fn load(&self, addr: u64) -> (r: Vec<u8>)
        ensures
            r@ == zero_page(),
    {
        let mut v: Vec<u8> = Vec::new();
        let mut i: u64 = 0;
        while i < PAGE_SIZE
            invariant
                i <= PAGE_SIZE,
                v@ == Seq::new(i as nat, |k: int| 0u8),
            decreases PAGE_SIZE - i,
        {
            v.push(0);
            i = i + 1;
            assert(v@ =~= Seq::new(i as nat, |k: int| 0u8));
        }
        v
    }
}

/// The loader of a region that maps file `file` from byte `offset` on,
/// starting at address `start`.
pub struct FileBackedLoader {
    pub file: usize,
    pub offset: u64,
    pub start: u64,
}

impl FileBackedLoader {
    /// The page at `addr`: the file's bytes from `offset + (addr - start)`
    /// on, zero-filled past the end of the file.
    pub fn load(&self, m: &Machine, addr: u64) -> (r: Vec<u8>)
        requires
            self.file < m@.contents.len(),
            self.start <= addr,
        ensures
            r@ == file_page(m@.contents[self.file as int], self.offset + (addr - self.start)),
    {
        proof {
            assert(m@.contents[self.file as int] == m.contents@[self.file as int]@);
        }
        let c = &m.contents[self.file];
        let len = c.len();
        let delta = addr - self.start;
        let from: Option<usize> = match self.offset.checked_add(delta) {
            Some(p) => if p < len as u64 {
                Some(p as usize)
            } else {
                None
            },
            None => None,
        };
        let ghost pos: int = self.offset + delta;
        let mut v: Vec<u8> = Vec::new();
        let mut i: usize = 0;
        while i < 4096
            invariant
                i <= 4096,
                len == c@.len(),
                from matches Some(s) ==> s == pos && s < len,
                from is None ==> pos >= len,
                v@ == file_page(c@, pos).take(i as int),
            decreases 4096 - i,
        {
            let b = match from {
                Some(s) => if i < len - s {
                    c[s + i]
                } else {
                    0u8
                },
                None => 0u8,
            };
            v.push(b);
            i = i + 1;
            assert(v@ =~= file_page(c@, pos).take(i as int));
        }
        assert(v@ =~= file_page(c@, pos));
        v
    }
}

/// A loaded page: its address, whether its page table entry allows
/// writing, and its contents.
pub struct Page {
    pub va: u64,
    pub writable: bool,
    pub data: Vec<u8>,
}

/// What the pager sees of a [`Page`].
pub struct PageView {
    pub va: u64,
    pub writable: bool,
    pub data: Seq<u8>,
}

impl View for Page {
    type V = PageView;

    open spec fn view(&self) -> PageView {
        PageView { va: self.va, writable: self.writable, data: self.data@ }
    }
}

/// What the pager sees of a sequence of pages.
pub open spec fn page_views(pages: Seq<Page>) -> Seq<PageView> {
    pages.map_values(|p: Page| p@)
}

/// The address space of a lazily paged process: its regions and its loaded
/// pages.
pub struct LazyPager {
    pub vmas: MmStruct,
    pub pages: Vec<Page>,
}

/// What the pager's contracts speak of: the regions and the loaded pages.
pub struct LazyPagerView {
    pub areas: Seq<VmArea>,
    pub pages: Seq<PageView>,
}

impl View for LazyPager {
    type V = LazyPagerView;

    open spec fn view(&self) -> LazyPagerView {
        LazyPagerView { areas: self.vmas@, pages: page_views(self.pages@) }
    }
}

/// Whether `p` is a page of a region of `areas`, whole and aligned, and
/// writable only where its region may be written.
pub open spec fn page_ok(areas: Seq<VmArea>, p: PageView) -> bool {
    &&& p.va % PAGE_SIZE == 0
    &&& p.data.len() == PAGE_SIZE
    &&& area_of(areas, p.va as int) matches Some(a) && (p.writable ==> a.perm.write)
}

/// Whether each file-backed region of `areas` maps one of `files`.
pub open spec fn files_ok(areas: Seq<VmArea>, files: Seq<Seq<u8>>) -> bool {
    forall|i: int|
        0 <= i < areas.len() ==> ((#[trigger] areas[i]).backing matches Backing::File { file, offset }
            ==> file < files.len())
}

/// The start of the page that holds address `a`.
pub open spec fn page_base(a: int) -> int {
    a - a % PAGE_SIZE as int
}

/// Whether page `va` is loaded.
pub open spec fn loaded(pages: Seq<PageView>, va: int) -> bool {
    exists|i: int| 0 <= i < pages.len() && #[trigger] pages[i].va == va
}

/// The index of loaded page `va`.
pub open spec fn page_index(pages: Seq<PageView>, va: int) -> int {
    choose|i: int| 0 <= i < pages.len() && #[trigger] pages[i].va == va
}

impl LazyPagerView {
    /// Well-formed regions, well-formed pages, one page at most per
    /// address.
    pub open spec fn wf(self) -> bool {
        &&& areas_wf(self.areas)
        &&& forall|i: int| 0 <= i < self.pages.len() ==> page_ok(self.areas, #[trigger] self.pages[i])
        &&& forall|i: int, j: int|
            0 <= i < self.pages.len() && 0 <= j < self.pages.len() && i != j ==> #[trigger] self.pages[i].va
                != #[trigger] self.pages[j].va
    }
}

/// The outcome of a demand-paging fault for `reason`: the faulting page is
/// loaded with its first contents, writable where its region may be
/// written; nothing changes when it is loaded already. `None`
/// ([`KernelError::InvalidAccess`]) when no region holds the address, or
/// the access is a write to a region that may not be written.
pub open spec fn lazy_load(v: LazyPagerView, files: Seq<Seq<u8>>, reason: PageFaultReason) -> Option<
    LazyPagerView,
> {
    let page = page_base(reason.fault_addr as int);
    match area_of(v.areas, reason.fault_addr as int) {
        None => None,
        Some(a) => if !a.allows(reason.is_write_access) {
            None
        } else if loaded(v.pages, page) {
            Some(v)
        } else {
            Some(
                LazyPagerView {
                    pages: v.pages.push(
                        PageView { va: page as u64, writable: a.perm.write, data: fill(a, files, page) },
                    ),
                    ..v
                },
            )
        },
    }
}

/// The outcome of a copy-on-write fault for `reason`: the faulting page,
/// with its contents, becomes writable. `None`
/// ([`KernelError::InvalidAccess`]) when no region that may be written holds
/// the address, or the page is not loaded.
pub open spec fn copy_on_write(v: LazyPagerView, reason: PageFaultReason) -> Option<LazyPagerView> {
    let page = page_base(reason.fault_addr as int);
    match area_of(v.areas, reason.fault_addr as int) {
        None => None,
        Some(a) => if !a.perm.write || !loaded(v.pages, page) {
            None
        } else {
            let i = page_index(v.pages, page);
            Some(
                LazyPagerView {
                    pages: v.pages.update(i, PageView { writable: true, ..v.pages[i] }),
                    ..v
                },
            )
        },
    }
}

/// The outcome of a page fault: demand paging for a page that was not
/// present, copy-on-write for a write to a present page, and `None`
/// ([`KernelError::InvalidAccess`]) for anything else.
pub open spec fn page_fault(v: LazyPagerView, files: Seq<Seq<u8>>, reason: PageFaultReason) -> Option<
    LazyPagerView,
> {
    if !reason.is_present {
        lazy_load(v, files, reason)
    } else if reason.is_write_access {
        copy_on_write(v, reason)
    } else {
        None
    }
}

/// The pages as `fork` leaves them, in the parent and in the child: the
/// same, none writable.
pub open spec fn protected(pages: Seq<PageView>) -> Seq<PageView> {
    pages.map_values(|p: PageView| PageView { writable: false, ..p })
}

/// Whether page `p` lies outside region `a`.
pub open spec fn outside(a: VmArea, p: PageView) -> bool {
    !a.contains(p.va as int)
}

/// The region of `areas` that starts at `addr`.
pub open spec fn area_at(areas: Seq<VmArea>, addr: u64) -> VmArea {
    areas[choose|i: int| 0 <= i < areas.len() && #[trigger] areas[i].start == addr]
}

/// In a well-formed address space, the region that contains `a` is the one
/// that [`area_of`] names.
pub proof fn lemma_area_of(areas: Seq<VmArea>, i: int, a: int)
    requires
        areas_wf(areas),
        0 <= i < areas.len(),
        areas[i].contains(a),
    ensures
        area_of(areas, a) == Some(areas[i]),
{
    let j = choose|j: int| 0 <= j < areas.len() && #[trigger] areas[j].contains(a);
    lemma_unique(areas, i, j, a);
}

/// The page that holds `a`, in a region that holds `a`, is in that region.
proof fn lemma_page_in_area(area: VmArea, a: int)
    requires
        area.wf(),
        area.contains(a),
    ensures
        area.contains(page_base(a)),
        page_base(a) % PAGE_SIZE as int == 0,
        page_base(a) <= a,
{
    assert(page_base(a) % 4096 == 0 && page_base(a) <= a && page_base(a) > a - 4096) by (nonlinear_arith)
        requires
            a >= 0,
            page_base(a) == a - a % 4096,
    ;
    assert(area.start <= page_base(a)) by (nonlinear_arith)
        requires
            area.start % 4096 == 0,
            area.start <= a,
            page_base(a) % 4096 == 0,
            page_base(a) <= a,
            page_base(a) > a - 4096,
    ;
}

/// After `fork` has write-protected the pages, a write to a loaded page of
/// a region that may be written succeeds: that page, with its contents,
/// becomes writable again, and nothing else changes.
pub proof fn lemma_write_after_fork(v: LazyPagerView, files: Seq<Seq<u8>>, i: int, addr: u64)
    requires
        v.wf(),
        0 <= i < v.pages.len(),
        page_base(addr as int) == v.pages[i].va,
        area_of(v.areas, addr as int) matches Some(a) && a.perm.write,
    ensures
        page_fault(
            LazyPagerView { pages: protected(v.pages), ..v },
            files,
            PageFaultReason { fault_addr: addr, is_write_access: true, is_present: true },
        ) == Some(
            LazyPagerView {
                pages: protected(v.pages).update(i, PageView { writable: true, ..v.pages[i] }),
                ..v
            },
        ),
{
    let ps = protected(v.pages);
    let page = page_base(addr as int);
    assert(ps[i].va == page);
    assert(loaded(ps, page));
    let c = page_index(ps, page);
    if c != i {
        assert(ps[c].va == v.pages[c].va);
    }
}

/// A write to an address whose region may not be written fails, whether
/// the page is loaded or not.
pub proof fn lemma_write_to_read_only_fails(v: LazyPagerView, files: Seq<Seq<u8>>, reason: PageFaultReason)
    requires
        reason.is_write_access,
        area_of(v.areas, reason.fault_addr as int) matches Some(a) && !a.perm.write,
    ensures
        page_fault(v, files, reason) is None,
{
}

/// A fault at an address that no region holds fails.
pub proof fn lemma_unmapped_fault_fails(v: LazyPagerView, files: Seq<Seq<u8>>, reason: PageFaultReason)
    requires
        area_of(v.areas, reason.fault_addr as int) is None,
    ensures
        page_fault(v, files, reason) is None,
{
}

/// After `mmap`, the first read of an address of the new region loads its
/// page: zero-filled for an anonymous region, the file's bytes from the
/// matching offset on for a file-backed one; writable when the rights
/// include writing.
pub proof fn lemma_first_read_after_mmap(
    v: LazyPagerView,
    files: Seq<Seq<u8>>,
    addr: u64,
    size: u64,
    prot: Permission,
    backing: Backing,
    x: u64,
)
    requires
        v.wf(),
        mmap_ok(v.areas, addr, size, prot),
        addr <= x < addr + size,
    ensures
        page_fault(
            LazyPagerView { areas: v.areas.push(new_area(addr, size, prot, backing)), ..v },
            files,
            PageFaultReason { fault_addr: x, is_write_access: false, is_present: false },
        ) == Some(
            LazyPagerView {
                areas: v.areas.push(new_area(addr, size, prot, backing)),
                pages: v.pages.push(
                    PageView {
                        va: page_base(x as int) as u64,
                        writable: prot.write,
                        data: match backing {
                            Backing::Anonymous => zero_page(),
                            Backing::File { file, offset } => file_page(
                                files[file as int],
                                offset + (page_base(x as int) - addr),
                            ),
                        },
                    },
                ),
            },
        ),
{
    let na = new_area(addr, size, prot, backing);
    let s = v.areas.push(na);
    lemma_push_wf(v.areas, addr, size, prot, backing);
    lemma_page_up(addr + size, USER_SPACE_END as int);
    let k = v.areas.len() as int;
    assert(s[k] == na);
    assert(na.contains(x as int));
    lemma_area_of(s, k, x as int);
    lemma_page_in_area(na, x as int);
    let page = page_base(x as int);
    if loaded(v.pages, page) {
        let n = choose|n: int| 0 <= n < v.pages.len() && #[trigger] v.pages[n].va == page;
        assert(page_ok(v.areas, v.pages[n]));
        let j = choose|j: int| 0 <= j < v.areas.len() && #[trigger] v.areas[j].contains(page);
        assert(v.areas[j].end <= addr || na.end <= v.areas[j].start);
    }
}

/// A page outside the region removed from a well-formed address space
/// still lies in one of the regions that remain, with the same rights.
proof fn lemma_kept_page_ok(areas: Seq<VmArea>, k: int, p: PageView)
    requires
        areas_wf(areas),
        0 <= k < areas.len(),
        page_ok(areas, p),
        outside(areas[k], p),
    ensures
        page_ok(areas.remove(k), p),
{
    let s = areas.remove(k);
    let j = choose|j: int| 0 <= j < areas.len() && #[trigger] areas[j].contains(p.va as int);
    lemma_area_of(areas, j, p.va as int);
    assert(j != k);
    let j2 = if j < k { j } else { j - 1 };
    assert(s[j2] == areas[j]);
    crate::project2::mm_struct::lemma_remove_wf(areas, k);
    lemma_area_of(s, j2, p.va as int);
}

/// A copy of `b`.
fn copy_bytes(b: &Vec<u8>) -> (r: Vec<u8>)
    ensures
        r@ == b@,
{
    let mut v: Vec<u8> = Vec::new();
    let mut i: usize = 0;
    while i < b.len()
        invariant
            i <= b@.len(),
            v@ == b@.take(i as int),
        decreases b@.len() - i,
    {
        v.push(b[i]);
        i = i + 1;
        assert(v@ =~= b@.take(i as int));
    }
    assert(v@ =~= b@);
    v
}

impl LazyPager {
    /// An address space with nothing mapped.
    pub fn new() -> (r: Self)
        ensures
            r@.areas == Seq::<VmArea>::empty(),
            r@.pages == Seq::<PageView>::empty(),
            r@.wf(),
    {
        let r = LazyPager { vmas: MmStruct::new(), pages: Vec::new() };
        assert(r@.pages =~= Seq::<PageView>::empty());
        r
    }

    /// The index of loaded page `va`, if it is loaded.
    pub fn find_page(&self, va: u64) -> (r: Option<usize>)
        ensures
            match r {
                Some(i) => i < self@.pages.len() && self@.pages[i as int].va == va,
                None => !loaded(self@.pages, va as int),
            },
    {
        let mut i: usize = 0;
        while i < self.pages.len()
            invariant
                i <= self.pages@.len(),
                forall|k: int| 0 <= k < i ==> (#[trigger] self@.pages[k]).va != va,
            decreases self.pages@.len() - i,
        {
            if self.pages[i].va == va {
                return Some(i);
            }
            i = i + 1;
        }
        None
    }

    /// Records a region of `size` bytes at `addr` with rights `prot`,
    /// filled as `backing` says, and returns `addr`; no page is loaded.
    /// [`KernelError::InvalidArgument`] when [`mmap_ok`] refuses the
    /// request.
    pub fn mmap(&mut self, addr: u64, size: u64, prot: Permission, backing: Backing) -> (r: Result<
        u64,
        KernelError,
    >)
        requires
            old(self)@.wf(),
        ensures
            final(self)@.wf(),
            final(self)@.pages == old(self)@.pages,
            if mmap_ok(old(self)@.areas, addr, size, prot) {
                r == Ok::<u64, KernelError>(addr) && final(self)@.areas == old(self)@.areas.push(
                    new_area(addr, size, prot, backing),
                )
            } else {
                r == Err::<u64, KernelError>(KernelError::InvalidArgument) && final(self)@.areas
                    == old(self)@.areas
            },
    {
        let ghost areas = self@.areas;
        let r = self.vmas.do_mmap(addr, size, prot, backing);
        proof {
            let s = self@.areas;
            assert forall|i: int| 0 <= i < self@.pages.len() implies page_ok(
                s,
                #[trigger] self@.pages[i],
            ) by {
                let p = self@.pages[i];
                assert(page_ok(areas, p));
                let j = choose|j: int| 0 <= j < areas.len() && #[trigger] areas[j].contains(p.va as int);
                assert(s[j] == areas[j]);
                lemma_area_of(s, j, p.va as int);
            }
        }
        r
    }

    /// Unmaps the region that starts at `addr`, with its loaded pages, and
    /// returns 0; [`KernelError::InvalidArgument`] when no region starts
    /// there, with nothing unmapped.
    pub fn munmap(&mut self, addr: u64) -> (r: Result<usize, KernelError>)
        requires
            old(self)@.wf(),
        ensures
            final(self)@.wf(),
            match unmapped(old(self)@.areas, addr) {
                Some(s) => r == Ok::<usize, KernelError>(0) && final(self)@.areas == s
                    && final(self)@.pages == old(self)@.pages.filter(
                    |p: PageView| outside(area_at(old(self)@.areas, addr), p),
                ),
                None => r == Err::<usize, KernelError>(KernelError::InvalidArgument) && final(self)@
                    == old(self)@,
            },
    {
        let ghost old_v = self@;
        let mut k: usize = 0;
        while k < self.vmas.areas.len() && self.vmas.areas[k].start != addr
            invariant
                k <= self@.areas.len(),
                self@ == old_v,
                forall|j: int| 0 <= j < k ==> (#[trigger] self@.areas[j]).start != addr,
            decreases self@.areas.len() - k,
        {
            k = k + 1;
        }
        if k == self.vmas.areas.len() {
            proof {
                if exists|j: int| 0 <= j < old_v.areas.len() && #[trigger] old_v.areas[j].start == addr {
                    let j = choose|j: int| 0 <= j < old_v.areas.len() && #[trigger] old_v.areas[j].start == addr;
                    assert(old_v.areas[j].start != addr);
                }
            }
            return Err(KernelError::InvalidArgument);
        }
        let area = self.vmas.areas[k];
        proof {
            let j = choose|j: int| 0 <= j < old_v.areas.len() && #[trigger] old_v.areas[j].start == addr;
            lemma_unique(old_v.areas, k as int, j, 0);
            assert(area_at(old_v.areas, addr) == area);
        }
        let r = self.vmas.do_munmap(addr);
        let ghost s = self@.areas;
        let ghost pred = |p: PageView| outside(area, p);
        let mut kept: Vec<Page> = Vec::new();
        let mut i: usize = 0;
        while i < self.pages.len()
            invariant
                i <= self.pages@.len(),
                self@.pages == old_v.pages,
                old_v.wf(),
                k < old_v.areas.len(),
                old_v.areas[k as int] == area,
                s == old_v.areas.remove(k as int),
                page_views(kept@) == old_v.pages.take(i as int).filter(pred),
                pred == (|p: PageView| outside(area, p)),
                forall|x: int|
                    0 <= x < kept@.len() ==> page_ok(s, #[trigger] page_views(kept@)[x]),
                forall|x: int|
                    0 <= x < kept@.len() ==> exists|n: int|
                        0 <= n < i && old_v.pages[n].va == (#[trigger] page_views(kept@)[x]).va,
                forall|x: int, y: int|
                    0 <= x < kept@.len() && 0 <= y < kept@.len() && x != y ==> (#[trigger] page_views(kept@)[x]).va != (#[trigger] page_views(kept@)[y]).va,
            decreases self.pages@.len() - i,
        {
            let ghost before = page_views(kept@);
            let p = &self.pages[i];
            proof {
                assert(old_v.pages.take(i + 1).drop_last() =~= old_v.pages.take(i as int));
                assert(old_v.pages.take(i + 1).last() == old_v.pages[i as int]);
                reveal(Seq::filter);
                assert(p@ == old_v.pages[i as int]);
            }
            if !(area.start <= p.va && p.va < area.end) {
                let data = copy_bytes(&p.data);
                kept.push(Page { va: p.va, writable: p.writable, data });
                proof {
                    let kv = page_views(kept@);
                    assert(kv =~= before.push(old_v.pages[i as int]));
                    lemma_kept_page_ok(old_v.areas, k as int, old_v.pages[i as int]);
                    assert forall|x: int| 0 <= x < kv.len() implies exists|n: int|
                        0 <= n < i + 1 && old_v.pages[n].va == (#[trigger] kv[x]).va by {
                        if x == before.len() {
                            assert(old_v.pages[i as int].va == kv[x].va);
                        } else {
                            assert(kv[x] == before[x]);
                        }
                    }
                    assert forall|x: int, y: int|
                        0 <= x < kv.len() && 0 <= y < kv.len() && x != y implies (#[trigger] kv[x]).va
                        != (#[trigger] kv[y]).va by {
                        if x == before.len() {
                            assert(kv[y] == before[y]);
                            let n = choose|n: int| 0 <= n < i && old_v.pages[n].va == (#[trigger] before[y]).va;
                            assert(old_v.pages[n].va != old_v.pages[i as int].va);
                        } else if y == before.len() {
                            assert(kv[x] == before[x]);
                            let n = choose|n: int| 0 <= n < i && old_v.pages[n].va == (#[trigger] before[x]).va;
                            assert(old_v.pages[n].va != old_v.pages[i as int].va);
                        } else {
                            assert(kv[x] == before[x] && kv[y] == before[y]);
                        }
                    }
                    assert forall|x: int| 0 <= x < kv.len() implies page_ok(s, #[trigger] kv[x]) by {
                        if x < before.len() {
                            assert(kv[x] == before[x]);
                        }
                    }
                }
            } else {
                proof {
                    assert forall|x: int| 0 <= x < before.len() implies exists|n: int|
                        0 <= n < i + 1 && old_v.pages[n].va == (#[trigger] before[x]).va by {
                        let n = choose|n: int| 0 <= n < i && old_v.pages[n].va == (#[trigger] before[x]).va;
                    }
                }
            }
            i = i + 1;
        }
        self.pages = kept;
        proof {
            assert(old_v.pages.take(old_v.pages.len() as int) =~= old_v.pages);
        }
        r
    }

    /// Whether address `va` lies in a region that may be read, and written
    /// when `is_write`; nothing is loaded.
    pub fn access_ok(&self, va: u64, is_write: bool) -> (r: bool)
        requires
            self@.wf(),
        ensures
            r == crate::project2::mm_struct::accessible(self@.areas, va as int, is_write),
    {
        match self.vmas.find_area(va) {
            None => false,
            Some(i) => {
                let a = self.vmas.areas[i];
                proof {
                    if crate::project2::mm_struct::accessible(self@.areas, va as int, is_write) {
                        let j = choose|j: int|
                            0 <= j < self@.areas.len() && #[trigger] self@.areas[j].contains(va as int)
                                && self@.areas[j].allows(is_write);
                        lemma_unique(self@.areas, i as int, j, va as int);
                    }
                }
                a.perm.read && (!is_write || a.perm.write)
            },
        }
    }

    /// Loads the page that holds `addr`, in region `i`, with its first
    /// contents.
    fn load_page(&mut self, m: &Machine, i: usize, addr: u64)
        requires
            old(self)@.wf(),
            files_ok(old(self)@.areas, m@.contents),
            i < old(self)@.areas.len(),
            old(self)@.areas[i as int].contains(addr as int),
            !loaded(old(self)@.pages, page_base(addr as int)),
        ensures
            final(self)@.wf(),
            final(self)@ == (LazyPagerView {
                pages: old(self)@.pages.push(
                    PageView {
                        va: page_base(addr as int) as u64,
                        writable: old(self)@.areas[i as int].perm.write,
                        data: fill(old(self)@.areas[i as int], m@.contents, page_base(addr as int)),
                    },
                ),
                ..old(self)@
            }),
    {
        let area = self.vmas.areas[i];
        proof {
            assert(old(self)@.areas[i as int].wf());
            lemma_page_in_area(area, addr as int);
        }
        let page = addr - addr % PAGE_SIZE;
        let data = match area.backing {
            Backing::Anonymous => AnonLoader {}.load(page),
            Backing::File { file, offset } => {
                proof {
                    assert(old(self)@.areas[i as int].backing matches Backing::File { file, offset });
                }
                FileBackedLoader { file, offset, start: area.start }.load(m, page)
            },
        };
        let ghost before = self@;
        self.pages.push(Page { va: page, writable: area.perm.write, data });
        proof {
            let v = self@;
            let np = PageView { va: page, writable: area.perm.write, data: data@ };
            assert(v.pages =~= before.pages.push(np));
            lemma_area_of(v.areas, i as int, page as int);
            assert forall|x: int| 0 <= x < v.pages.len() implies page_ok(v.areas, #[trigger] v.pages[x]) by {
                if x < before.pages.len() {
                    assert(v.pages[x] == before.pages[x]);
                }
            }
            assert forall|x: int, y: int|
                0 <= x < v.pages.len() && 0 <= y < v.pages.len() && x != y implies #[trigger] v.pages[x].va
                != #[trigger] v.pages[y].va by {
                if x == before.pages.len() {
                    assert(v.pages[y] == before.pages[y]);
                } else if y == before.pages.len() {
                    assert(v.pages[x] == before.pages[x]);
                } else {
                    assert(v.pages[x] == before.pages[x] && v.pages[y] == before.pages[y]);
                }
            }
        }
    }

    /// Finds the page that holds `addr`, loading it first if it is not
    /// loaded, and returns the rights of its region; `None` when no region
    /// holds `addr`, with nothing loaded.
    pub fn get_user_page(&mut self, m: &Machine, addr: u64) -> (r: Option<Permission>)
        requires
            old(self)@.wf(),
            files_ok(old(self)@.areas, m@.contents),
        ensures
            final(self)@.wf(),
            match area_of(old(self)@.areas, addr as int) {
                None => r is None && final(self)@ == old(self)@,
                Some(a) => r == Some(a.perm) && Some(final(self)@) == lazy_load(
                    old(self)@,
                    m@.contents,
                    PageFaultReason { fault_addr: addr, is_write_access: false, is_present: false },
                ),
            },
    {
        match self.vmas.find_area(addr) {
            None => {
                proof {
                    if exists|j: int| 0 <= j < self@.areas.len() && #[trigger] self@.areas[j].contains(addr as int) {
                        let j = choose|j: int| 0 <= j < self@.areas.len() && #[trigger] self@.areas[j].contains(addr as int);
                        assert(!self@.areas[j].contains(addr as int));
                    }
                }
                None
            },
            Some(i) => {
                proof {
                    lemma_area_of(self@.areas, i as int, addr as int);
                    assert(self@.areas[i as int].wf());
                }
                let perm = self.vmas.areas[i].perm;
                let page = addr - addr % PAGE_SIZE;
                match self.find_page(page) {
                    Some(_) => {},
                    None => self.load_page(m, i, addr),
                }
                Some(perm)
            },
        }
    }

    /// Handles a demand-paging fault (see [`lazy_load`]):
    /// [`KernelError::InvalidAccess`] when the access is not allowed.
    pub fn do_lazy_load(&mut self, m: &Machine, reason: &PageFaultReason) -> (r: Result<(), KernelError>)
        requires
            old(self)@.wf(),
            files_ok(old(self)@.areas, m@.contents),
        ensures
            final(self)@.wf(),
            match lazy_load(old(self)@, m@.contents, *reason) {
                Some(v) => r == Ok::<(), KernelError>(()) && final(self)@ == v,
                None => r == Err::<(), KernelError>(KernelError::InvalidAccess) && final(self)@ == old(self)@,
            },
    {
        let addr = reason.fault_addr;
        match self.vmas.find_area(addr) {
            None => Err(KernelError::InvalidAccess),
            Some(i) => {
                proof {
                    lemma_area_of(self@.areas, i as int, addr as int);
                }
                let area = self.vmas.areas[i];
                if !(area.perm.read && (!reason.is_write_access || area.perm.write)) {
                    return Err(KernelError::InvalidAccess);
                }
                let page = addr - addr % PAGE_SIZE;
                match self.find_page(page) {
                    Some(_) => {},
                    None => self.load_page(m, i, addr),
                }
                Ok(())
            },
        }
    }

    /// Handles a copy-on-write fault (see [`copy_on_write`]):
    /// [`KernelError::InvalidAccess`] when the page may not be written.
    pub fn do_copy_on_write(&mut self, reason: &PageFaultReason) -> (r: Result<(), KernelError>)
        requires
            old(self)@.wf(),
        ensures
            final(self)@.wf(),
            match copy_on_write(old(self)@, *reason) {
                Some(v) => r == Ok::<(), KernelError>(()) && final(self)@ == v,
                None => r == Err::<(), KernelError>(KernelError::InvalidAccess) && final(self)@ == old(self)@,
            },
    {
        let addr = reason.fault_addr;
        let i = match self.vmas.find_area(addr) {
            None => return Err(KernelError::InvalidAccess),
            Some(i) => i,
        };
        proof {
            lemma_area_of(self@.areas, i as int, addr as int);
        }
        if !self.vmas.areas[i].perm.write {
            return Err(KernelError::InvalidAccess);
        }
        let page = addr - addr % PAGE_SIZE;
        let j = match self.find_page(page) {
            None => return Err(KernelError::InvalidAccess),
            Some(j) => j,
        };
        let ghost before = self@;
        proof {
            let c = page_index(before.pages, page as int);
            assert(before.pages[c].va == page);
        }
        let mut p = self.pages.remove(j);
        p.writable = true;
        self.pages.insert(j, p);
        proof {
            let c = page_index(before.pages, page as int);
            assert(c == j);
            let v = self@;
            assert(v.pages =~= before.pages.update(j as int, PageView { writable: true, ..before.pages[j as int] }));
            assert(page_ok(before.areas, before.pages[j as int]));
            lemma_area_of(before.areas, i as int, addr as int);
            let q = before.pages[j as int];
            assert(before.areas[i as int].wf());
            lemma_page_in_area(before.areas[i as int], addr as int);
            lemma_area_of(before.areas, i as int, q.va as int);
            assert forall|x: int| 0 <= x < v.pages.len() implies page_ok(v.areas, #[trigger] v.pages[x]) by {
                if x != j {
                    assert(v.pages[x] == before.pages[x]);
                }
            }
            assert forall|x: int, y: int|
                0 <= x < v.pages.len() && 0 <= y < v.pages.len() && x != y implies #[trigger] v.pages[x].va
                != #[trigger] v.pages[y].va by {
                assert(v.pages[x].va == before.pages[x].va && v.pages[y].va == before.pages[y].va);
            }
        }
        Ok(())
    }

    /// Handles a page fault (see [`page_fault`]): demand paging when the
    /// page was not present, copy-on-write for a write to a present page;
    /// [`KernelError::InvalidAccess`] otherwise, which ends the process.
    pub fn handle_page_fault(&mut self, m: &Machine, reason: &PageFaultReason) -> (r: Result<
        (),
        KernelError,
    >)
        requires
            old(self)@.wf(),
            files_ok(old(self)@.areas, m@.contents),
        ensures
            final(self)@.wf(),
            match page_fault(old(self)@, m@.contents, *reason) {
                Some(v) => r == Ok::<(), KernelError>(()) && final(self)@ == v,
                None => r == Err::<(), KernelError>(KernelError::InvalidAccess) && final(self)@ == old(self)@,
            },
    {
        if reason.is_demand_paging_fault() {
            self.do_lazy_load(m, reason)
        } else if reason.is_cow_fault() {
            self.do_copy_on_write(reason)
        } else {
            Err(KernelError::InvalidAccess)
        }
    }

    /// Prepares `fork`: write-protects every loaded page and returns the
    /// child's address space, the same regions and pages.
    pub fn write_protect_ptes(&mut self) -> (r: Result<LazyPager, KernelError>)
        requires
            old(self)@.wf(),
        ensures
            final(self)@.wf(),
            final(self)@.areas == old(self)@.areas,
            final(self)@.pages == protected(old(self)@.pages),
            r matches Ok(child) && child@ == final(self)@,
    {
        let ghost before = self@;
        let mut areas: Vec<VmArea> = Vec::new();
        let mut k: usize = 0;
        while k < self.vmas.areas.len()
            invariant
                k <= self@.areas.len(),
                self@ == before,
                areas@ == before.areas.take(k as int),
            decreases self@.areas.len() - k,
        {
            areas.push(self.vmas.areas[k]);
            k = k + 1;
            assert(areas@ =~= before.areas.take(k as int));
        }
        let mut mine: Vec<Page> = Vec::new();
        let mut theirs: Vec<Page> = Vec::new();
        let mut i: usize = 0;
        while i < self.pages.len()
            invariant
                i <= self.pages@.len(),
                self@ == before,
                page_views(mine@) == protected(before.pages).take(i as int),
                page_views(theirs@) == protected(before.pages).take(i as int),
            decreases self.pages@.len() - i,
        {
            let p = &self.pages[i];
            let d1 = copy_bytes(&p.data);
            let d2 = copy_bytes(&p.data);
            let ghost m0 = page_views(mine@);
            let ghost t0 = page_views(theirs@);
            mine.push(Page { va: p.va, writable: false, data: d1 });
            theirs.push(Page { va: p.va, writable: false, data: d2 });
            i = i + 1;
            proof {
                let q = before.pages[i - 1];
                assert(p@ == q);
                let pq = PageView { writable: false, ..q };
                assert(protected(before.pages)[i - 1] == pq);
                assert(protected(before.pages).take(i as int) =~= protected(before.pages).take(i - 1).push(pq));
                assert(page_views(mine@) =~= m0.push(pq));
                assert(page_views(theirs@) =~= t0.push(pq));
            }
        }
        self.pages = mine;
        proof {
            assert(areas@ =~= before.areas);
            assert(protected(before.pages).take(before.pages.len() as int) =~= protected(before.pages));
            let v = self@;
            assert forall|x: int| 0 <= x < v.pages.len() implies page_ok(v.areas, #[trigger] v.pages[x]) by {
                assert(page_ok(before.areas, before.pages[x]));
            }
            assert forall|x: int, y: int|
                0 <= x < v.pages.len() && 0 <= y < v.pages.len() && x != y implies #[trigger] v.pages[x].va
                != #[trigger] v.pages[y].va by {
                assert(v.pages[x].va == before.pages[x].va && v.pages[y].va == before.pages[y].va);
            }
        }
        Ok(LazyPager { vmas: MmStruct { areas }, pages: theirs })
    }
}

} // verus!
