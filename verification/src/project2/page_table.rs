//! The x86-64 four-level page table.
//!
//! A virtual address picks one entry at each level with nine of its bits:
//! bits 39 to 47 in the top table (PML4), then bits 30 to 38, 21 to 29 and
//! 12 to 20; the last entry maps the 4 KiB page that holds the address.
//! Each table has 512 entries. Tables below the top one are made when a page
//! under them is first mapped.
use crate::project2::elf::Permission;
use vstd::prelude::*;

verus! {

/// Entry flag: the page is present.
pub const PTE_P: u64 = 1;

/// Entry flag: the page may be written.
pub const PTE_RW: u64 = 2;

/// Entry flag: user mode may reach the page.
pub const PTE_US: u64 = 4;

/// Entry flag: instructions may not be fetched from the page.
pub const PTE_XD: u64 = 0x8000_0000_0000_0000;

/// Why a page table operation failed.
#[derive(Clone, Copy, Debug, PartialEq, Eq)]
pub enum PageTableMappingError {
    /// The address is not on a page boundary.
    Unaligned,
    /// No page is mapped at the address.
    NotExist,
    /// A page is mapped at the address already.
    Duplicated,
    /// The rights do not allow reading, which a present page always does.
    InvalidPermission,
}

/// A last-level entry: the physical page and the flags.
#[derive(Clone, Copy, Debug, PartialEq, Eq)]
pub struct Pte {
    pub pa: u64,
    pub flags: u64,
}

/// What an entry of a table points to: a table of the level below, or, in
/// a last-level table, a page.
pub enum Node {
    Table(Box<Table>),
    Page(Pte),
}

/// One table of the page table: 512 entries, empty where `None`.
pub struct Table {
    pub entries: Vec<Option<Node>>,
}

/// The entry that `va` picks in a table of level `level` (3 for the top
/// table, 0 for a last-level table).
pub open spec fn index_at(level: nat, va: u64) -> int {
    ((va >> ((12 + 9 * level) as u64)) & 0x1ff) as int
}

/// Whether `x` and `va` pick the same entries in the tables of levels
/// `level` down to 0, and so the same page below a table of level `level`.
pub open spec fn same_path(level: nat, x: u64, va: u64) -> bool {
    forall|l: nat| l <= level ==> #[trigger] index_at(l, x) == index_at(l, va)
}

/// The page that table `t` of level `level` maps at `x`, if any.
pub open spec fn lookup_in(t: Table, level: nat, x: u64) -> Option<Pte>
    decreases level,
{
    let i = index_at(level, x);
    if 0 <= i < t.entries@.len() {
        match t.entries@[i] {
            Some(Node::Page(p)) => if level == 0 {
                Some(p)
            } else {
                None
            },
            Some(Node::Table(sub)) => if level > 0 {
                lookup_in(*sub, (level - 1) as nat, x)
            } else {
                None
            },
            None => None,
        }
    } else {
        None
    }
}

/// Whether `t` is a well-formed table of level `level`: 512 entries, pages
/// only at the last level and tables of the level below elsewhere.
pub open spec fn table_wf(t: Table, level: nat) -> bool
    decreases level,
{
    &&& t.entries@.len() == 512
    &&& forall|i: int|
        0 <= i < 512 ==> match #[trigger] t.entries@[i] {
            Some(Node::Page(p)) => level == 0,
            Some(Node::Table(sub)) => level > 0 && table_wf(*sub, (level - 1) as nat),
            None => true,
        }
}

/// Whether `after` maps what `before` does, but `pte` for every address on
/// the path of `va` below a table of level `level`.
pub open spec fn mapped(before: Table, after: Table, level: nat, va: u64, pte: Pte) -> bool {
    forall|x: u64|
        #[trigger] lookup_in(after, level, x) == if same_path(level, x, va) {
            Some(pte)
        } else {
            lookup_in(before, level, x)
        }
}

/// Whether `after` maps what `before` does, but nothing on the path of `va`
/// below a table of level `level`.
pub open spec fn unmapped(before: Table, after: Table, level: nat, va: u64) -> bool {
    forall|x: u64|
        #[trigger] lookup_in(after, level, x) == if same_path(level, x, va) {
            None
        } else {
            lookup_in(before, level, x)
        }
}

/// Whether `after` maps just what `before` does, below a table of level
/// `level`.
pub open spec fn same_map(before: Table, after: Table, level: nat) -> bool {
    forall|x: u64| #[trigger] lookup_in(after, level, x) == lookup_in(before, level, x)
}

/// The flags of a last-level entry for a page with rights `perm`: present,
/// writable and user-accessible as `perm` says, and not executable unless
/// it says so; no flag at all for rights that grant nothing but user
/// access.
pub open spec fn pte_flags(perm: Permission) -> u64 {
    if !(perm.read || perm.write || perm.executable) {
        0
    } else {
        PTE_P | (if perm.write {
            PTE_RW
        } else {
            0
        }) | (if perm.user {
            PTE_US
        } else {
            0
        }) | (if perm.executable {
            0
        } else {
            PTE_XD
        })
    }
}

/// The entry that `va` picks at `level` is one of 512.
proof fn lemma_index_bound(level: nat, va: u64)
    ensures
        0 <= index_at(level, va) < 512,
{
    let s = (12 + 9 * level) as u64;
    assert((va >> s) & 0x1ff <= 0x1ff) by (bit_vector);
}

/// Addresses on the same path below a table pick the same entry in it, and
/// are on the same path below the entry's table.
proof fn lemma_same_path_step(level: nat, x: u64, va: u64)
    requires
        level > 0,
    ensures
        same_path(level, x, va) <==> index_at(level, x) == index_at(level, va) && same_path(
            (level - 1) as nat,
            x,
            va,
        ),
{
    if index_at(level, x) == index_at(level, va) && same_path((level - 1) as nat, x, va) {
        assert forall|l: nat| l <= level implies #[trigger] index_at(l, x) == index_at(l, va) by {
            if l < level {
                assert(l <= (level - 1) as nat);
            }
        }
    }
}

/// What a table maps at an address depends only on the entries the
/// address picks.
pub proof fn lemma_lookup_path(t: Table, level: nat, x: u64, va: u64)
    requires
        same_path(level, x, va),
    ensures
        lookup_in(t, level, x) == lookup_in(t, level, va),
    decreases level,
{
    assert(index_at(level, x) == index_at(level, va));
    if level > 0 {
        lemma_same_path_step(level, x, va);
        let i = index_at(level, x);
        if 0 <= i < t.entries@.len() {
            if let Some(Node::Table(sub)) = t.entries@[i] {
                lemma_lookup_path(*sub, (level - 1) as nat, x, va);
            }
        }
    }
}

/// Addresses in the same 4 KiB page pick the same entries at every level.
pub proof fn lemma_same_page(x: u64, va: u64)
    requires
        x / 4096 == va / 4096,
    ensures
        same_path(3, x, va),
{
    assert(x >> 12u64 == va >> 12u64) by (bit_vector)
        requires
            x / 4096 == va / 4096,
    ;
    assert forall|l: nat| l <= 3 implies #[trigger] index_at(l, x) == index_at(l, va) by {
        if l == 0 {
            assert((x >> 12u64) & 0x1ff == (va >> 12u64) & 0x1ff);
        } else if l == 1 {
            assert((x >> 21u64) & 0x1ff == (va >> 21u64) & 0x1ff) by (bit_vector)
                requires
                    x >> 12u64 == va >> 12u64,
            ;
        } else if l == 2 {
            assert((x >> 30u64) & 0x1ff == (va >> 30u64) & 0x1ff) by (bit_vector)
                requires
                    x >> 12u64 == va >> 12u64,
            ;
        } else {
            assert((x >> 39u64) & 0x1ff == (va >> 39u64) & 0x1ff) by (bit_vector)
                requires
                    x >> 12u64 == va >> 12u64,
            ;
        }
    }
}

/// After `map`, every address of the mapped page translates through the
/// new entry.
pub proof fn lemma_map_then_walk(before: Table, after: Table, va: u64, pte: Pte, x: u64)
    requires
        mapped(before, after, 3, va, pte),
        x / 4096 == va / 4096,
    ensures
        lookup_in(after, 3, x) == Some(pte),
{
    lemma_same_page(x, va);
}

/// `unmap` of a page that `map` put where nothing was mapped gives back
/// what the table mapped before.
pub proof fn lemma_unmap_undoes_map(t0: Table, t1: Table, t2: Table, va: u64, pte: Pte)
    requires
        lookup_in(t0, 3, va) is None,
        mapped(t0, t1, 3, va, pte),
        unmapped(t1, t2, 3, va),
    ensures
        same_map(t0, t2, 3),
{
    assert forall|x: u64| #[trigger] lookup_in(t2, 3, x) == lookup_in(t0, 3, x) by {
        assert(lookup_in(t1, 3, x) == if same_path(3, x, va) { Some(pte) } else { lookup_in(t0, 3, x) });
        if same_path(3, x, va) {
            lemma_lookup_path(t0, 3, x, va);
        }
    }
}

impl Table {
    /// A table with every entry empty.
    pub fn new() -> (r: Self)
        ensures
            r.entries@ == Seq::new(512, |i: int| None::<Node>),
    {
        let mut entries: Vec<Option<Node>> = Vec::new();
        let mut i: usize = 0;
        while i < 512
            invariant
                i <= 512,
                entries@.len() == i,
                forall|k: int| 0 <= k < i ==> entries@[k] is None,
            decreases 512 - i,
        {
            entries.push(None);
            i = i + 1;
        }
        assert(entries@ =~= Seq::new(512, |i: int| None::<Node>));
        Table { entries }
    }
}

/// An empty table of any level is well formed and maps nothing.
proof fn lemma_empty(t: Table, level: nat)
    requires
        t.entries@ == Seq::new(512, |i: int| None::<Node>),
    ensures
        table_wf(t, level),
        forall|x: u64| #[trigger] lookup_in(t, level, x) is None,
{
    assert forall|x: u64| #[trigger] lookup_in(t, level, x) is None by {
        lemma_index_bound(level, x);
    }
}

/// The index of the entry that `va` picks at `level`.
fn index_of(level: u64, va: u64) -> (r: usize)
    requires
        level <= 3,
    ensures
        r == index_at(level as nat, va),
        r < 512,
{
    proof {
        lemma_index_bound(level as nat, va);
    }
    ((va >> (12 + 9 * level)) & 0x1ff) as usize
}

/// The page that table `t` of level `level` maps at `va`;
/// [`PageTableMappingError::NotExist`] when there is none.
fn walk_in(t: &Table, level: u64, va: u64) -> (r: Result<Pte, PageTableMappingError>)
    requires
        level <= 3,
        table_wf(*t, level as nat),
    ensures
        r == match lookup_in(*t, level as nat, va) {
            Some(p) => Ok::<Pte, PageTableMappingError>(p),
            None => Err(PageTableMappingError::NotExist),
        },
    decreases level,
{
    let i = index_of(level, va);
    match &t.entries[i] {
        None => Err(PageTableMappingError::NotExist),
        Some(Node::Page(p)) => if level == 0 {
            Ok(*p)
        } else {
            Err(PageTableMappingError::NotExist)
        },
        Some(Node::Table(sub)) => if level > 0 {
            assert(table_wf(**sub, (level - 1) as nat));
            walk_in(sub, level - 1, va)
        } else {
            Err(PageTableMappingError::NotExist)
        },
    }
}

/// Maps `pte` at `va` below table `t` of level `level`;
/// [`PageTableMappingError::Duplicated`], with nothing changed, when a page
/// is mapped there already.
fn map_in(t: &mut Table, level: u64, va: u64, pte: Pte) -> (r: Result<(), PageTableMappingError>)
    requires
        level <= 3,
        table_wf(*old(t), level as nat),
    ensures
        table_wf(*final(t), level as nat),
        lookup_in(*old(t), level as nat, va) is Some ==> r == Err::<(), PageTableMappingError>(
            PageTableMappingError::Duplicated,
        ) && same_map(*old(t), *final(t), level as nat),
        lookup_in(*old(t), level as nat, va) is None ==> r == Ok::<(), PageTableMappingError>(())
            && mapped(*old(t), *final(t), level as nat, va, pte),
    decreases level,
{
    let i = index_of(level, va);
    let ghost lv = level as nat;
    let ghost before = *t;
    if level == 0 {
        if t.entries[i].is_some() {
            proof {
                assert(before.entries@[i as int] matches Some(Node::Page(_)));
            }
            return Err(PageTableMappingError::Duplicated);
        }
        t.entries.set(i, Some(Node::Page(pte)));
        proof {
            let after = *t;
            assert forall|k: int| 0 <= k < 512 implies match #[trigger] after.entries@[k] {
                Some(Node::Page(p)) => lv == 0,
                Some(Node::Table(sub)) => lv > 0 && table_wf(*sub, (lv - 1) as nat),
                None => true,
            } by {
                if k != i {
                    assert(after.entries@[k] == before.entries@[k]);
                }
            }
            assert forall|x: u64| #[trigger] lookup_in(after, lv, x) == if same_path(lv, x, va) {
                Some(pte)
            } else {
                lookup_in(before, lv, x)
            } by {
                lemma_index_bound(lv, x);
                if index_at(lv, x) == i {
                    assert(same_path(lv, x, va)) by {
                        assert forall|l: nat| l <= lv implies #[trigger] index_at(l, x) == index_at(l, va) by {}
                    }
                } else {
                    assert(!(index_at(0, x) == index_at(0, va)));
                }
            }
        }
        return Ok(());
    }
    let node = t.entries.remove(i);
    let mut sub: Box<Table> = match node {
        Some(Node::Table(b)) => b,
        _ => {
            let e = Table::new();
            proof {
                lemma_empty(e, (lv - 1) as nat);
            }
            Box::new(e)
        },
    };
    let ghost sub_before = *sub;
    proof {
        assert(table_wf(sub_before, (lv - 1) as nat));
        assert(lookup_in(before, lv, va) == lookup_in(sub_before, (lv - 1) as nat, va));
    }
    let r = map_in(&mut sub, level - 1, va, pte);
    t.entries.insert(i, Some(Node::Table(sub)));
    proof {
        let after = *t;
        assert forall|k: int| 0 <= k < 512 && k != i implies after.entries@[k] == before.entries@[k] by {}
        assert forall|k: int| 0 <= k < 512 implies match #[trigger] after.entries@[k] {
            Some(Node::Page(p)) => lv == 0,
            Some(Node::Table(sub)) => lv > 0 && table_wf(*sub, (lv - 1) as nat),
            None => true,
        } by {
            if k != i {
                assert(after.entries@[k] == before.entries@[k]);
            }
        }
        if r is Err {
            if before.entries@[i as int] is None {
                assert(lookup_in(sub_before, (lv - 1) as nat, va) is None);
            }
            assert forall|x: u64| #[trigger] lookup_in(after, lv, x) == lookup_in(before, lv, x) by {
                lemma_index_bound(lv, x);
                if index_at(lv, x) == i {
                    assert(lookup_in(after, lv, x) == lookup_in(*sub, (lv - 1) as nat, x));
                    assert(lookup_in(before, lv, x) == lookup_in(sub_before, (lv - 1) as nat, x));
                } else {
                    assert(after.entries@[index_at(lv, x)] == before.entries@[index_at(lv, x)]);
                }
            }
        } else {
            assert forall|x: u64| #[trigger] lookup_in(after, lv, x) == if same_path(lv, x, va) {
                Some(pte)
            } else {
                lookup_in(before, lv, x)
            } by {
                lemma_index_bound(lv, x);
                lemma_same_path_step(lv, x, va);
                if index_at(lv, x) == i {
                    assert(lookup_in(after, lv, x) == lookup_in(*sub, (lv - 1) as nat, x));
                    assert(lookup_in(before, lv, x) == lookup_in(sub_before, (lv - 1) as nat, x));
                } else {
                    assert(after.entries@[index_at(lv, x)] == before.entries@[index_at(lv, x)]);
                }
            }
        }
    }
    r
}

/// Unmaps the page at `va` below table `t` of level `level` and returns its
/// entry; [`PageTableMappingError::NotExist`], with nothing changed, when
/// none is mapped there.
fn unmap_in(t: &mut Table, level: u64, va: u64) -> (r: Result<Pte, PageTableMappingError>)
    requires
        level <= 3,
        table_wf(*old(t), level as nat),
    ensures
        table_wf(*final(t), level as nat),
        match lookup_in(*old(t), level as nat, va) {
            None => r == Err::<Pte, PageTableMappingError>(PageTableMappingError::NotExist) && same_map(
                *old(t),
                *final(t),
                level as nat,
            ),
            Some(p) => r == Ok::<Pte, PageTableMappingError>(p) && unmapped(*old(t), *final(t), level as nat, va),
        },
    decreases level,
{
    let i = index_of(level, va);
    let ghost lv = level as nat;
    let ghost before = *t;
    if level == 0 {
        let p = match &t.entries[i] {
            Some(Node::Page(p)) => *p,
            _ => return Err(PageTableMappingError::NotExist),
        };
        t.entries.set(i, None);
        proof {
            let after = *t;
            assert forall|k: int| 0 <= k < 512 implies match #[trigger] after.entries@[k] {
                Some(Node::Page(p)) => lv == 0,
                Some(Node::Table(sub)) => lv > 0 && table_wf(*sub, (lv - 1) as nat),
                None => true,
            } by {
                if k != i {
                    assert(after.entries@[k] == before.entries@[k]);
                }
            }
            assert forall|x: u64| #[trigger] lookup_in(after, lv, x) == if same_path(lv, x, va) {
                None
            } else {
                lookup_in(before, lv, x)
            } by {
                lemma_index_bound(lv, x);
                if index_at(lv, x) == i {
                    assert(same_path(lv, x, va)) by {
                        assert forall|l: nat| l <= lv implies #[trigger] index_at(l, x) == index_at(l, va) by {}
                    }
                } else {
                    assert(!(index_at(0, x) == index_at(0, va)));
                }
            }
        }
        return Ok(p);
    }
    match &t.entries[i] {
        Some(Node::Table(_)) => {},
        _ => return Err(PageTableMappingError::NotExist),
    }
    let node = t.entries.remove(i);
    let mut sub: Box<Table> = match node {
        Some(Node::Table(b)) => b,
        _ => {
            proof {
                assert(false);
            }
            Box::new(Table::new())
        },
    };
    let ghost sub_before = *sub;
    proof {
        assert(table_wf(sub_before, (lv - 1) as nat));
        assert(lookup_in(before, lv, va) == lookup_in(sub_before, (lv - 1) as nat, va));
    }
    let r = unmap_in(&mut sub, level - 1, va);
    t.entries.insert(i, Some(Node::Table(sub)));
    proof {
        let after = *t;
        assert forall|k: int| 0 <= k < 512 && k != i implies after.entries@[k] == before.entries@[k] by {}
        assert forall|k: int| 0 <= k < 512 implies match #[trigger] after.entries@[k] {
            Some(Node::Page(p)) => lv == 0,
            Some(Node::Table(sub)) => lv > 0 && table_wf(*sub, (lv - 1) as nat),
            None => true,
        } by {
            if k != i {
                assert(after.entries@[k] == before.entries@[k]);
            }
        }
        assert forall|x: u64| #[trigger] lookup_in(after, lv, x) == if r is Ok && same_path(lv, x, va) {
            None
        } else {
            lookup_in(before, lv, x)
        } by {
            lemma_index_bound(lv, x);
            lemma_same_path_step(lv, x, va);
            if index_at(lv, x) == i {
                assert(lookup_in(after, lv, x) == lookup_in(*sub, (lv - 1) as nat, x));
                assert(lookup_in(before, lv, x) == lookup_in(sub_before, (lv - 1) as nat, x));
            } else {
                assert(after.entries@[index_at(lv, x)] == before.entries@[index_at(lv, x)]);
            }
        }
    }
    r
}

/// An x86-64 page table: its top table (PML4).
pub struct PageTable {
    pub root: Table,
}

impl PageTable {
    /// Whether the tables are well formed.
    pub open spec fn wf(&self) -> bool {
        table_wf(self.root, 3)
    }

    /// The page mapped at `x`, if any.
    pub open spec fn lookup(&self, x: u64) -> Option<Pte> {
        lookup_in(self.root, 3, x)
    }

    /// A page table that maps nothing.
    pub fn new() -> (r: Self)
        ensures
            r.wf(),
            forall|x: u64| #[trigger] r.lookup(x) is None,
    {
        let root = Table::new();
        proof {
            lemma_empty(root, 3);
        }
        PageTable { root }
    }

    /// Maps the physical page at `pa` at address `va` with rights `perm`
    /// (the entry's flags are [`pte_flags`] of them). The errors, in this
    /// order, with nothing changed: [`PageTableMappingError::Unaligned`]
    /// when `va` is not on a page boundary,
    /// [`PageTableMappingError::InvalidPermission`] when `perm` does not
    /// allow reading, and [`PageTableMappingError::Duplicated`] when a page
    /// is mapped at `va` already.
    pub fn map(&mut self, va: u64, pa: u64, perm: Permission) -> (r: Result<(), PageTableMappingError>)
        requires
            old(self).wf(),
        ensures
            final(self).wf(),
            r is Err ==> same_map(old(self).root, final(self).root, 3),
            va % 4096 != 0 ==> r == Err::<(), PageTableMappingError>(PageTableMappingError::Unaligned),
            va % 4096 == 0 && !perm.read ==> r == Err::<(), PageTableMappingError>(
                PageTableMappingError::InvalidPermission,
            ),
            va % 4096 == 0 && perm.read && old(self).lookup(va) is Some ==> r == Err::<
                (),
                PageTableMappingError,
            >(PageTableMappingError::Duplicated),
            va % 4096 == 0 && perm.read && old(self).lookup(va) is None ==> r == Ok::<
                (),
                PageTableMappingError,
            >(()) && mapped(old(self).root, final(self).root, 3, va, Pte { pa, flags: pte_flags(perm) }),
    {
        if va % 4096 != 0 {
            return Err(PageTableMappingError::Unaligned);
        }
        if !perm.read {
            return Err(PageTableMappingError::InvalidPermission);
        }
        let flags = compute_flags(perm);
        map_in(&mut self.root, 3, va, Pte { pa, flags })
    }

    /// Unmaps the page at `va` and returns its physical address. The
    /// errors, with nothing changed: [`PageTableMappingError::Unaligned`]
    /// when `va` is not on a page boundary,
    /// [`PageTableMappingError::NotExist`] when no page is mapped there.
    pub fn unmap(&mut self, va: u64) -> (r: Result<u64, PageTableMappingError>)
        requires
            old(self).wf(),
        ensures
            final(self).wf(),
            va % 4096 != 0 ==> r == Err::<u64, PageTableMappingError>(PageTableMappingError::Unaligned)
                && same_map(old(self).root, final(self).root, 3),
            va % 4096 == 0 ==> match old(self).lookup(va) {
                None => r == Err::<u64, PageTableMappingError>(PageTableMappingError::NotExist) && same_map(
                    old(self).root,
                    final(self).root,
                    3,
                ),
                Some(p) => r == Ok::<u64, PageTableMappingError>(p.pa) && unmapped(
                    old(self).root,
                    final(self).root,
                    3,
                    va,
                ),
            },
    {
        if va % 4096 != 0 {
            return Err(PageTableMappingError::Unaligned);
        }
        match unmap_in(&mut self.root, 3, va) {
            Ok(p) => Ok(p.pa),
            Err(e) => Err(e),
        }
    }

    /// The entry of the page mapped at `va`;
    /// [`PageTableMappingError::NotExist`] when there is none.
    pub fn walk(&self, va: u64) -> (r: Result<Pte, PageTableMappingError>)
        requires
            self.wf(),
        ensures
            r == match self.lookup(va) {
                Some(p) => Ok::<Pte, PageTableMappingError>(p),
                None => Err(PageTableMappingError::NotExist),
            },
    {
        walk_in(&self.root, 3, va)
    }
}

/// The flags of a last-level entry for rights `perm` (see [`pte_flags`]).
pub fn compute_flags(perm: Permission) -> (r: u64)
    ensures
        r == pte_flags(perm),
{
    if !(perm.read || perm.write || perm.executable) {
        return 0;
    }
    PTE_P | (if perm.write {
        PTE_RW
    } else {
        0
    }) | (if perm.user {
        PTE_US
    } else {
        0
    }) | (if perm.executable {
        0
    } else {
        PTE_XD
    })
}

} // verus!
