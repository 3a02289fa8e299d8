//! The page cache: file blocks kept in memory.
//!
//! The cache holds up to [`CACHE_SLOTS`] blocks, each in a [`Slot`] keyed by
//! the inode number and the block number. Reads are served from the cache
//! when they can; a block read from the file system is kept there. Writes
//! go to the cache and mark the slot dirty; a dirty slot is written back on
//! request or when it leaves the cache. When the cache is full, a new block
//! takes the place of the least recently used one. Readahead loads the
//! blocks that follow a block read, in free slots only. Unlinking a file
//! drops its slots without writing them back.
use crate::error::KernelError;
use crate::project5::ffs::fs::FastFileSystemInner;
use crate::project5::ffs::fs_objects::{in_data_region, read_outcome, unchanged, write_outcome, RegularFile};
use crate::project5::ffs::inode::{block_code, Inode};
use crate::project5::ffs::journal::Disk;
use crate::project5::ffs::types::FileBlockNumber;
use crate::project5::lru::{first_of, lemma_put_get, put_evicts, put_recency, put_view, touch_recency, LRUCache};
use vstd::prelude::*;

verus! {

/// The number of slots of the page cache: 2 MiB of 4 KiB blocks.
pub const CACHE_SLOTS: usize = 512;

/// A block of a file held in memory.
pub struct Slot {
    /// The file the block belongs to.
    pub file: RegularFile,
    /// The block's number in the file.
    pub fba: FileBlockNumber,
    /// The block's bytes.
    pub page: [u8; 4096],
    /// The size in bytes that the file must have at least once the slot is
    /// written back; `None` when the slot is clean.
    pub writeback_size: Option<usize>,
}

/// Why a write-back of a dirty slot of `file` does not start on `f`:
/// [`KernelError::NoSuchEntry`] when the file is not in the inode table,
/// [`KernelError::NoSpace`] when a counter of the file system is at its
/// limit (the journal's transaction id, or the count of blocks in use
/// within the twelve blocks a write may take), and
/// [`KernelError::FilesystemCorrupted`] when block 0 is not marked in use.
pub open spec fn writeback_refused(f: &FastFileSystemInner, file: RegularFile, r: Result<(), KernelError>) -> bool {
    if !file.wf(f) {
        r == Err::<(), KernelError>(KernelError::NoSuchEntry)
    } else if (f.journal matches Some(jn) && jn.sb.tx_id == u64::MAX) || f.sb.block_count_inused + 12 >= u64::MAX {
        r == Err::<(), KernelError>(KernelError::NoSpace)
    } else {
        r matches Err(KernelError::FilesystemCorrupted(_))
    }
}

/// Whether a write-back of a dirty slot of `file` can start on `f`.
pub open spec fn writeback_allowed(f: &FastFileSystemInner, file: RegularFile) -> bool {
    &&& file.wf(f)
    &&& f.journal matches Some(jn) ==> jn.sb.tx_id < u64::MAX
    &&& f.sb.block_count_inused + 12 < u64::MAX
    &&& f.block_bitmap@.len() > 0 ==> f.block_bitmap@[0]@[0]
}

/// What writing slot `s0` back does: the slot `s1`, the file system `f1`
/// and the disk `d1` after, from `f0` and `d0`, and the result `r`. A clean
/// slot is left as it is. A dirty one is written to its block with
/// [`RegularFile::write`], growing the file to the slot's size, and is
/// clean after a write that succeeds.
pub open spec fn writeback_outcome(
    s0: Slot,
    s1: Slot,
    f0: &FastFileSystemInner,
    f1: &FastFileSystemInner,
    d0: Seq<Seq<u8>>,
    d1: Seq<Seq<u8>>,
    r: Result<(), KernelError>,
) -> bool {
    match s0.writeback_size {
        None => r is Ok && s1 == s0 && unchanged(f0, f1) && d1 == d0,
        Some(size) => if !writeback_allowed(f0, s0.file) {
            writeback_refused(f0, s0.file, r) && s1 == s0 && unchanged(f0, f1) && d1 == d0
        } else {
            &&& write_outcome(f0, f1, d0, d1, s0.file.ino@ as int, s0.fba.0 as int, s0.page@, size, r)
            &&& s1 == (Slot { writeback_size: if r is Ok { None } else { Some(size) }, ..s0 })
        },
    }
}

impl Slot {
    /// A clean slot for block `fba` of `file`, holding `page`.
    pub fn new(file: RegularFile, fba: FileBlockNumber, page: [u8; 4096]) -> (r: Slot)
        ensures
            r == (Slot { file, fba, page, writeback_size: None }),
    {
        Slot { file, fba, page, writeback_size: None }
    }

    /// Copies the slot's bytes into `buf`.
    pub fn read_page(&self, buf: &mut [u8; 4096])
        ensures
            final(buf)@ == self.page@,
    {
        *buf = self.page;
    }

    /// Replaces the slot's bytes with `buf` and marks it dirty, so that the
    /// file has at least `min_size` bytes once it is written back.
    pub fn write_page(&mut self, buf: &[u8; 4096], min_size: usize)
        ensures
            *final(self) == (Slot {
                page: *buf,
                writeback_size: Some(dirty_size(old(self).writeback_size, min_size)),
                ..*old(self)
            }),
    {
        self.page = *buf;
        self.writeback_size = match self.writeback_size {
            Some(s) => if s > min_size {
                Some(s)
            } else {
                Some(min_size)
            },
            None => Some(min_size),
        };
    }

    /// Writes the slot back when it is dirty: see [`writeback_outcome`].
    pub fn writeback(&mut self, ffs: &mut FastFileSystemInner, disk: &mut Disk) -> (r: Result<(), KernelError>)
        requires
            old(ffs).wf(),
        ensures
            writeback_outcome(*old(self), *final(self), old(ffs), final(ffs), old(disk)@, final(disk)@, r),
            final(ffs).wf(),
    {
        let size = match self.writeback_size {
            None => {
                return Ok(());
            },
            Some(size) => size,
        };
        if !self.file.is_open(ffs) {
            return Err(KernelError::NoSuchEntry);
        }
        let exhausted = match &ffs.journal {
            Some(jn) => jn.sb.tx_id == u64::MAX,
            None => false,
        };
        if exhausted || ffs.sb.block_count_inused >= u64::MAX - 12 {
            return Err(KernelError::NoSpace);
        }
        if ffs.block_bitmap.len() > 0 && !ffs.block_bitmap[0].is_allocated(0) {
            return Err(KernelError::FilesystemCorrupted("block 0 is free"));
        }
        let r = self.file.write(ffs, disk, self.fba, &self.page, size);
        if r.is_ok() {
            self.writeback_size = None;
        }
        r
    }
}

/// The write-back size of a slot of size `ws` written with `min_size`.
pub open spec fn dirty_size(ws: Option<usize>, min_size: usize) -> usize {
    match ws {
        Some(s) => if s > min_size {
            s
        } else {
            min_size
        },
        None => min_size,
    }
}

/// The key of block `fba` of `file` in the cache.
pub open spec fn key_of(file: RegularFile, fba: FileBlockNumber) -> (u32, usize) {
    (file.ino@, fba.0)
}

/// The state of the page cache: the slots, by file and block, in an LRU
/// cache of [`CACHE_SLOTS`] entries.
pub struct PageCacheState {
    pub slots: LRUCache<(u32, usize), Slot, 512>,
}

/// The slot that putting a new slot under `id` takes the place of: the one
/// under `id`, else the least recently used one when the cache is full.
pub open spec fn displaced(c: &PageCacheState, id: (u32, usize)) -> Option<(u32, usize)> {
    if c.slots@.contains_key(id) {
        Some(id)
    } else if c.slots.recency().len() >= CACHE_SLOTS {
        first_of(c.slots.recency())
    } else {
        None
    }
}

/// What putting `slot` under `id` does, from cache `c0`, file system `f0`
/// and disk `d0` to `c1`, `f1` and `d1`: the slot goes in as the most
/// recently used one, and the slot it takes the place of, if any, is
/// written back.
pub open spec fn insert_outcome(
    c0: &PageCacheState,
    c1: &PageCacheState,
    f0: &FastFileSystemInner,
    f1: &FastFileSystemInner,
    d0: Seq<Seq<u8>>,
    d1: Seq<Seq<u8>>,
    id: (u32, usize),
    slot: Slot,
) -> bool {
    &&& c1.slots@ == put_view(c0.slots@, c0.slots.recency(), CACHE_SLOTS, id, slot)
    &&& c1.slots.recency() == put_recency(c0.slots.recency(), CACHE_SLOTS, id)
    &&& displaced(c0, id) is None ==> unchanged(f0, f1) && d1 == d0
    &&& displaced(c0, id) is Some ==> exists|s1: Slot, r: Result<(), KernelError>|
        writeback_outcome(c0.slots@[displaced(c0, id)->Some_0], s1, f0, f1, d0, d1, r)
}

impl PageCacheState {
    /// Whether each slot sits under the key of its file and block.
    pub open spec fn wf(&self) -> bool {
        &&& self.slots.wf()
        &&& forall|k: (u32, usize)| #[trigger]
            self.slots@.contains_key(k) ==> key_of(self.slots@[k].file, self.slots@[k].fba) == k
    }

    /// An empty page cache.
    pub fn new() -> (r: PageCacheState)
        ensures
            r.wf(),
            r.slots@ == Map::<(u32, usize), Slot>::empty(),
            r.slots.recency() == Seq::<(u32, usize)>::empty(),
    {
        PageCacheState { slots: LRUCache::new() }
    }

    /// Whether block `fba` of `file` is in the cache; the recency is left
    /// as it is.
    pub fn cached(&self, file: &RegularFile, fba: FileBlockNumber) -> (r: bool)
        requires
            self.wf(),
        ensures
            r == self.slots@.contains_key(key_of(*file, fba)),
    {
        self.slots.contains_key(&(file.ino.into_u32(), fba.0))
    }

    /// Puts `slot` under `id` as the most recently used slot; the slot it
    /// takes the place of, if any, is written back first: see
    /// [`insert_outcome`].
    pub fn insert(&mut self, ffs: &mut FastFileSystemInner, disk: &mut Disk, id: (u32, usize), slot: Slot)
        requires
            old(self).wf(),
            old(ffs).wf(),
            key_of(slot.file, slot.fba) == id,
        ensures
            final(self).wf(),
            final(ffs).wf(),
            insert_outcome(old(self), final(self), old(ffs), final(ffs), old(disk)@, final(disk)@, id, slot),
    {
        let n0 = self.slots.len();
        if self.slots.contains_key(&id) {
            self.replace_slot(ffs, disk, id, slot);
        } else if n0 >= CACHE_SLOTS {
            self.evict_then_put(ffs, disk, id, slot);
        } else {
            let ghost m = self.slots@;
            self.slots.put(id, slot);
            proof {
                assert(displaced(old(self), id) is None);
                assert(unchanged(old(ffs), ffs));
                self.lemma_put_keys(m, id, slot);
            }
        }
    }

    /// After putting `slot` under `id` into slots `m` whose keys matched
    /// their slots, they still do.
    proof fn lemma_put_keys(&self, m: Map<(u32, usize), Slot>, id: (u32, usize), slot: Slot)
        requires
            self.slots.wf(),
            forall|k: (u32, usize)| #[trigger] m.contains_key(k) ==> key_of(m[k].file, m[k].fba) == k,
            key_of(slot.file, slot.fba) == id,
            forall|k: (u32, usize)| #[trigger]
                self.slots@.contains_key(k) ==> k == id || (m.contains_key(k) && self.slots@[k] == m[k]),
            self.slots@.contains_key(id) ==> self.slots@[id] == slot,
        ensures
            self.wf(),
    {
        assert forall|k: (u32, usize)| #[trigger] self.slots@.contains_key(k) implies key_of(
            self.slots@[k].file,
            self.slots@[k].fba,
        ) == k by {
            if k != id {
                assert(m.contains_key(k));
            }
        }
    }

    /// [`PageCacheState::insert`] where `id` is in the cache.
    fn replace_slot(&mut self, ffs: &mut FastFileSystemInner, disk: &mut Disk, id: (u32, usize), slot: Slot)
        requires
            old(self).wf(),
            old(ffs).wf(),
            key_of(slot.file, slot.fba) == id,
            old(self).slots@.contains_key(id),
        ensures
            final(self).wf(),
            final(ffs).wf(),
            insert_outcome(old(self), final(self), old(ffs), final(ffs), old(disk)@, final(disk)@, id, slot),
    {
        let ghost order = self.slots.recency();
        let ghost m = self.slots@;
        let n0 = self.slots.len();
        proof {
            self.slots.lemma_capacity();
        }
        let mut s = self.slots.remove(&id).unwrap();
        proof {
            self.slots.lemma_capacity();
            assert(order.contains(id));
            assert(0 <= order.index_of(id) < order.len());
            assert(self.slots.recency().len() == order.len() - 1);
            assert(!self.slots@.contains_key(id));
            assert(!self.slots.recency().contains(id));
        }
        let r = s.writeback(ffs, disk);
        let ghost order1 = self.slots.recency();
        let ghost m1 = self.slots@;
        self.slots.put(id, slot);
        proof {
            assert(!put_evicts(order1, CACHE_SLOTS, id));
            assert(m1 == m.remove(id));
            assert(self.slots@ =~= put_view(m, order, CACHE_SLOTS, id, slot));
            assert(self.slots.recency() == put_recency(order, CACHE_SLOTS, id));
            assert(displaced(old(self), id) == Some(id));
            assert(writeback_outcome(old(self).slots@[id], s, old(ffs), ffs, old(disk)@, disk@, r));
            assert(writeback_outcome(
                old(self).slots@[displaced(old(self), id)->Some_0],
                s,
                old(ffs),
                ffs,
                old(disk)@,
                disk@,
                r,
            ));
            self.lemma_put_keys(m, id, slot);

        }
    }

    /// [`PageCacheState::insert`] where `id` is not in the full cache.
    fn evict_then_put(&mut self, ffs: &mut FastFileSystemInner, disk: &mut Disk, id: (u32, usize), slot: Slot)
        requires
            old(self).wf(),
            old(ffs).wf(),
            key_of(slot.file, slot.fba) == id,
            !old(self).slots@.contains_key(id),
            old(self).slots.recency().len() >= CACHE_SLOTS,
        ensures
            final(self).wf(),
            final(ffs).wf(),
            insert_outcome(old(self), final(self), old(ffs), final(ffs), old(disk)@, final(disk)@, id, slot),
    {
        let ghost order = self.slots.recency();
        let ghost m = self.slots@;
        let n0 = self.slots.len();
        proof {
            self.slots.lemma_capacity();
        }
        let e = self.slots.least_recent().unwrap();
        proof {
            assert(order.contains(order[0]));
            assert(m.contains_key(e));
        }
        let mut s = self.slots.remove(&e).unwrap();
        proof {
            self.slots.lemma_capacity();
            assert(0 <= order.index_of(e) < order.len());
            assert(order[order.index_of(e)] == order[0]);
            assert(order.index_of(e) == 0);
            assert(self.slots.recency().len() == order.len() - 1);
            assert(!self.slots@.contains_key(id));
            assert(!self.slots.recency().contains(id));
        }
        let r = s.writeback(ffs, disk);
        let ghost order1 = self.slots.recency();
        let ghost m1 = self.slots@;
        self.slots.put(id, slot);
        proof {
            assert(order1 == order.remove(0));
            assert(!put_evicts(order1, CACHE_SLOTS, id));
            assert(put_evicts(order, CACHE_SLOTS, id));
            assert(self.slots@ =~= put_view(m, order, CACHE_SLOTS, id, slot));
            assert(self.slots.recency() == put_recency(order, CACHE_SLOTS, id));
            assert(displaced(old(self), id) == Some(order[0]));
            assert(writeback_outcome(old(self).slots@[order[0]], s, old(ffs), ffs, old(disk)@, disk@, r));
            assert(writeback_outcome(
                old(self).slots@[displaced(old(self), id)->Some_0],
                s,
                old(ffs),
                ffs,
                old(disk)@,
                disk@,
                r,
            ));
            self.lemma_put_keys(m, id, slot);
        }
    }
}

/// What reading block `fba` of `file` through the cache does, from cache
/// `c0`, file system `f0` and disk `d0` to `c1`, `f1` and `d1`, with a
/// buffer holding `b0` before and `b1` after, and the result `r`. A cached
/// block is copied from its slot, which becomes the most recently used.
/// Another is read from the file system (see [`read_outcome`]) and, when it
/// is mapped, put in the cache as a clean slot (see [`insert_outcome`]).
pub open spec fn read_served(
    c0: &PageCacheState,
    c1: &PageCacheState,
    f0: &FastFileSystemInner,
    f1: &FastFileSystemInner,
    d0: Seq<Seq<u8>>,
    d1: Seq<Seq<u8>>,
    file: RegularFile,
    fba: FileBlockNumber,
    b0: Seq<u8>,
    b1: [u8; 4096],
    r: Result<bool, KernelError>,
) -> bool {
    let k = key_of(file, fba);
    if c0.slots@.contains_key(k) {
        &&& r == Ok::<bool, KernelError>(true)
        &&& b1@ == c0.slots@[k].page@
        &&& c1.slots@ == c0.slots@
        &&& c1.slots.recency() == touch_recency(c0.slots.recency(), k)
        &&& unchanged(f0, f1)
        &&& d1 == d0
    } else {
        &&& read_outcome(file.inode(f0), d0, fba.0 as int, b0, b1@, r)
        &&& if r == Ok::<bool, KernelError>(true) {
            insert_outcome(c0, c1, f0, f1, d0, d1, k, Slot { file, fba, page: b1, writeback_size: None })
        } else {
            &&& c1.slots@ == c0.slots@
            &&& c1.slots.recency() == c0.slots.recency()
            &&& unchanged(f0, f1)
            &&& d1 == d0
        }
    }
}

/// What writing `buf` to block `fba` of `file` through the cache does,
/// from cache `c0`, file system `f0` and disk `d0` to `c1`, `f1` and `d1`:
/// the block's slot takes the bytes, becomes the most recently used and is
/// marked dirty, so that the file has at least `min_size` bytes once it is
/// written back; an uncached block gets a new slot (see
/// [`insert_outcome`]). Nothing is written to the file system but what a
/// displaced slot writes back.
pub open spec fn write_served(
    c0: &PageCacheState,
    c1: &PageCacheState,
    f0: &FastFileSystemInner,
    f1: &FastFileSystemInner,
    d0: Seq<Seq<u8>>,
    d1: Seq<Seq<u8>>,
    file: RegularFile,
    fba: FileBlockNumber,
    buf: [u8; 4096],
    min_size: usize,
) -> bool {
    let k = key_of(file, fba);
    if c0.slots@.contains_key(k) {
        &&& c1.slots@ == c0.slots@.insert(
            k,
            Slot { page: buf, writeback_size: Some(dirty_size(c0.slots@[k].writeback_size, min_size)), ..c0.slots@[k] },
        )
        &&& c1.slots.recency() == touch_recency(c0.slots.recency(), k)
        &&& unchanged(f0, f1)
        &&& d1 == d0
    } else {
        insert_outcome(c0, c1, f0, f1, d0, d1, k, Slot { file, fba, page: buf, writeback_size: Some(min_size) })
    }
}

/// A read through the cache of a block just written through it gives back
/// the bytes written, from the cache.
pub proof fn lemma_read_after_write(
    c0: &PageCacheState,
    c1: &PageCacheState,
    c2: &PageCacheState,
    f0: &FastFileSystemInner,
    f1: &FastFileSystemInner,
    f2: &FastFileSystemInner,
    d0: Seq<Seq<u8>>,
    d1: Seq<Seq<u8>>,
    d2: Seq<Seq<u8>>,
    file: RegularFile,
    fba: FileBlockNumber,
    buf: [u8; 4096],
    min_size: usize,
    b0: Seq<u8>,
    b1: [u8; 4096],
    r: Result<bool, KernelError>,
)
    requires
        write_served(c0, c1, f0, f1, d0, d1, file, fba, buf, min_size),
        read_served(c1, c2, f1, f2, d1, d2, file, fba, b0, b1, r),
    ensures
        r == Ok::<bool, KernelError>(true),
        b1@ == buf@,
        c2.slots@ == c1.slots@,
        d2 == d1,
{
    let k = key_of(file, fba);
    if !c0.slots@.contains_key(k) {
        lemma_put_get(
            c0.slots@,
            c0.slots.recency(),
            CACHE_SLOTS,
            k,
            Slot { file, fba, page: buf, writeback_size: Some(min_size) },
        );
    }
    assert(c1.slots@.contains_key(k));
}

/// Whether slot `s1` is slot `s0` after a write-back of the slots of the
/// file of inode `ino`: a slot of another file is left as it is; one of
/// that file keeps its block and bytes, and is either clean or as dirty as
/// before.
pub open spec fn settled(s0: Slot, s1: Slot, k: (u32, usize), ino: u32) -> bool {
    if k.0 != ino {
        s1 == s0
    } else {
        &&& s1.file == s0.file
        &&& s1.fba == s0.fba
        &&& s1.page == s0.page
        &&& (s1.writeback_size == s0.writeback_size || s1.writeback_size is None)
    }
}

/// A page of zeros.
pub open spec fn zero_page() -> Seq<u8> {
    Seq::new(4096, |i: int| 0u8)
}

/// Whether block `b` of the file of inode `i` is mapped to a block of disk
/// `d`.
pub open spec fn loadable(i: Inode, d: Seq<Seq<u8>>, b: int) -> bool {
    block_code(i, d, b) matches Ok(w) && w != 0 && w < d.len()
}

/// The keys that readahead loads, from its `j`-th block on, after block
/// `fba` of the file of inode number `ino` and inode `i` on disk `d`, into
/// a cache holding the keys `dom`, `n` of them: each of the blocks
/// `fba + j ..= fba + 16` that is not cached and is mapped, while the cache
/// has a free slot.
pub open spec fn ahead(
    dom: Set<(u32, usize)>,
    n: int,
    ino: u32,
    i: Inode,
    d: Seq<Seq<u8>>,
    fba: int,
    j: int,
) -> Set<(u32, usize)>
    decreases 17 - j,
{
    if j > 16 || fba + j > usize::MAX {
        Set::empty()
    } else {
        let key = (ino, (fba + j) as usize);
        if !dom.contains(key) && n < CACHE_SLOTS && loadable(i, d, fba + j) {
            ahead(dom.insert(key), n + 1, ino, i, d, fba, j + 1).insert(key)
        } else {
            ahead(dom, n, ino, i, d, fba, j + 1)
        }
    }
}

/// Whether slot `s` holds, clean, block `k.1` of `file` as read from disk
/// `d` through inode `i`.
pub open spec fn loaded_slot(s: Slot, k: (u32, usize), file: RegularFile, i: Inode, d: Seq<Seq<u8>>) -> bool {
    &&& s.file == file
    &&& s.fba == FileBlockNumber(k.1)
    &&& s.writeback_size is None
    &&& s.page@ == d[block_code(i, d, k.1 as int)->Ok_0 as int]
}

/// A write-back leaves the slot's file, block and bytes, and leaves it
/// either clean or as it was.
proof fn lemma_writeback_settles(
    s0: Slot,
    s1: Slot,
    f0: &FastFileSystemInner,
    f1: &FastFileSystemInner,
    d0: Seq<Seq<u8>>,
    d1: Seq<Seq<u8>>,
    r: Result<(), KernelError>,
)
    requires
        writeback_outcome(s0, s1, f0, f1, d0, d1, r),
    ensures
        settled(s0, s1, (s0.file.ino@, s0.fba.0), s0.file.ino@),
{
}

impl PageCacheState {
    /// Reads block `fba` of `file` into `buf` through the cache: see
    /// [`read_served`]. `true` when the block was read.
    pub fn do_read(
        &mut self,
        ffs: &mut FastFileSystemInner,
        disk: &mut Disk,
        file: &RegularFile,
        fba: FileBlockNumber,
        buf: &mut [u8; 4096],
    ) -> (r: Result<bool, KernelError>)
        requires
            old(self).wf(),
            file.wf(old(ffs)),
            in_data_region(old(ffs), file.inode(old(ffs)), old(disk)@, fba.0 as int),
        ensures
            final(self).wf(),
            final(ffs).wf(),
            read_served(old(self), final(self), old(ffs), final(ffs), old(disk)@, final(disk)@, *file, fba, old(buf)@, *final(buf), r),
    {
        let k = (file.ino.into_u32(), fba.0);
        let ghost m = self.slots@;
        match self.slots.get(k) {
            Some(s) => {
                *buf = s.page;
                proof {
                    assert(self.slots@ =~= m);
                }
                return Ok(true);
            },
            None => {},
        }
        let r = file.read(ffs, disk, fba, buf);
        match r {
            Ok(true) => {
                self.insert(ffs, disk, k, Slot::new(*file, fba, *buf));
            },
            _ => {},
        }
        r
    }

    /// Writes `buf` to block `fba` of `file` through the cache: the block's
    /// slot takes the bytes and is marked dirty, so that the file has at
    /// least `min_size` bytes once it is written back; an uncached block
    /// gets a new slot (see [`insert_outcome`]). Nothing is written to the
    /// file system but what a displaced slot writes back.
    pub fn do_write(
        &mut self,
        ffs: &mut FastFileSystemInner,
        disk: &mut Disk,
        file: &RegularFile,
        fba: FileBlockNumber,
        buf: &[u8; 4096],
        min_size: usize,
    ) -> (r: Result<(), KernelError>)
        requires
            old(self).wf(),
            old(ffs).wf(),
        ensures
            final(self).wf(),
            final(ffs).wf(),
            r is Ok,
            write_served(old(self), final(self), old(ffs), final(ffs), old(disk)@, final(disk)@, *file, fba, *buf, min_size),
    {
        let k = (file.ino.into_u32(), fba.0);
        let ghost m = self.slots@;
        match self.slots.get(k) {
            Some(s) => {
                s.write_page(buf, min_size);
                proof {
                    assert(self.slots@.dom() =~= m.dom());
                    assert forall|x: (u32, usize)| #[trigger] self.slots@.contains_key(x) implies key_of(
                        self.slots@[x].file,
                        self.slots@[x].fba,
                    ) == x by {
                        if x != k {
                            assert(m.contains_key(x));
                        }
                    }
                }
                return Ok(());
            },
            None => {},
        }
        self.insert(ffs, disk, k, Slot { file: *file, fba, page: *buf, writeback_size: Some(min_size) });
        Ok(())
    }

    /// The page of block `fba` of `file`, read through the cache into a
    /// zeroed buffer (see [`read_served`]): a block that is not mapped
    /// reads as zeros.
    pub fn do_mmap(&mut self, ffs: &mut FastFileSystemInner, disk: &mut Disk, file: &RegularFile, fba: FileBlockNumber) -> (r: Result<
        [u8; 4096],
        KernelError,
    >)
        requires
            old(self).wf(),
            file.wf(old(ffs)),
            in_data_region(old(ffs), file.inode(old(ffs)), old(disk)@, fba.0 as int),
        ensures
            final(self).wf(),
            final(ffs).wf(),
            match r {
                Ok(p) => read_served(old(self), final(self), old(ffs), final(ffs), old(disk)@, final(disk)@, *file, fba, zero_page(), p, Ok(true))
                    || read_served(old(self), final(self), old(ffs), final(ffs), old(disk)@, final(disk)@, *file, fba, zero_page(), p, Ok(false)),
                Err(e) => exists|p: [u8; 4096]| #[trigger]
                    read_served(old(self), final(self), old(ffs), final(ffs), old(disk)@, final(disk)@, *file, fba, zero_page(), p, Err(e)),
            },
    {
        let mut page = [0u8; 4096];
        assert(page@ =~= zero_page());
        let r = self.do_read(ffs, disk, file, fba, &mut page);
        proof {
            assert(read_served(old(self), self, old(ffs), ffs, old(disk)@, disk@, *file, fba, zero_page(), page, r));
        }
        match r {
            Ok(b) => {
                assert(read_served(old(self), self, old(ffs), ffs, old(disk)@, disk@, *file, fba, zero_page(), page, Ok(b)));
                Ok(page)
            },
            Err(e) => Err(e),
        }
    }

    /// Drops every slot of `file` without writing it back: each is marked
    /// clean as it goes.
    pub fn do_unlink(&mut self, file: &RegularFile)
        requires
            old(self).wf(),
        ensures
            final(self).wf(),
            final(self).slots@ == old(self).slots@.restrict(
                old(self).slots@.dom().filter(|k: (u32, usize)| k.0 != file.ino@),
            ),
    {
        let n = file.ino.into_u32();
        let ghost m = self.slots@;
        let other = |k: &(u32, usize), v: Slot| -> (res: (bool, Slot))
            ensures
                res.0 == (k.0 != n),
                res.0 ==> res.1 == v,
            {
                let ino: u32 = k.0;
                if ino != n {
                    (true, v)
                } else {
                    (false, Slot { writeback_size: None, ..v })
                }
            };
        self.slots.retain(other);
        proof {
            assert forall|x: (u32, usize)| #[trigger] self.slots@.contains_key(x) implies self.slots@[x] == m[x] by {}
            assert(self.slots@ =~= m.restrict(m.dom().filter(|k: (u32, usize)| k.0 != file.ino@)));
        }
    }

    /// Writes back every dirty slot of `file`, in recency order; a slot
    /// whose write-back fails stays dirty. The slots and their order are
    /// kept, and each slot is left [`settled`].
    pub fn do_writeback(&mut self, ffs: &mut FastFileSystemInner, disk: &mut Disk, file: &RegularFile) -> (r: Result<
        (),
        KernelError,
    >)
        requires
            old(self).wf(),
            old(ffs).wf(),
        ensures
            final(self).wf(),
            final(ffs).wf(),
            r is Ok,
            final(self).slots@.dom() == old(self).slots@.dom(),
            final(self).slots.recency() == old(self).slots.recency(),
            forall|k: (u32, usize)| #[trigger]
                old(self).slots@.contains_key(k) ==> settled(old(self).slots@[k], final(self).slots@[k], k, file.ino@),
    {
        let n = file.ino.into_u32();
        let keys = self.slots.keys();
        let ghost m = self.slots@;
        let ghost order = self.slots.recency();
        let mut i: usize = 0;
        while i < keys.len()
            invariant
                i <= keys@.len(),
                keys@ == order,
                n == file.ino@,
                self.wf(),
                ffs.wf(),
                self.slots@.dom() == m.dom(),
                self.slots.recency() == order,
                forall|k: (u32, usize)| #[trigger] m.contains_key(k) ==> settled(m[k], self.slots@[k], k, n),
            decreases keys@.len() - i,
        {
            let k = keys[i];
            if k.0 == n {
                let ghost before = self.slots@;
                match self.slots.peek_mut(k) {
                    Some(s) => {
                        let ghost s0 = *s;
                        let ghost f_before = *ffs;
                        let ghost d_before = disk@;
                        let r = s.writeback(ffs, disk);
                        proof {
                            lemma_writeback_settles(s0, *s, &f_before, ffs, d_before, disk@, r);
                        }
                    },
                    None => {},
                }
                proof {
                    assert(self.slots@.dom() =~= m.dom());
                    assert forall|x: (u32, usize)| #[trigger] m.contains_key(x) implies settled(m[x], self.slots@[x], x, n) by {
                        if x == k {
                            assert(before.contains_key(k));
                        }
                    }
                    assert forall|x: (u32, usize)| #[trigger] self.slots@.contains_key(x) implies key_of(
                        self.slots@[x].file,
                        self.slots@[x].fba,
                    ) == x by {
                        assert(m.contains_key(x));
                        assert(before.contains_key(x));
                    }
                }
            }
            i = i + 1;
        }
        Ok(())
    }
}

/// Whether every block of the file of inode `i` on disk `d` that is mapped
/// lies in the data region of `f`.
pub open spec fn file_in_data_region(f: &FastFileSystemInner, i: Inode, d: Seq<Seq<u8>>) -> bool {
    forall|b: int| #[trigger] in_data_region(f, i, d, b)
}

impl PageCacheState {
    /// Loads into free slots the blocks `fba + 1 ..= fba + 16` of `file`
    /// that are mapped and not cached yet, in order, while the cache has a
    /// free slot: the keys [`ahead`] gives. Cached slots are left as they
    /// are, and nothing is evicted or written.
    pub fn readahead(&mut self, ffs: &FastFileSystemInner, disk: &Disk, file: &RegularFile, fba: FileBlockNumber)
        requires
            old(self).wf(),
            file.wf(ffs),
            file_in_data_region(ffs, file.inode(ffs), disk@),
        ensures
            final(self).wf(),
            final(self).slots@.dom() == old(self).slots@.dom().union(
                ahead(
                    old(self).slots@.dom(),
                    old(self).slots.recency().len() as int,
                    file.ino@,
                    file.inode(ffs),
                    disk@,
                    fba.0 as int,
                    1,
                ),
            ),
            forall|k: (u32, usize)| #[trigger]
                old(self).slots@.contains_key(k) ==> final(self).slots@[k] == old(self).slots@[k],
            forall|k: (u32, usize)| #[trigger]
                final(self).slots@.contains_key(k) && !old(self).slots@.contains_key(k) ==> loaded_slot(
                    final(self).slots@[k],
                    k,
                    *file,
                    file.inode(ffs),
                    disk@,
                ),
    {
        let ino = file.ino.into_u32();
        let ghost i = file.inode(ffs);
        let ghost d = disk@;
        let ghost m = self.slots@;
        let ghost total = m.dom().union(ahead(m.dom(), self.slots.recency().len() as int, ino, i, d, fba.0 as int, 1));
        let mut j: usize = 1;
        while j <= 16 && fba.0 <= usize::MAX - j
            invariant
                1 <= j <= 17,
                self.wf(),
                ino == file.ino@,
                file.wf(ffs),
                i == file.inode(ffs),
                d == disk@,
                file_in_data_region(ffs, i, d),
                total == self.slots@.dom().union(
                    ahead(self.slots@.dom(), self.slots.recency().len() as int, ino, i, d, fba.0 as int, j as int),
                ),
                forall|k: (u32, usize)| #[trigger] m.contains_key(k) ==> self.slots@.contains_key(k) && self.slots@[k] == m[k],
                forall|k: (u32, usize)| #[trigger]
                    self.slots@.contains_key(k) && !m.contains_key(k) ==> loaded_slot(self.slots@[k], k, *file, i, d),
            decreases 17 - j,
        {
            let b = FileBlockNumber(fba.0 + j);
            let key = (ino, fba.0 + j);
            let ghost dom = self.slots@.dom();
            let ghost n = self.slots.recency().len() as int;
            let ghost rest = ahead(dom, n, ino, i, d, fba.0 as int, j + 1);
            let len = self.slots.len();
            if !self.slots.contains_key(&key) && len < CACHE_SLOTS {
                let mut page = [0u8; 4096];
                let r = file.read(ffs, disk, b, &mut page);
                match r {
                    Ok(true) => {
                        let ghost order = self.slots.recency();
                        let ghost m0 = self.slots@;
                        proof {
                            self.slots.lemma_capacity();
                            assert(!order.contains(key));
                            assert(order.len() == n);
                        }
                        self.slots.put(key, Slot::new(*file, b, page));
                        proof {
                            assert(loadable(i, d, fba.0 + j));
                            assert(!put_evicts(order, CACHE_SLOTS, key));
                            assert(self.slots@ == m0.insert(key, Slot { file: *file, fba: b, page, writeback_size: None }));
                            assert(self.slots@.dom() =~= dom.insert(key));
                            assert(self.slots.recency().len() == n + 1);
                            assert(key == (ino, (fba.0 + j) as usize));
                            assert(ahead(dom, n, ino, i, d, fba.0 as int, j as int) == ahead(
                                dom.insert(key),
                                n + 1,
                                ino,
                                i,
                                d,
                                fba.0 as int,
                                j + 1,
                            ).insert(key));
                            assert(self.slots@.dom().union(
                                ahead(self.slots@.dom(), self.slots.recency().len() as int, ino, i, d, fba.0 as int, j + 1),
                            ) =~= dom.union(ahead(dom, n, ino, i, d, fba.0 as int, j as int)));
                            assert forall|k: (u32, usize)| #[trigger] self.slots@.contains_key(k) && !m.contains_key(k) implies loaded_slot(self.slots@[k], k, *file, i, d) by {
                                if k != key {
                                    assert(m0.contains_key(k));
                                }
                            }
                            assert forall|k: (u32, usize)| #[trigger] self.slots@.contains_key(k) implies key_of(
                                self.slots@[k].file,
                                self.slots@[k].fba,
                            ) == k by {
                                if k != key {
                                    assert(m0.contains_key(k));
                                }
                            }
                        }
                    },
                    _ => {
                        proof {
                            assert(!loadable(i, d, fba.0 + j));
                            assert(ahead(dom, n, ino, i, d, fba.0 as int, j as int) == rest);
                        }
                    },
                }
            } else {
                proof {
                    assert(ahead(dom, n, ino, i, d, fba.0 as int, j as int) == rest);
                }
            }
            j = j + 1;
        }
        proof {
            assert(ahead(self.slots@.dom(), self.slots.recency().len() as int, ino, i, d, fba.0 as int, j as int)
                =~= Set::<(u32, usize)>::empty());
            assert(self.slots@.dom() =~= total);
        }
    }
}

/// Reads block 0 of `file` through a new page cache, which it leaves in
/// `cache`, then reads ahead after it, and checks that block 1 is then
/// cached. For a file whose block 1 is mapped, it is: the check passes,
/// and the slot of block 1 holds, clean, the disk's bytes of that block.
/// Nothing is written to the file system or the disk.
pub fn readahead_ffs(ffs: &mut FastFileSystemInner, disk: &mut Disk, file: &RegularFile, cache: &mut PageCacheState) -> (passed: bool)
    requires
        file.wf(old(ffs)),
        file_in_data_region(old(ffs), file.inode(old(ffs)), old(disk)@),
        loadable(file.inode(old(ffs)), old(disk)@, 1),
    ensures
        passed,
        final(cache).wf(),
        passed == final(cache).slots@.contains_key(key_of(*file, FileBlockNumber(1))),
        loaded_slot(
            final(cache).slots@[key_of(*file, FileBlockNumber(1))],
            key_of(*file, FileBlockNumber(1)),
            *file,
            file.inode(old(ffs)),
            old(disk)@,
        ),
        unchanged(old(ffs), final(ffs)),
        final(disk)@ == old(disk)@,
{
    *cache = PageCacheState::new();
    let mut buf = [0u8; 4096];
    let ghost f0 = *ffs;
    let ghost d0 = disk@;
    let ghost c0 = *cache;
    let _ = cache.do_read(ffs, disk, file, FileBlockNumber(0), &mut buf);
    proof {
        assert(displaced(&c0, key_of(*file, FileBlockNumber(0))) is None);
        assert(unchanged(&f0, ffs));
        assert(disk@ == d0);
        assert(ffs.inodes@ == f0.inodes@);
        assert(file.inode(ffs) == file.inode(&f0));
        assert forall|b: int| #[trigger] in_data_region(ffs, file.inode(ffs), disk@, b) by {
            assert(in_data_region(&f0, file.inode(&f0), d0, b));
        }
        cache.slots.lemma_capacity();
        assert(!cache.slots@.contains_key((file.ino@, 1usize)));
    }
    let ghost dom = cache.slots@.dom();
    cache.readahead(ffs, disk, file, FileBlockNumber(0));
    proof {
        assert(ahead(dom, 1, file.ino@, file.inode(ffs), disk@, 0, 1).contains((file.ino@, 1usize)));
        assert(cache.slots@.contains_key((file.ino@, 1usize)));
    }
    cache.cached(file, FileBlockNumber(1))
}

} // verus!
