//! Directories of the fast file system.
//!
//! A directory is a run of directory blocks, each holding sixteen entries
//! that map a name to an inode number. Entries are looked up, reused and
//! appended in order: block after block, and within a block slot after
//! slot. A directory grows by one block at a time.
use crate::error::KernelError;
use crate::project5::ffs::disk_layout::{DirectoryBlock, DirectoryBlockEntry, JournalSb, SuperBlock};
use crate::project5::ffs::fs::{
    all_set_below, array_entry, bit, bit_count, block_bitmap_write, block_bits, inode_array_write, journal_start,
    lookup_inode, one_more_block, set_bit, superblock_write, transact, FastFileSystemInner,
};
use crate::project5::ffs::fs::{bitmap_blocks, block_bitmap_start, data_start, inode_array_start, lemma_layout_bounds};
use crate::project5::ffs::codec::directory_block_bytes;
use crate::project5::ffs::inode::{block_code, encodes_inode, Inode};
use crate::project5::ffs::journal::{
    apply, commit_setting, commit_writes, data_writes, in_journal, in_range, journal_sb_bytes, journal_writes, last_write,
    lemma_apply_at, lemma_apply_concat, lemma_apply_len, lemma_apply_none, lemma_crash_recovery, recover, tx_ok,
    tx_view, with_flag, Disk,
};
use crate::project5::ffs::types::{lba_code, lemma_inode_number_eq, FileBlockNumber, FileType, InodeNumber, LogicalBlockAddress};
use vstd::prelude::*;
use vstd::string::StringSliceAdditionalSpecFns;
use vstd::utf8::{decode_utf8, encode_utf8, valid_utf8};

verus! {

/// The entries of a directory, block after block.
pub open spec fn entries_of(blocks: Seq<DirectoryBlock>) -> Seq<DirectoryBlockEntry> {
    Seq::new((blocks.len() * 16) as nat, |k: int| blocks[k / 16].entries@[k % 16])
}

/// The entries of `es` in use, in order.
pub open spec fn used_entries(es: Seq<DirectoryBlockEntry>) -> Seq<DirectoryBlockEntry> {
    es.filter(|e: DirectoryBlockEntry| e.inode is Some)
}

/// Whether entry `e` is in use and named `name`.
pub open spec fn named(e: DirectoryBlockEntry, name: Seq<u8>) -> bool {
    e.inode is Some && e.name_bytes() == name
}

/// The first entry of `es` from `i` on that is named `name`, if any.
pub open spec fn named_from(es: Seq<DirectoryBlockEntry>, name: Seq<u8>, i: int) -> Option<int>
    decreases es.len() - i,
{
    if i < 0 || i >= es.len() {
        None
    } else if named(es[i], name) {
        Some(i)
    } else {
        named_from(es, name, i + 1)
    }
}

/// The first entry of `es` named `name`, if any.
pub open spec fn slot_named(es: Seq<DirectoryBlockEntry>, name: Seq<u8>) -> Option<int> {
    named_from(es, name, 0)
}

/// The first free entry of `es` from `i` on, if any.
pub open spec fn free_from(es: Seq<DirectoryBlockEntry>, i: int) -> Option<int>
    decreases es.len() - i,
{
    if i < 0 || i >= es.len() {
        None
    } else if es[i].inode is None {
        Some(i)
    } else {
        free_from(es, i + 1)
    }
}

/// The first free entry of `es`, if any.
pub open spec fn free_slot(es: Seq<DirectoryBlockEntry>) -> Option<int> {
    free_from(es, 0)
}

/// The search for `name` from `i` on finds the first match at or after `i`.
pub proof fn lemma_named_from(es: Seq<DirectoryBlockEntry>, name: Seq<u8>, i: int)
    requires
        0 <= i,
    ensures
        match named_from(es, name, i) {
            Some(k) => i <= k < es.len() && named(es[k], name) && forall|j: int|
                i <= j < k ==> !named(#[trigger] es[j], name),
            None => forall|j: int| i <= j < es.len() ==> !named(#[trigger] es[j], name),
        },
    decreases es.len() - i,
{
    if i < es.len() && !named(es[i], name) {
        lemma_named_from(es, name, i + 1);
    }
}

/// The search for a free entry from `i` on finds the first one at or after
/// `i`.
pub proof fn lemma_free_from(es: Seq<DirectoryBlockEntry>, i: int)
    requires
        0 <= i,
    ensures
        match free_from(es, i) {
            Some(k) => i <= k < es.len() && es[k].inode is None && forall|j: int|
                i <= j < k ==> (#[trigger] es[j]).inode is Some,
            None => forall|j: int| i <= j < es.len() ==> (#[trigger] es[j]).inode is Some,
        },
    decreases es.len() - i,
{
    if i < es.len() && es[i].inode is Some {
        lemma_free_from(es, i + 1);
    }
}

/// Whether `e` is the entry that maps `name` to inode `ino`, its unused
/// name bytes zero.
pub open spec fn holds_entry(e: DirectoryBlockEntry, ino: InodeNumber, name: Seq<u8>) -> bool {
    &&& e.inode == Some(ino)
    &&& e.name_len == name.len()
    &&& e.name_bytes() == name
    &&& forall|i: int| e.name_len <= i < 251 ==> #[trigger] e.name@[i] == 0
}

/// Inode `i` with one more link.
pub open spec fn linked(i: Inode) -> Inode {
    Inode { link_count: (i.link_count + 1) as usize, ..i }
}

/// Whether inode `j` is inode `i` one block larger, file block `n` mapped
/// to block `lba`; the link count aside.
pub open spec fn grown_at(i: Inode, j: Inode, n: int, lba: int) -> bool {
    &&& j.ino == i.ino
    &&& j.ftype == i.ftype
    &&& j.size == i.size + 4096
    &&& j.iblock == i.iblock
    &&& j.diblock == i.diblock
    &&& lba_code(j.dblocks@[n]) == lba
    &&& forall|k: int| 0 <= k < 12 && k != n ==> #[trigger] j.dblocks@[k] == i.dblocks@[k]
}

/// Why adding an entry named `name` to directory `d` on `f` is refused,
/// if it is: [`KernelError::NoSuchEntry`] when the directory is removed,
/// [`KernelError::NameTooLong`] when the name takes more than 251 bytes,
/// [`KernelError::FileExist`] when an entry of that name exists already,
/// and [`KernelError::NoSpace`] when no slot is free and the directory
/// cannot grow: it has twelve blocks already, or no block is free.
pub open spec fn add_refusal(d: &Directory, f: &FastFileSystemInner, name: Seq<u8>) -> Option<KernelError> {
    let bits = block_bits(f.block_bitmap@);
    if d.removed {
        Some(KernelError::NoSuchEntry)
    } else if name.len() > 251 {
        Some(KernelError::NameTooLong)
    } else if slot_named(d.entries(), name) is Some {
        Some(KernelError::FileExist)
    } else if free_slot(d.entries()) is None && (d.blocks@.len() >= 12 || all_set_below(bits, bit_count(bits))) {
        Some(KernelError::NoSpace)
    } else {
        None
    }
}

/// What adding an entry that maps `name` to inode `ino` does to directory
/// `d0` on `f0`, giving `d1` on `f1`, when it is not refused. The entry
/// takes the first free slot and the inode gains a link. When no slot is
/// free, the directory grows by the first free block, mapped as its next
/// direct block and counted in the superblock, and the entry takes the
/// block's first slot. The changed inodes are written to the inode array.
pub open spec fn add_effect(
    d0: &Directory,
    d1: &Directory,
    f0: &FastFileSystemInner,
    f: &FastFileSystemInner,
    name: Seq<u8>,
    ino: InodeNumber,
) -> bool {
    let es = d0.entries();
    let dir = d0.ino@ as int;
    let bits = block_bits(f0.block_bitmap@);
    match free_slot(es) {
        Some(k) => {
            &&& d1.blocks@.len() == d0.blocks@.len()
            &&& d1.lbas@ == d0.lbas@
            &&& d1.entries() == es.update(k, d1.entries()[k])
            &&& holds_entry(d1.entries()[k], ino, name)
            &&& f.sb == f0.sb
            &&& f.block_bitmap@ == f0.block_bitmap@
            &&& f.inodes@ == f0.inodes@.update(ino@ as int, Some(linked(lookup_inode(f0, ino)->Ok_0)))
            &&& inodes_written(f0, f, ino@ as int, ino@ as int)
        },
        None => {
            let n = d0.blocks@.len() as int;
            let lba = d1.lbas@.last();
            let i = d0.inode(f0);
            &&& d1.lbas@ == d0.lbas@.push(lba)
            &&& d1.blocks@.len() == d0.blocks@.len() + 1
            &&& d1.entries().len() == es.len() + 16
            &&& d1.entries().take(es.len() as int) == es
            &&& holds_entry(d1.entries()[es.len() as int], ino, name)
            &&& forall|j: int| es.len() < j < es.len() + 16 ==> (#[trigger] d1.entries()[j]).inode is None
            &&& lba@ == first_free(bits)
            &&& 0 < lba@ < bit_count(bits)
            &&& block_bits(f.block_bitmap@) == set_bit(bits, lba@ as int)
            &&& f.sb == one_more_block(f0.sb)
            &&& f.inodes@[dir] matches Some(nd) && grown_at(i, nd, n, lba@ as int) && nd.link_count == i.link_count
                + (if ino@ == dir { 1int } else { 0int })
            &&& if ino@ == dir {
                f.inodes@ == f0.inodes@.update(dir, f.inodes@[dir])
            } else {
                f.inodes@ == f0.inodes@.update(dir, f.inodes@[dir]).update(
                    ino@ as int,
                    Some(linked(lookup_inode(f0, ino)->Ok_0)),
                )
            }
            &&& inodes_written(f0, f, dir, ino@ as int)
        },
    }
}

/// Whether `after` is `before` with only its inode table, its journal and
/// the inode array entries of inodes `a` and `b` changed, each of those entries
/// holding the on-disk form of the inode in `after`'s table.
pub open spec fn inodes_written(before: &FastFileSystemInner, after: &FastFileSystemInner, a: int, b: int) -> bool {
    &&& after.block_count == before.block_count
    &&& after.inode_count == before.inode_count
    &&& after.has_journal == before.has_journal
    &&& after.debug_journal == before.debug_journal
    &&& after.inode_bitmap@ == before.inode_bitmap@
    &&& after.inode_array@.len() == before.inode_array@.len()
    &&& after.inodes@[a] matches Some(i) && encodes_inode(i, array_entry(after, a))
    &&& after.inodes@[b] matches Some(i) && encodes_inode(i, array_entry(after, b))
    &&& forall|n: int|
        1 <= n <= before.inode_array@.len() * 16 && n != a && n != b ==> #[trigger] array_entry(after, n)
            == array_entry(before, n)
}

/// The write of block `j` of directory `d`: the disk block that holds it
/// and its bytes.
pub open spec fn dir_block_write(d: &Directory, j: int) -> (int, Seq<u8>) {
    (d.lbas@[j]@ as int, directory_block_bytes(d.blocks@[j]))
}

/// The metadata writes of adding an entry for inode `ino` to directory
/// `d0`, giving `d1` on `f`: the directory block that holds the entry and
/// the inode of `ino`; when the directory grew, also the block bitmap
/// block of the new block, the superblock and the directory's inode.
pub open spec fn add_writes(d0: &Directory, d1: &Directory, f: &FastFileSystemInner, ino: InodeNumber) -> Seq<
    (int, Seq<u8>),
> {
    match free_slot(d0.entries()) {
        Some(k) => seq![dir_block_write(d1, k / 16), inode_array_write(f, ino@ as int)],
        None => seq![
            block_bitmap_write(f, d1.lbas@.last()@ as int),
            superblock_write(f),
            dir_block_write(d1, d0.blocks@.len() as int),
            inode_array_write(f, d0.ino@ as int),
            inode_array_write(f, ino@ as int),
        ],
    }
}

/// A directory: its inode number, its blocks of entries, the disk block
/// that holds each of them, and whether it has been removed.
pub struct Directory {
    pub ino: InodeNumber,
    pub blocks: Vec<DirectoryBlock>,
    pub lbas: Vec<LogicalBlockAddress>,
    pub removed: bool,
}

/// Whether the bytes of `e`'s name are `name`, for an entry in use.
fn entry_named(e: &DirectoryBlockEntry, name: &[u8]) -> (r: bool)
    requires
        e.name_len <= 251,
    ensures
        r == named(*e, name@),
{
    if e.inode.is_none() || e.name_len as usize != name.len() {
        return false;
    }
    let n = e.name_len as usize;
    let mut i: usize = 0;
    while i < n
        invariant
            i <= n,
            n == e.name_len,
            n == name@.len(),
            n <= 251,
            forall|j: int| 0 <= j < i ==> e.name@[j] == name@[j],
        decreases n - i,
    {
        if e.name[i] != name[i] {
            return false;
        }
        i = i + 1;
    }
    assert(e.name_bytes() =~= name@);
    true
}

impl Directory {
    /// The entries of the directory, block after block.
    pub open spec fn entries(&self) -> Seq<DirectoryBlockEntry> {
        entries_of(self.blocks@)
    }

    /// Whether the directory agrees with file system `ffs`: its inode is in
    /// the inode table as a directory one block per directory block long,
    /// every disk block is known, every name fits its entry and every entry
    /// in use names an inode of the file system.
    pub open spec fn wf(&self, ffs: &FastFileSystemInner) -> bool {
        &&& ffs.wf()
        &&& self.ino@ < ffs.inode_count
        &&& ffs.inodes@[self.ino@ as int] matches Some(i) && i.ftype == FileType::Directory && i.size
            == self.blocks@.len() * 4096
        &&& self.lbas@.len() == self.blocks@.len()
        &&& forall|k: int| 0 <= k < self.entries().len() ==> (#[trigger] self.entries()[k]).name_len <= 251
        &&& forall|k: int|
            0 <= k < self.entries().len() && self.entries()[k].inode is Some ==> (
            #[trigger] self.entries()[k]).inode->Some_0@ < ffs.inode_count
    }

    /// Entry `k` of the directory.
    fn entry_at(&self, k: usize) -> (e: DirectoryBlockEntry)
        requires
            k < self.entries().len(),
        ensures
            e == self.entries()[k as int],
    {
        self.blocks[k / 16].entries[k % 16]
    }

    /// The number of entries of the directory.
    fn entry_count(&self, ffs: &FastFileSystemInner) -> (n: usize)
        requires
            self.wf(ffs),
        ensures
            n == self.entries().len(),
    {
        self.blocks.len() * 16
    }

    /// The inode number of the first entry named `entry`;
    /// [`KernelError::NoSuchEntry`] when there is none.
    pub fn find(&self, ffs: &FastFileSystemInner, entry: &str) -> (r: Result<InodeNumber, KernelError>)
        requires
            self.wf(ffs),
        ensures
            match slot_named(self.entries(), entry.spec_bytes()) {
                Some(k) => r == Ok::<InodeNumber, KernelError>(self.entries()[k].inode->Some_0),
                None => r == Err::<InodeNumber, KernelError>(KernelError::NoSuchEntry),
            },
    {
        let name = entry.as_bytes();
        let n = self.entry_count(ffs);
        let ghost es = self.entries();
        let mut k: usize = 0;
        while k < n
            invariant
                self.wf(ffs),
                es == self.entries(),
                n == es.len(),
                k <= n,
                name@ == entry.spec_bytes(),
                slot_named(es, name@) == named_from(es, name@, k as int),
            decreases n - k,
        {
            let e = self.entry_at(k);
            if entry_named(&e, name) {
                return Ok(e.inode.unwrap());
            }
            k = k + 1;
        }
        Err(KernelError::NoSuchEntry)
    }

    /// The entries in use, in order: each one's inode number and name;
    /// [`KernelError::FilesystemCorrupted`] when the name of one is not
    /// valid UTF-8.
    pub fn read_dir(&self, ffs: &FastFileSystemInner) -> (r: Result<Vec<(InodeNumber, String)>, KernelError>)
        requires
            self.wf(ffs),
        ensures
            match r {
                Ok(v) => {
                    let used = used_entries(self.entries());
                    &&& forall|k: int|
                        0 <= k < self.entries().len() && (#[trigger] self.entries()[k]).inode is Some ==> valid_utf8(
                            self.entries()[k].name_bytes(),
                        )
                    &&& v@.len() == used.len()
                    &&& forall|k: int|
                        0 <= k < v@.len() ==> (#[trigger] v@[k]).0 == used[k].inode->Some_0 && encode_utf8(
                            v@[k].1@,
                        ) == used[k].name_bytes()
                },
                Err(e) => e == KernelError::FilesystemCorrupted("DirectoryEntry") && exists|k: int|
                    0 <= k < self.entries().len() && (#[trigger] self.entries()[k]).inode is Some
                        && !valid_utf8(self.entries()[k].name_bytes()),
            },
    {
        let n = self.entry_count(ffs);
        let ghost es = self.entries();
        let mut out: Vec<(InodeNumber, String)> = Vec::new();
        let mut k: usize = 0;
        while k < n
            invariant
                self.wf(ffs),
                es == self.entries(),
                n == es.len(),
                k <= n,
                forall|j: int| 0 <= j < k && (#[trigger] es[j]).inode is Some ==> valid_utf8(es[j].name_bytes()),
                ({
                    let used = used_entries(es.take(k as int));
                    &&& out@.len() == used.len()
                    &&& forall|j: int|
                        0 <= j < out@.len() ==> (#[trigger] out@[j]).0 == used[j].inode->Some_0 && encode_utf8(
                            out@[j].1@,
                        ) == used[j].name_bytes()
                }),
            decreases n - k,
        {
            let e = self.entry_at(k);
            proof {
                reveal(Seq::filter);
                assert(es.take(k + 1).drop_last() =~= es.take(k as int));
                assert(es.take(k + 1).last() == e);
            }
            if e.inode.is_some() {
                match e.name() {
                    Some(s) => {
                        out.push((e.inode.unwrap(), s.to_owned()));
                    },
                    None => {
                        return Err(KernelError::FilesystemCorrupted("DirectoryEntry"));
                    },
                }
            }
            k = k + 1;
        }
        assert(es.take(n as int) =~= es);
        Ok(out)
    }
}

/// Setting one entry of one block sets that entry of the directory.
proof fn lemma_entries_update(blocks: Seq<DirectoryBlock>, k: int, nb: DirectoryBlock)
    requires
        0 <= k < blocks.len() * 16,
        nb.entries@ == blocks[k / 16].entries@.update(k % 16, nb.entries@[k % 16]),
    ensures
        entries_of(blocks.update(k / 16, nb)) == entries_of(blocks).update(k, nb.entries@[k % 16]),
{
    let a = entries_of(blocks.update(k / 16, nb));
    let b = entries_of(blocks).update(k, nb.entries@[k % 16]);
    assert forall|j: int| 0 <= j < a.len() implies a[j] == b[j] by {
        if j / 16 == k / 16 && j % 16 == k % 16 {
            assert(j == 16 * (j / 16) + j % 16);
            assert(k == 16 * (k / 16) + k % 16);
        }
    }
    assert(a =~= b);
}

/// A block added at the end adds its entries at the end.
proof fn lemma_entries_push(blocks: Seq<DirectoryBlock>, nb: DirectoryBlock)
    ensures
        entries_of(blocks.push(nb)) == entries_of(blocks) + nb.entries@,
{
    let a = entries_of(blocks.push(nb));
    let b = entries_of(blocks) + nb.entries@;
    assert forall|j: int| 0 <= j < a.len() implies a[j] == b[j] by {
        if j < blocks.len() * 16 {
            assert(j / 16 < blocks.len());
        } else {
            assert(j / 16 == blocks.len());
            assert(j % 16 == j - blocks.len() * 16);
        }
    }
    assert(a =~= b);
}

/// Gives inode `ino` one more link: looks it up and writes it back.
fn add_link(ffs: &mut FastFileSystemInner, ino: InodeNumber)
    requires
        old(ffs).wf(),
        ino@ < old(ffs).inode_count,
        lookup_inode(old(ffs), ino) matches Ok(i) && i.link_count < usize::MAX,
    ensures
        final(ffs).wf(),
        final(ffs).sb == old(ffs).sb,
        final(ffs).block_bitmap@ == old(ffs).block_bitmap@,
        final(ffs).inodes@ == old(ffs).inodes@.update(ino@ as int, Some(linked(lookup_inode(old(ffs), ino)->Ok_0))),
        inodes_written(old(ffs), final(ffs), ino@ as int, ino@ as int),
        final(ffs).journal == old(ffs).journal,
{
    match ffs.get_inode(ino) {
        Ok(i) => {
            ffs.write_inode(Inode { link_count: i.link_count + 1, ..i });
            assert(ffs.inodes@ =~= old(ffs).inodes@.update(ino@ as int, Some(linked(i))));
        },
        Err(_) => {
            assert(false);
        },
    }
}

/// Whether directory `a` is directory `b`.
pub open spec fn same_dir(a: &Directory, b: &Directory) -> bool {
    &&& a.ino == b.ino
    &&& a.blocks@ == b.blocks@
    &&& a.lbas@ == b.lbas@
    &&& a.removed == b.removed
}

/// Whether file system `a` is file system `b`.
pub open spec fn same_fs(a: &FastFileSystemInner, b: &FastFileSystemInner) -> bool {
    &&& a.block_count == b.block_count
    &&& a.inode_count == b.inode_count
    &&& a.has_journal == b.has_journal
    &&& a.debug_journal == b.debug_journal
    &&& a.journal == b.journal
    &&& a.sb == b.sb
    &&& a.inode_bitmap@ == b.inode_bitmap@
    &&& a.block_bitmap@ == b.block_bitmap@
    &&& a.inode_array@ == b.inode_array@
    &&& a.inodes@ == b.inodes@
}

impl Directory {
    /// The inode of the directory.
    pub open spec fn inode(&self, ffs: &FastFileSystemInner) -> Inode {
        ffs.inodes@[self.ino@ as int]->Some_0
    }

    /// Adds an entry that maps `entry` to inode `ino`, and gives that inode
    /// one more link: see [`add_refusal`] and [`add_effect`]. The changed
    /// metadata ([`add_writes`]) is then committed as one transaction (see
    /// [`transact`]); a refused entry changes nothing.
    #[verifier::rlimit(60)]
    pub fn add_entry(&mut self, ffs: &mut FastFileSystemInner, disk: &mut Disk, entry: &str, ino: InodeNumber) -> (r: Result<
        (),
        KernelError,
    >)
        requires
            old(self).wf(old(ffs)),
            ino@ < old(ffs).inode_count,
            lookup_inode(old(ffs), ino) matches Ok(i) && i.link_count < usize::MAX,
            old(self).inode(old(ffs)).link_count < usize::MAX,
            old(self).blocks@.len() * 4096 + 4096 <= usize::MAX,
            old(ffs).block_bitmap@.len() > 0 ==> old(ffs).block_bitmap@[0]@[0],
            old(ffs).sb.block_count_inused < u64::MAX,
            old(ffs).journal matches Some(jn) ==> jn.sb.tx_id < u64::MAX,
        ensures
            final(self).ino == old(self).ino,
            final(self).removed == old(self).removed,
            final(self).wf(final(ffs)),
            match add_refusal(old(self), old(ffs), entry.spec_bytes()) {
                Some(e) => r == Err::<(), KernelError>(e) && same_dir(final(self), old(self)) && same_fs(
                    final(ffs),
                    old(ffs),
                ) && final(disk)@ == old(disk)@,
                None => {
                    &&& add_effect(old(self), final(self), old(ffs), final(ffs), entry.spec_bytes(), ino)
                    &&& (r, final(disk)@, final(ffs).journal) == transact(
                        old(ffs).journal,
                        old(disk)@,
                        journal_start(old(ffs).inode_count as int, old(ffs).block_count as int),
                        add_writes(old(self), final(self), final(ffs), ino),
                    )
                },
            },
    {
        let nb = self.blocks.len();
        proof {
            lemma_free_from(self.entries(), 0);
        }
        let k = match self.add_entry_mem(ffs, entry, ino) {
            Ok(k) => k,
            Err(e) => return Err(e),
        };
        let ghost d1 = *self;
        let ghost mid = *ffs;
        let mut blocks: Vec<(LogicalBlockAddress, [u8; 4096])> = Vec::new();
        if self.blocks.len() > nb {
            let lba = self.lbas[nb];
            let b1 = ffs.block_bitmap_block(lba);
            let b2 = ffs.superblock_block();
            let b3 = self.dir_block(nb);
            let b4 = ffs.inode_array_block(self.ino);
            let b5 = ffs.inode_array_block(ino);
            blocks.push(b1);
            blocks.push(b2);
            blocks.push(b3);
            blocks.push(b4);
            blocks.push(b5);
            assert(tx_view(blocks@) =~= add_writes(old(self), &d1, &mid, ino));
        } else {
            let b1 = self.dir_block(k / 16);
            let b2 = ffs.inode_array_block(ino);
            blocks.push(b1);
            blocks.push(b2);
            assert(tx_view(blocks@) =~= add_writes(old(self), &d1, &mid, ino));
        }
        let r = ffs.commit_meta(disk, blocks);
        proof {
            assert forall|j: int| #[trigger] array_entry(ffs, j) == array_entry(&mid, j) by {}
            assert(add_writes(old(self), self, ffs, ino) == add_writes(old(self), &d1, &mid, ino));
        }
        r
    }

    /// Block `j` of the directory and the disk block that holds it.
    fn dir_block(&self, j: usize) -> (r: (LogicalBlockAddress, [u8; 4096]))
        requires
            j < self.blocks@.len(),
            self.lbas@.len() == self.blocks@.len(),
        ensures
            (r.0@ as int, r.1@) == dir_block_write(self, j as int),
    {
        (self.lbas[j], self.blocks[j].into_block())
    }

    /// [`Directory::add_entry`] in memory: see [`add_refusal`] and
    /// [`add_effect`]. The slot the entry takes, on success.
    fn add_entry_mem(&mut self, ffs: &mut FastFileSystemInner, entry: &str, ino: InodeNumber) -> (r: Result<
        usize,
        KernelError,
    >)
        requires
            old(self).wf(old(ffs)),
            ino@ < old(ffs).inode_count,
            lookup_inode(old(ffs), ino) matches Ok(i) && i.link_count < usize::MAX,
            old(self).inode(old(ffs)).link_count < usize::MAX,
            old(self).blocks@.len() * 4096 + 4096 <= usize::MAX,
            old(ffs).block_bitmap@.len() > 0 ==> old(ffs).block_bitmap@[0]@[0],
            old(ffs).sb.block_count_inused < u64::MAX,
        ensures
            final(self).ino == old(self).ino,
            final(self).removed == old(self).removed,
            final(self).wf(final(ffs)),
            final(ffs).journal == old(ffs).journal,
            match add_refusal(old(self), old(ffs), entry.spec_bytes()) {
                Some(e) => r == Err::<usize, KernelError>(e) && same_dir(final(self), old(self)) && same_fs(
                    final(ffs),
                    old(ffs),
                ),
                None => {
                    &&& add_effect(old(self), final(self), old(ffs), final(ffs), entry.spec_bytes(), ino)
                    &&& r == Ok::<usize, KernelError>(
                        match free_slot(old(self).entries()) {
                            Some(k) => k as usize,
                            None => old(self).entries().len() as usize,
                        },
                    )
                },
            },
    {
        if self.removed {
            return Err(KernelError::NoSuchEntry);
        }
        let en = match DirectoryBlockEntry::from_ino_name(ino, entry) {
            Some(e) => e,
            None => return Err(KernelError::NameTooLong),
        };
        if self.find(ffs, entry).is_ok() {
            return Err(KernelError::FileExist);
        }
        let ghost es = self.entries();
        let ghost f0 = *ffs;
        let n = self.entry_count(ffs);
        let mut k: usize = 0;
        while k < n
            invariant
                self.wf(ffs),
                *self == *old(self),
                *ffs == f0,
                f0 == *old(ffs),
                es == self.entries(),
                n == es.len(),
                k <= n,
                free_slot(es) == free_from(es, k as int),
                ino@ < f0.inode_count,
                lookup_inode(&f0, ino) matches Ok(i) && i.link_count < usize::MAX,
                holds_entry(en, ino, entry.spec_bytes()),
                en.name_len <= 251,
                !old(self).removed,
                entry.spec_bytes().len() <= 251,
                slot_named(es, entry.spec_bytes()) is None,
            decreases n - k,
        {
            let e = self.entry_at(k);
            if e.inode.is_none() {
                let mut b = self.blocks[k / 16];
                b.entries[k % 16] = en;
                proof {
                    assert(b.entries@ == self.blocks@[(k / 16) as int].entries@.update((k % 16) as int, en));
                    lemma_entries_update(self.blocks@, k as int, b);
                    assert(free_from(es, k as int) == Some(k as int));
                }
                self.blocks.set(k / 16, b);
                assert(self.entries() == es.update(k as int, en));
                add_link(ffs, ino);
                proof {
                    let name = entry.spec_bytes();
                    assert(free_slot(es) == Some(k as int));
                    assert(self.blocks@.len() == old(self).blocks@.len());
                    assert(self.lbas@ == old(self).lbas@);
                    assert(self.entries() == es.update(k as int, self.entries()[k as int]));
                    assert(holds_entry(self.entries()[k as int], ino, name));
                    assert(ffs.sb == f0.sb);
                    assert(ffs.block_bitmap@ == f0.block_bitmap@);
                    assert(inodes_written(&f0, ffs, ino@ as int, ino@ as int));
                }
                return Ok(k);
            }
            k = k + 1;
        }
        proof {
            lemma_free_from(es, 0);
        }
        let nblk = self.blocks.len();
        if nblk >= 12 {
            return Err(KernelError::NoSpace);
        }
        let lba = match ffs.allocate_block() {
            Ok(l) => l,
            Err(e) => return Err(e),
        };
        proof {
            lemma_first_free(block_bits(f0.block_bitmap@), lba@ as int);
        }
        let mut b = DirectoryBlock::default();
        b.entries[0] = en;
        proof {
            lemma_entries_push(self.blocks@, b);
        }
        self.blocks.push(b);
        self.lbas.push(lba);
        let slot = self.ino.into_u32() as usize;
        let d = match ffs.inodes[slot] {
            Some(d) => d,
            None => {
                assert(false);
                return Err(KernelError::NoSpace);
            },
        };
        let ghost f1 = *ffs;
        proof {
            use_type_invariant(&ino);
            assert(ino@ <= f1.inode_array@.len() * 16) by (nonlinear_arith)
                requires
                    ino@ < f1.inode_count,
                    f1.inode_array@.len() == (f1.inode_count + 16 - 1) / 16,
            ;
        }
        let mut nd = d;
        nd.size = d.size + 4096;
        nd.dblocks[nblk] = Some(lba);
        assert(grown_at(d, nd, nblk as int, lba@ as int));
        ffs.write_inode(nd);
        proof {
            if ino@ != self.ino@ {
                assert(array_entry(ffs, ino@ as int) == array_entry(&f1, ino@ as int));
                assert(lookup_inode(ffs, ino) == lookup_inode(&f1, ino));
                assert(lookup_inode(&f1, ino) == lookup_inode(&f0, ino));
            }
        }
        let ghost f2 = *ffs;
        add_link(ffs, ino);
        proof {
            assert(free_slot(es) is None);
            assert(f2.inodes@[self.ino@ as int] == Some(nd));
            if ino@ == self.ino@ {
                assert(lookup_inode(&f2, ino) == Ok::<Inode, KernelError>(nd));
                assert(ffs.inodes@[self.ino@ as int] == Some(linked(nd)));
                assert(grown_at(d, linked(nd), nblk as int, lba@ as int));
            } else {
                assert(ffs.inodes@[self.ino@ as int] == Some(nd));
            }
            if ino@ == self.ino@ {
                assert(ffs.inodes@ =~= f0.inodes@.update(self.ino@ as int, ffs.inodes@[self.ino@ as int]));
            } else {
                assert(ffs.inodes@ =~= f0.inodes@.update(self.ino@ as int, ffs.inodes@[self.ino@ as int]).update(
                    ino@ as int,
                    Some(linked(lookup_inode(&f0, ino)->Ok_0)),
                ));
            }
            let bits = block_bits(f0.block_bitmap@);
            assert(!bit(bits, lba@ as int));
            assert(!all_set_below(bits, bit_count(bits)));
            assert(add_refusal(old(self), old(ffs), entry.spec_bytes()) is None);
            assert(self.lbas@ == old(self).lbas@.push(self.lbas@.last()));
            assert(self.lbas@.last() == lba);
            assert(block_bits(ffs.block_bitmap@) == set_bit(bits, lba@ as int));
            assert(ffs.sb == one_more_block(f0.sb));
            assert(inodes_written(&f0, ffs, self.ino@ as int, ino@ as int));
            assert(d == old(self).inode(old(ffs)));
            assert(self.entries().len() == es.len() + 16);
            assert(self.entries().take(es.len() as int) == es);
            assert(holds_entry(self.entries()[es.len() as int], ino, entry.spec_bytes()));
            assert(ffs.inodes@[self.ino@ as int] matches Some(x) && grown_at(d, x, nblk as int, lba@ as int));
            assert(add_effect(old(self), self, old(ffs), ffs, entry.spec_bytes(), ino));
            assert(n == es.len());
        }
        Ok(n)
    }

    /// Takes the first entry named `entry` out of the directory (its slot
    /// becomes free) and returns the inode it named, looked up as
    /// [`FastFileSystemInner::get_inode`] does. The directory block that
    /// held the entry is then committed as one transaction (see
    /// [`transact`]); when the commit fails, its error is returned.
    /// [`KernelError::NoSuchEntry`] when no entry has that name; nothing
    /// changes then.
    pub fn take_entry(&mut self, ffs: &mut FastFileSystemInner, disk: &mut Disk, entry: &str) -> (r: Result<
        Inode,
        KernelError,
    >)
        requires
            old(self).wf(old(ffs)),
            old(ffs).journal matches Some(jn) ==> jn.sb.tx_id < u64::MAX,
        ensures
            final(self).wf(final(ffs)),
            final(self).ino == old(self).ino,
            final(self).removed == old(self).removed,
            final(self).lbas@ == old(self).lbas@,
            final(self).blocks@.len() == old(self).blocks@.len(),
            ({
                let es = old(self).entries();
                let f0 = &*old(ffs);
                let f = &*final(ffs);
                match slot_named(es, entry.spec_bytes()) {
                    Some(k) => {
                        let ino = es[k].inode->Some_0;
                        let t = transact(
                            f0.journal,
                            old(disk)@,
                            journal_start(f0.inode_count as int, f0.block_count as int),
                            seq![dir_block_write(final(self), k / 16)],
                        );
                        &&& final(self).entries() == es.update(k, DirectoryBlockEntry { inode: None, ..es[k] })
                        &&& final(disk)@ == t.1
                        &&& f.journal == t.2
                        &&& r == if t.0 is Ok {
                            lookup_inode(f0, ino)
                        } else {
                            Err::<Inode, KernelError>(t.0->Err_0)
                        }
                        &&& f.inodes@ == match lookup_inode(f0, ino) {
                            Ok(i) => f0.inodes@.update(ino@ as int, Some(i)),
                            Err(_) => f0.inodes@,
                        }
                        &&& f.block_count == f0.block_count
                        &&& f.inode_count == f0.inode_count
                        &&& f.has_journal == f0.has_journal
                        &&& f.debug_journal == f0.debug_journal
                        &&& f.sb == f0.sb
                        &&& f.inode_bitmap@ == f0.inode_bitmap@
                        &&& f.block_bitmap@ == f0.block_bitmap@
                        &&& f.inode_array@ == f0.inode_array@
                    },
                    None => r == Err::<Inode, KernelError>(KernelError::NoSuchEntry) && same_dir(final(self), old(self))
                        && same_fs(f, f0) && final(disk)@ == old(disk)@,
                }
            }),
    {
        proof {
            lemma_named_from(self.entries(), entry.spec_bytes(), 0);
        }
        let (k, got) = match self.take_entry_mem(ffs, entry) {
            Ok(x) => x,
            Err(e) => return Err(e),
        };
        let ghost mid = *ffs;
        let b = self.dir_block(k / 16);
        let mut blocks: Vec<(LogicalBlockAddress, [u8; 4096])> = Vec::new();
        blocks.push(b);
        assert(tx_view(blocks@) =~= seq![dir_block_write(self, (k / 16) as int)]);
        let ghost d0 = disk@;
        let rc = ffs.commit_meta(disk, blocks);
        proof {
            let t = transact(
                old(ffs).journal,
                d0,
                journal_start(old(ffs).inode_count as int, old(ffs).block_count as int),
                seq![dir_block_write(self, (k / 16) as int)],
            );
            assert(d0 == old(disk)@);
            assert(rc == t.0);
            assert(disk@ == t.1);
            assert(ffs.journal == t.2);
            assert(slot_named(old(self).entries(), entry.spec_bytes()) == Some(k as int));
        }
        match rc {
            Ok(()) => got,
            Err(e) => Err(e),
        }
    }

    /// [`Directory::take_entry`] in memory: the slot of the entry taken,
    /// and what looking its inode up gives.
    fn take_entry_mem(&mut self, ffs: &mut FastFileSystemInner, entry: &str) -> (r: Result<
        (usize, Result<Inode, KernelError>),
        KernelError,
    >)
        requires
            old(self).wf(old(ffs)),
        ensures
            final(self).wf(final(ffs)),
            final(self).ino == old(self).ino,
            final(self).removed == old(self).removed,
            final(self).lbas@ == old(self).lbas@,
            final(self).blocks@.len() == old(self).blocks@.len(),
            r matches Ok((k, _)) ==> k < old(self).entries().len(),
            ({
                let es = old(self).entries();
                let f0 = &*old(ffs);
                let f = &*final(ffs);
                match slot_named(es, entry.spec_bytes()) {
                    Some(k) => {
                        let ino = es[k].inode->Some_0;
                        &&& final(self).entries() == es.update(k, DirectoryBlockEntry { inode: None, ..es[k] })
                        &&& r == Ok::<(usize, Result<Inode, KernelError>), KernelError>((k as usize, lookup_inode(f0, ino)))
                        &&& f.inodes@ == match lookup_inode(f0, ino) {
                            Ok(i) => f0.inodes@.update(ino@ as int, Some(i)),
                            Err(_) => f0.inodes@,
                        }
                        &&& f.block_count == f0.block_count
                        &&& f.inode_count == f0.inode_count
                        &&& f.has_journal == f0.has_journal
                        &&& f.debug_journal == f0.debug_journal
                &&& f.journal == f0.journal
                        &&& f.journal == f0.journal
                        &&& f.sb == f0.sb
                        &&& f.inode_bitmap@ == f0.inode_bitmap@
                        &&& f.block_bitmap@ == f0.block_bitmap@
                        &&& f.inode_array@ == f0.inode_array@
                    },
                    None => r == Err::<(usize, Result<Inode, KernelError>), KernelError>(KernelError::NoSuchEntry)
                        && same_dir(final(self), old(self)) && same_fs(f, f0),
                }
            }),
    {
        let name = entry.as_bytes();
        let n = self.entry_count(ffs);
        let ghost es = self.entries();
        let mut k: usize = 0;
        while k < n
            invariant
                self.wf(ffs),
                *self == *old(self),
                *ffs == *old(ffs),
                es == self.entries(),
                n == es.len(),
                k <= n,
                name@ == entry.spec_bytes(),
                slot_named(es, name@) == named_from(es, name@, k as int),
            decreases n - k,
        {
            let e = self.entry_at(k);
            if entry_named(&e, name) {
                let ino = e.inode.unwrap();
                let mut b = self.blocks[k / 16];
                b.entries[k % 16].inode = None;
                proof {
                    assert(b.entries@ == self.blocks@[(k / 16) as int].entries@.update(
                        (k % 16) as int,
                        DirectoryBlockEntry { inode: None, ..e },
                    ));
                    lemma_entries_update(self.blocks@, k as int, b);
                    assert(named_from(es, name@, k as int) == Some(k as int));
                }
                self.blocks.set(k / 16, b);
                let got = ffs.get_inode(ino);
                return Ok((k, got));
            }
            k = k + 1;
        }
        Err(KernelError::NoSuchEntry)
    }

    /// The inode that the first entry named `entry` names, looked up as
    /// [`FastFileSystemInner::get_inode`] does; [`KernelError::NoSuchEntry`]
    /// when no entry has that name.
    pub fn open_entry(&self, ffs: &mut FastFileSystemInner, entry: &str) -> (r: Result<Inode, KernelError>)
        requires
            self.wf(old(ffs)),
        ensures
            self.wf(final(ffs)),
            ({
                let f0 = &*old(ffs);
                let f = &*final(ffs);
                &&& f.block_count == f0.block_count
                &&& f.inode_count == f0.inode_count
                &&& f.has_journal == f0.has_journal
                &&& f.debug_journal == f0.debug_journal
                &&& f.journal == f0.journal
                &&& f.sb == f0.sb
                &&& f.inode_bitmap@ == f0.inode_bitmap@
                &&& f.block_bitmap@ == f0.block_bitmap@
                &&& f.inode_array@ == f0.inode_array@
                &&& match slot_named(self.entries(), entry.spec_bytes()) {
                    Some(k) => {
                        let ino = self.entries()[k].inode->Some_0;
                        &&& r == lookup_inode(f0, ino)
                        &&& f.inodes@ == match r {
                            Ok(i) => f0.inodes@.update(ino@ as int, Some(i)),
                            Err(_) => f0.inodes@,
                        }
                    },
                    None => r == Err::<Inode, KernelError>(KernelError::NoSuchEntry) && f.inodes@ == f0.inodes@,
                }
            }),
    {
        let ino = match self.find(ffs, entry) {
            Ok(i) => i,
            Err(e) => return Err(e),
        };
        proof {
            lemma_named_from(self.entries(), entry.spec_bytes(), 0);
        }
        ffs.get_inode(ino)
    }

    /// Removes the entry named `entry`: the inode it names loses a link, or
    /// two for a directory, whose `..` goes too. The root directory (inode
    /// 1) is [`KernelError::Busy`]; a directory that holds more than `.` and
    /// `..` is [`KernelError::DirectoryNotEmpty`], and one already removed
    /// [`KernelError::NoSuchEntry`]; a directory to remove is marked
    /// removed. `child` is the directory that `entry` names, when it names
    /// one. The directory block that held the entry and the inode are then
    /// committed as one transaction (see [`transact`]). Errors change
    /// nothing but the inode table, which keeps the inode that was looked
    /// up.
    pub fn unlink_entry(
        &mut self,
        ffs: &mut FastFileSystemInner,
        disk: &mut Disk,
        entry: &str,
        child: &mut Option<Directory>,
    ) -> (r: Result<(), KernelError>)
        requires
            old(self).wf(old(ffs)),
            old(ffs).journal matches Some(jn) ==> jn.sb.tx_id < u64::MAX,
            ({
                let es = old(self).entries();
                slot_named(es, entry.spec_bytes()) matches Some(k) && lookup_inode(old(ffs), es[k].inode->Some_0)
                    matches Ok(i) ==> {
                    &&& i.link_count >= (if i.ftype == FileType::Directory { 2usize } else { 1usize })
                    &&& i.ftype == FileType::Directory ==> (*old(child) matches Some(d) && d.ino
                        == es[k].inode->Some_0 && d.wf(old(ffs)))
                }
            }),
        ensures
            final(self).wf(final(ffs)),
            final(self).ino == old(self).ino,
            final(self).removed == old(self).removed,
            final(self).lbas@ == old(self).lbas@,
            final(self).blocks@.len() == old(self).blocks@.len(),
            ({
                let es = old(self).entries();
                let f0 = &*old(ffs);
                let f = &*final(ffs);
                match slot_named(es, entry.spec_bytes()) {
                    None => r == Err::<(), KernelError>(KernelError::NoSuchEntry) && same_dir(final(self), old(self))
                        && same_fs(f, f0) && *final(child) == *old(child) && final(disk)@ == old(disk)@,
                    Some(k) => {
                        let ino = es[k].inode->Some_0;
                        match lookup_inode(f0, ino) {
                            Err(e) => r == Err::<(), KernelError>(e) && same_dir(final(self), old(self)) && same_fs(
                                f,
                                f0,
                            ) && *final(child) == *old(child) && final(disk)@ == old(disk)@,
                            Ok(i) => {
                                let d = old(child)->Some_0;
                                let used = used_entries(d.entries());
                                let refused: Option<KernelError> = if ino@ == 1 {
                                    Some(KernelError::Busy)
                                } else if i.ftype != FileType::Directory {
                                    None
                                } else if exists|j: int|
                                    0 <= j < d.entries().len() && (#[trigger] d.entries()[j]).inode is Some
                                        && !valid_utf8(d.entries()[j].name_bytes()) {
                                    Some(KernelError::FilesystemCorrupted("DirectoryEntry"))
                                } else if used.len() != 2 {
                                    Some(KernelError::DirectoryNotEmpty)
                                } else if d.removed {
                                    Some(KernelError::NoSuchEntry)
                                } else {
                                    None
                                };
                                let links = if i.ftype == FileType::Directory { 2int } else { 1int };
                                match refused {
                                    Some(e) => {
                                        &&& r == Err::<(), KernelError>(e)
                                        &&& same_dir(final(self), old(self))
                                        &&& *final(child) == *old(child)
                                        &&& f.inodes@ == f0.inodes@.update(ino@ as int, Some(i))
                                        &&& f.sb == f0.sb
                                        &&& f.block_bitmap@ == f0.block_bitmap@
                                        &&& f.inode_bitmap@ == f0.inode_bitmap@
                                        &&& f.inode_array@ == f0.inode_array@
                                        &&& f.journal == f0.journal
                                        &&& final(disk)@ == old(disk)@
                                    },
                                    None => {
                                        &&& (r, final(disk)@, f.journal) == transact(
                                            f0.journal,
                                            old(disk)@,
                                            journal_start(f0.inode_count as int, f0.block_count as int),
                                            seq![dir_block_write(final(self), k / 16), inode_array_write(f, ino@ as int)],
                                        )
                                        &&& final(self).entries() == es.update(
                                            k,
                                            DirectoryBlockEntry { inode: None, ..es[k] },
                                        )
                                        &&& i.ftype == FileType::Directory ==> *final(child) == Some(
                                            Directory { removed: true, ..d },
                                        )
                                        &&& i.ftype != FileType::Directory ==> *final(child) == *old(child)
                                        &&& f.inodes@ == f0.inodes@.update(
                                            ino@ as int,
                                            Some(Inode { link_count: (i.link_count - links) as usize, ..i }),
                                        )
                                        &&& f.sb == f0.sb
                                        &&& f.block_bitmap@ == f0.block_bitmap@
                                        &&& inodes_written(f0, f, ino@ as int, ino@ as int)
                                    },
                                }
                            },
                        }
                    },
                }
            }),
    {
        let ghost es = self.entries();
        let ghost f0 = *ffs;
        let ino = match self.find(ffs, entry) {
            Ok(i) => i,
            Err(e) => return Err(e),
        };
        proof {
            lemma_named_from(es, entry.spec_bytes(), 0);
        }
        let i = match ffs.get_inode(ino) {
            Ok(i) => i,
            Err(e) => return Err(e),
        };
        if ino.into_u32() == 1 {
            return Err(KernelError::Busy);
        }
        let links: usize = match i.ftype {
            FileType::Directory => {
                match child {
                    Some(d) => {
                        match d.read_dir(ffs) {
                            Ok(v) => {
                                if v.len() != 2 {
                                    return Err(KernelError::DirectoryNotEmpty);
                                }
                            },
                            Err(e) => return Err(e),
                        }
                        if d.removed {
                            return Err(KernelError::NoSuchEntry);
                        }
                        d.removed = true;
                    },
                    None => {
                        assert(false);
                        return Err(KernelError::NoSuchEntry);
                    },
                }
                2
            },
            FileType::RegularFile => 1,
        };
        let (k, t) = match self.take_entry_mem(ffs, entry) {
            Ok((k, Ok(t))) => (k, t),
            _ => {
                assert(false);
                return Err(KernelError::NoSuchEntry);
            },
        };
        ffs.write_inode(Inode { link_count: t.link_count - links, ..t });
        let ghost mid = *ffs;
        let b1 = self.dir_block(k / 16);
        let b2 = ffs.inode_array_block(ino);
        let mut blocks: Vec<(LogicalBlockAddress, [u8; 4096])> = Vec::new();
        blocks.push(b1);
        blocks.push(b2);
        assert(tx_view(blocks@) =~= seq![dir_block_write(self, (k / 16) as int), inode_array_write(&mid, ino@ as int)]);
        let r = ffs.commit_meta(disk, blocks);
        proof {
            assert forall|j: int| #[trigger] array_entry(ffs, j) == array_entry(&mid, j) by {}
            assert(inode_array_write(ffs, ino@ as int) == inode_array_write(&mid, ino@ as int));
        }
        r
    }
}

/// A name that no entry had is found, after it is added in a free slot, at
/// that slot, naming the inode it was added for.
pub proof fn lemma_find_after_add(es: Seq<DirectoryBlockEntry>, k: int, e: DirectoryBlockEntry, ino: InodeNumber, name: Seq<u8>)
    requires
        slot_named(es, name) is None,
        free_slot(es) == Some(k),
        holds_entry(e, ino, name),
    ensures
        slot_named(es.update(k, e), name) == Some(k),
        es.update(k, e)[k].inode == Some(ino),
{
    lemma_named_from(es, name, 0);
    lemma_free_from(es, 0);
    lemma_named_from(es.update(k, e), name, 0);
    let es2 = es.update(k, e);
    match slot_named(es2, name) {
        Some(j) => {
            if j < k {
                assert(es2[j] == es[j]);
            } else if j > k {
                assert(named(es2[k], name));
            }
        },
        None => {
            assert(named(es2[k], name));
        },
    }
}

/// A name that no entry had is found, after the directory grows by a block
/// whose first slot it is added in, at that slot.
pub proof fn lemma_find_after_grow(es: Seq<DirectoryBlockEntry>, es2: Seq<DirectoryBlockEntry>, ino: InodeNumber, name: Seq<u8>)
    requires
        slot_named(es, name) is None,
        es2.len() > es.len(),
        es2.take(es.len() as int) == es,
        holds_entry(es2[es.len() as int], ino, name),
    ensures
        slot_named(es2, name) == Some(es.len() as int),
        es2[es.len() as int].inode == Some(ino),
{
    lemma_named_from(es, name, 0);
    lemma_named_from(es2, name, 0);
    match slot_named(es2, name) {
        Some(j) => {
            if j < es.len() {
                assert(es2[j] == es2.take(es.len() as int)[j]);
            } else if j > es.len() {
                assert(named(es2[es.len() as int], name));
            }
        },
        None => {
            assert(named(es2[es.len() as int], name));
        },
    }
}

/// Once the entry found under a name is taken out, the name is found at
/// the next entry that has it, if any: when names are unique, nowhere.
pub proof fn lemma_find_after_take(es: Seq<DirectoryBlockEntry>, name: Seq<u8>, k: int)
    requires
        slot_named(es, name) == Some(k),
    ensures
        slot_named(es.update(k, DirectoryBlockEntry { inode: None, ..es[k] }), name) == named_from(es, name, k + 1),
{
    let es2 = es.update(k, DirectoryBlockEntry { inode: None, ..es[k] });
    lemma_named_from(es, name, 0);
    lemma_named_from(es, name, k + 1);
    lemma_named_from(es2, name, 0);
    lemma_named_from(es2, name, k + 1);
    assert forall|i: int| k + 1 <= i <= es.len() implies named_from(es2, name, i) == named_from(es, name, i) by {
        lemma_named_from_same(es, es2, name, k + 1, i);
    }
    assert(!named(es2[k], name));
    match slot_named(es2, name) {
        Some(j) => {
            if j < k {
                assert(es2[j] == es[j]);
            }
        },
        None => {},
    }
}

/// Two sequences that agree from `lo` on give the same search results from
/// any `i >= lo` on.
proof fn lemma_named_from_same(a: Seq<DirectoryBlockEntry>, b: Seq<DirectoryBlockEntry>, name: Seq<u8>, lo: int, i: int)
    requires
        a.len() == b.len(),
        0 <= lo <= i,
        forall|j: int| lo <= j < a.len() ==> a[j] == b[j],
    ensures
        named_from(a, name, i) == named_from(b, name, i),
    decreases a.len() - i,
{
    if i < a.len() {
        lemma_named_from_same(a, b, name, lo, i + 1);
    }
}

/// Whether block `fba` of the file of inode `i` on disk `d`, if mapped, lies
/// in the data region of `f`.
pub open spec fn in_data_region(f: &FastFileSystemInner, i: Inode, d: Seq<Seq<u8>>, fba: int) -> bool {
    block_code(i, d, fba) matches Ok(w) ==> w == 0 || w >= data_start(
        f.inode_count as int,
        f.block_count as int,
        f.has_journal as int,
    )
}

/// What reading block `fba` of the file of inode `i` from disk `d` into a
/// buffer holding `b0` gives: the result `r` and the buffer `b1` after.
/// `true` and the block's bytes when it is mapped; `false`, with the buffer
/// unchanged, when it is not; the error of finding it (see [`block_code`]),
/// or [`KernelError::IOError`] when it lies past the end of the disk.
pub open spec fn read_outcome(i: Inode, d: Seq<Seq<u8>>, fba: int, b0: Seq<u8>, b1: Seq<u8>, r: Result<bool, KernelError>) -> bool {
    match block_code(i, d, fba) {
        Err(e) => r == Err::<bool, KernelError>(e) && b1 == b0,
        Ok(w) => if w == 0 {
            r == Ok::<bool, KernelError>(false) && b1 == b0
        } else if w >= d.len() {
            r == Err::<bool, KernelError>(KernelError::IOError) && b1 == b0
        } else {
            r == Ok::<bool, KernelError>(true) && b1 == d[w as int]
        },
    }
}

/// A regular file: its inode number.
#[derive(Clone, Copy)]
pub struct RegularFile {
    pub ino: InodeNumber,
}

impl RegularFile {
    /// The regular file of inode `inode`; `None` when the inode is not a
    /// regular file.
    pub fn new(inode: &Inode) -> (r: Option<RegularFile>)
        ensures
            inode.ftype == FileType::RegularFile <==> r is Some,
            r matches Some(f) ==> f.ino == inode.ino,
    {
        match inode.ftype {
            FileType::RegularFile => Some(RegularFile { ino: inode.ino }),
            FileType::Directory => None,
        }
    }

    /// Whether the file's inode is in the inode table of `ffs`, as a regular
    /// file.
    pub open spec fn wf(&self, ffs: &FastFileSystemInner) -> bool {
        &&& ffs.wf()
        &&& self.ino@ < ffs.inode_count
        &&& ffs.inodes@[self.ino@ as int] matches Some(i) && i.ftype == FileType::RegularFile
    }

    /// The inode of the file.
    pub open spec fn inode(&self, ffs: &FastFileSystemInner) -> Inode {
        ffs.inodes@[self.ino@ as int]->Some_0
    }

    /// Whether the file's inode is in the inode table of `ffs`, as a regular
    /// file.
    pub fn is_open(&self, ffs: &FastFileSystemInner) -> (r: bool)
        requires
            ffs.wf(),
        ensures
            r == self.wf(ffs),
    {
        let n = self.ino.into_u32() as usize;
        if n >= ffs.inode_count {
            return false;
        }
        match ffs.inodes[n] {
            Some(i) => match i.ftype {
                FileType::RegularFile => true,
                FileType::Directory => false,
            },
            None => false,
        }
    }

    /// The inode number of the file.
    pub fn ino(&self) -> (r: InodeNumber)
        ensures
            r == self.ino,
    {
        self.ino
    }

    /// The size of the file in bytes.
    pub fn size(&self, ffs: &FastFileSystemInner) -> (r: usize)
        requires
            self.wf(ffs),
        ensures
            r == self.inode(ffs).size,
    {
        match ffs.inodes[self.ino.into_u32() as usize] {
            Some(i) => i.size,
            None => 0,
        }
    }

    /// Reads block `fba` of the file into `buf`: `true` when the block is
    /// allocated, `false` (with `buf` unchanged) when it is not, or the error
    /// of finding it (see [`Inode::get`]); [`KernelError::IOError`] when it
    /// lies past the end of the disk.
    pub fn read(&self, ffs: &FastFileSystemInner, disk: &Disk, fba: FileBlockNumber, buf: &mut [u8; 4096]) -> (r: Result<
        bool,
        KernelError,
    >)
        requires
            self.wf(ffs),
            in_data_region(ffs, self.inode(ffs), disk@, fba.0 as int),
        ensures
            read_outcome(self.inode(ffs), disk@, fba.0 as int, old(buf)@, final(buf)@, r),
    {
        let inode = match ffs.inodes[self.ino.into_u32() as usize] {
            Some(i) => i,
            None => {
                assert(false);
                return Err(KernelError::NoSuchEntry);
            },
        };
        match inode.get(disk, fba) {
            Err(e) => Err(e),
            Ok(None) => Ok(false),
            Ok(Some(lba)) => {
                let n = lba.into_u64();
                if n >= disk.blocks.len() as u64 {
                    return Err(KernelError::IOError);
                }
                *buf = disk.read_block(n as usize);
                Ok(true)
            },
        }
    }
}

/// Inode `i` grown to at least `min_size` bytes.
pub open spec fn resized(i: Inode, min_size: usize) -> Inode {
    Inode { size: if min_size > i.size { min_size } else { i.size }, ..i }
}

/// The first block whose bit is clear in the block bitmap `bits`.
pub open spec fn first_free(bits: Seq<Seq<bool>>) -> int {
    choose|a: int| 0 <= a < bit_count(bits) && !bit(bits, a) && all_set_below(bits, a)
}

/// Whether `after` is `before` with only, at most, its allocation state,
/// its inode table, the inode array entry of inode `ino` (which then holds
/// the on-disk form of the inode in `after`'s table) and its journal
/// changed.
pub open spec fn inode_rewritten(before: &FastFileSystemInner, after: &FastFileSystemInner, ino: int) -> bool {
    &&& after.block_count == before.block_count
    &&& after.inode_count == before.inode_count
    &&& after.has_journal == before.has_journal
    &&& after.debug_journal == before.debug_journal
    &&& after.inode_bitmap@ == before.inode_bitmap@
    &&& after.inode_array@.len() == before.inode_array@.len()
    &&& after.inodes@[ino] matches Some(i) && encodes_inode(i, array_entry(after, ino))
    &&& forall|n: int|
        1 <= n <= before.inode_array@.len() * 16 && n != ino ==> #[trigger] array_entry(after, n) == array_entry(
            before,
            n,
        )
}

/// Whether `after` holds the same file system as `before`.
pub open spec fn unchanged(before: &FastFileSystemInner, after: &FastFileSystemInner) -> bool {
    &&& unchanged_but_journal(before, after)
    &&& after.journal == before.journal
}

/// Whether `after` holds the same file system as `before`, but for the
/// journal.
pub open spec fn unchanged_but_journal(before: &FastFileSystemInner, after: &FastFileSystemInner) -> bool {
    &&& after.block_count == before.block_count
    &&& after.inode_count == before.inode_count
    &&& after.has_journal == before.has_journal
    &&& after.debug_journal == before.debug_journal
    &&& after.sb == before.sb
    &&& after.inode_bitmap@ == before.inode_bitmap@
    &&& after.block_bitmap@ == before.block_bitmap@
    &&& after.inode_array@ == before.inode_array@
    &&& after.inodes@ == before.inodes@
}

/// Whether inode `b` is inode `a` with direct block `fba` at block `lba`.
pub open spec fn with_dblock(a: Inode, b: Inode, fba: int, lba: int) -> bool {
    &&& b.ino == a.ino
    &&& b.ftype == a.ftype
    &&& b.size == a.size
    &&& b.link_count == a.link_count
    &&& b.iblock == a.iblock
    &&& b.diblock == a.diblock
    &&& lba_code(b.dblocks@[fba]) == lba
    &&& forall|k: int| 0 <= k < 12 && k != fba ==> #[trigger] b.dblocks@[k] == a.dblocks@[k]
}

/// The codes of the direct blocks of inode `i` (0 for none).
pub open spec fn dcodes(i: Inode) -> Seq<int> {
    Seq::new(12, |k: int| lba_code(i.dblocks@[k]) as int)
}

/// Direct blocks `k ..= until` of a file whose direct block codes are
/// `codes`, filled in order: each one that is not mapped takes the first
/// free block of `bits`, which is then marked in use. The bitmap and the
/// codes after, and the blocks taken, in order; `None` when no block is
/// free for one of them.
pub open spec fn fill(bits: Seq<Seq<bool>>, codes: Seq<int>, k: int, until: int) -> Option<
    (Seq<Seq<bool>>, Seq<int>, Seq<int>),
>
    decreases until + 1 - k,
{
    if k > until || k < 0 {
        Some((bits, codes, Seq::<int>::empty()))
    } else if codes[k] != 0 {
        fill(bits, codes, k + 1, until)
    } else if all_set_below(bits, bit_count(bits)) {
        None
    } else {
        let a = first_free(bits);
        match fill(set_bit(bits, a), codes.update(k, a), k + 1, until) {
            Some((b2, c2, taken)) => Some((b2, c2, seq![a] + taken)),
            None => None,
        }
    }
}

/// Whether inode `b` is inode `a` with the direct block codes `codes`.
pub open spec fn with_dcodes(a: Inode, b: Inode, codes: Seq<int>) -> bool {
    &&& b.ino == a.ino
    &&& b.ftype == a.ftype
    &&& b.size == a.size
    &&& b.link_count == a.link_count
    &&& b.iblock == a.iblock
    &&& b.diblock == a.diblock
    &&& dcodes(b) == codes
}

/// What writing `buf` to block `fba` of the regular file of inode `ino`,
/// growing the file to at least `min_size` bytes, does from file system
/// `f0` and disk `d0`: the result `r`, the file system `f1` and the disk
/// `d1` after.
///
/// [`KernelError::InvalidArgument`] when the block lies past the end of
/// the grown file. When the grown file maps the block, the data is
/// written there, then the inode, if it grew, is committed. When it does
/// not, the file grows: each direct block up to it that is not mapped
/// takes, in order, the first free block (see [`fill`]); the data is
/// written to the block, then the block bitmap blocks of the blocks taken,
/// the superblock and the inode are committed.
/// [`KernelError::InvalidArgument`] past the direct blocks, and
/// [`KernelError::NoSpace`] when the free blocks run out (the blocks taken
/// until then stay marked in use in memory). The error of
/// finding the block, and [`KernelError::IOError`] when the block lies past
/// the end of the disk. The commit is [`transact`].
pub open spec fn write_outcome(
    f0: &FastFileSystemInner,
    f1: &FastFileSystemInner,
    d0: Seq<Seq<u8>>,
    d1: Seq<Seq<u8>>,
    ino: int,
    fba: int,
    buf: Seq<u8>,
    min_size: usize,
    r: Result<(), KernelError>,
) -> bool {
    let i = f0.inodes@[ino]->Some_0;
    let g = resized(i, min_size);
    let jst = journal_start(f0.inode_count as int, f0.block_count as int);
    let bits = block_bits(f0.block_bitmap@);
    if 4096 * fba >= g.size {
        r == Err::<(), KernelError>(KernelError::InvalidArgument) && unchanged(f0, f1) && d1 == d0
    } else {
        match block_code(g, d0, fba) {
            Err(e) => r == Err::<(), KernelError>(e) && unchanged(f0, f1) && d1 == d0,
            Ok(w) => if w != 0 {
                if w >= d0.len() {
                    r == Err::<(), KernelError>(KernelError::IOError) && unchanged(f0, f1) && d1 == d0
                } else {
                    &&& if g.size == i.size {
                        unchanged_but_journal(f0, f1)
                    } else {
                        &&& inode_rewritten(f0, f1, ino)
                        &&& f1.sb == f0.sb
                        &&& f1.block_bitmap@ == f0.block_bitmap@
                        &&& f1.inodes@ == f0.inodes@.update(ino, Some(g))
                    }
                    &&& (r, d1, f1.journal) == transact(
                        f0.journal,
                        d0.update(w as int, buf),
                        jst,
                        if g.size == i.size {
                            seq![]
                        } else {
                            seq![inode_array_write(f1, ino)]
                        },
                    )
                }
            } else if fba >= 12 {
                r == Err::<(), KernelError>(KernelError::InvalidArgument) && unchanged(f0, f1) && d1 == d0
            } else {
                match fill(bits, dcodes(g), 0, fba) {
                    None => {
                        &&& r == Err::<(), KernelError>(KernelError::NoSpace)
                        &&& d1 == d0
                        &&& all_set_below(block_bits(f1.block_bitmap@), bit_count(block_bits(f1.block_bitmap@)))
                        &&& f1.sb == SuperBlock { block_count_inused: f1.sb.block_count_inused, ..f0.sb }
                        &&& f1.inodes@ == f0.inodes@
                        &&& f1.inode_array@ == f0.inode_array@
                        &&& f1.inode_bitmap@ == f0.inode_bitmap@
                        &&& f1.journal == f0.journal
                        &&& f1.block_count == f0.block_count
                        &&& f1.inode_count == f0.inode_count
                        &&& f1.has_journal == f0.has_journal
                        &&& f1.debug_journal == f0.debug_journal
                    },
                    Some((bits2, codes2, taken)) => {
                        let a = codes2[fba];
                        &&& block_bits(f1.block_bitmap@) == bits2
                        &&& f1.sb == SuperBlock {
                            block_count_inused: (f0.sb.block_count_inused + taken.len()) as u64,
                            ..f0.sb
                        }
                        &&& if a >= d0.len() {
                            &&& r == Err::<(), KernelError>(KernelError::IOError)
                            &&& d1 == d0
                            &&& f1.inodes@ == f0.inodes@
                            &&& f1.inode_array@ == f0.inode_array@
                            &&& f1.inode_bitmap@ == f0.inode_bitmap@
                            &&& f1.journal == f0.journal
                            &&& f1.block_count == f0.block_count
                            &&& f1.inode_count == f0.inode_count
                            &&& f1.has_journal == f0.has_journal
                            &&& f1.debug_journal == f0.debug_journal
                        } else {
                            &&& inode_rewritten(f0, f1, ino)
                            &&& f1.inodes@[ino] matches Some(g2) && with_dcodes(g, g2, codes2)
                            &&& f1.inodes@ == f0.inodes@.update(ino, f1.inodes@[ino])
                            &&& (r, d1, f1.journal) == transact(
                                f0.journal,
                                d0.update(a, buf),
                                jst,
                                Seq::new(taken.len(), |t: int| block_bitmap_write(f1, taken[t])) + seq![
                                    superblock_write(f1),
                                    inode_array_write(f1, ino),
                                ],
                            )
                        }
                    },
                }
            },
        }
    }
}

/// A block written to a file reads back as the bytes written: on a file
/// system without a journal whose metadata blocks are marked in use, for a
/// direct block that, if mapped, lies in the data region.
#[verifier::rlimit(60)]
pub proof fn lemma_read_after_write(
    f0: &FastFileSystemInner,
    f1: &FastFileSystemInner,
    d0: Seq<Seq<u8>>,
    d1: Seq<Seq<u8>>,
    ino: int,
    fba: int,
    buf: Seq<u8>,
    min_size: usize,
    b0: Seq<u8>,
    b1: Seq<u8>,
    r: Result<bool, KernelError>,
)
    requires
        f0.wf(),
        f0.journal is None,
        0 <= fba < 12,
        1 <= ino < f0.inode_count,
        f0.inodes@[ino] is Some,
        all_set_below(
            block_bits(f0.block_bitmap@),
            data_start(f0.inode_count as int, f0.block_count as int, f0.has_journal as int),
        ),
        in_data_region(f0, resized(f0.inodes@[ino]->Some_0, min_size), d0, fba),
        write_outcome(f0, f1, d0, d1, ino, fba, buf, min_size, Ok(())),
        read_outcome(f1.inodes@[ino]->Some_0, d1, fba, b0, b1, r),
    ensures
        r == Ok::<bool, KernelError>(true),
        b1 == buf,
{
    let i = f0.inodes@[ino]->Some_0;
    let g = resized(i, min_size);
    let ds = data_start(f0.inode_count as int, f0.block_count as int, f0.has_journal as int);
    let bits = block_bits(f0.block_bitmap@);
    lemma_layout_bounds(f0.inode_count as int, f0.block_count as int, f0.has_journal as int);
    let arr = inode_array_write(f1, ino).0;
    assert(arr < ds) by {
        let ic = f0.inode_count as int;
        assert((ino - 1) / 16 < (ic + 15) / 16) by (nonlinear_arith)
            requires
                1 <= ino < ic,
        ;
        assert((256 * ic + 4095) / 4096 == (ic + 15) / 16) by (nonlinear_arith)
            requires
                ic >= 0,
        ;
    }
    assert(block_code(g, d0, fba) == Ok::<u64, KernelError>(lba_code(g.dblocks@[fba])));
    let w = lba_code(g.dblocks@[fba]);
    if w != 0 {
        assert(w >= ds);
        let tx = if g.size == i.size {
            Seq::<(int, Seq<u8>)>::empty()
        } else {
            seq![inode_array_write(f1, ino)]
        };
        let dm = d0.update(w as int, buf);
        assert(tx_ok(tx, dm.len() as int));
        assert(d1 == apply(dm, tx));
        assert forall|k: int| 0 <= k < tx.len() implies tx[k].0 != w by {}
        lemma_apply_none(dm, tx, w as int);
        lemma_apply_len(dm, tx);
        assert(f1.inodes@[ino]->Some_0 == g);
        assert(block_code(g, d1, fba) == Ok::<u64, KernelError>(w));
        assert(d1[w as int] == buf);
        assert(d1.len() == d0.len());
        assert(w < d1.len());
        assert(r == Ok::<bool, KernelError>(true));
    } else {
        let codes = dcodes(g);
        assert forall|i: int| 0 <= i < bits.len() implies #[trigger] bits[i].len() == 32768 by {
            f0.block_bitmap@[i].lemma_len();
        }
        lemma_fill(bits, codes, 0, fba, ds);
        let (bits2, codes2, taken) = fill(bits, codes, 0, fba)->Some_0;
        let a = codes2[fba] as int;
        assert(a >= ds);
        let g2 = f1.inodes@[ino]->Some_0;
        assert(with_dcodes(g, g2, codes2));
        assert(lba_code(g2.dblocks@[fba]) == dcodes(g2)[fba]);
        assert(block_code(g2, d1, fba) == Ok::<u64, KernelError>(a as u64));
        let tx = Seq::new(taken.len(), |t: int| block_bitmap_write(f1, taken[t])) + seq![
            superblock_write(f1),
            inode_array_write(f1, ino),
        ];
        let dm = d0.update(a, buf);
        assert(tx_ok(tx, dm.len() as int));
        assert(d1 == apply(dm, tx));
        assert forall|k: int| 0 <= k < tx.len() implies tx[k].0 != a by {
            if k < taken.len() {
                assert(taken[k] / 32768 < f0.block_bitmap@.len()) by (nonlinear_arith)
                    requires
                        0 <= taken[k] < f0.block_bitmap@.len() * 32768,
                ;
            }
        }
        lemma_apply_none(dm, tx, a);
        lemma_apply_len(dm, tx);
        assert(d1[a] == buf);
        assert(a < d0.len());
        assert(r == Ok::<bool, KernelError>(true));
    }
}

/// What filling the direct blocks takes: each block that was not mapped
/// gets a block past `ds`, below the bitmap's end, when every block below
/// `ds` is marked in use; the mapped ones and those outside the range keep
/// their codes.
proof fn lemma_fill(bits: Seq<Seq<bool>>, codes: Seq<int>, k: int, until: int, ds: int)
    requires
        0 <= k,
        until < 12,
        codes.len() == 12,
        all_set_below(bits, ds),
        forall|i: int| 0 <= i < bits.len() ==> #[trigger] bits[i].len() == 32768,
        fill(bits, codes, k, until) is Some,
    ensures
        ({
            let (b2, c2, t) = fill(bits, codes, k, until)->Some_0;
            &&& c2.len() == 12
            &&& forall|j: int| 0 <= j < 12 && !(k <= j <= until) ==> c2[j] == codes[j]
            &&& forall|j: int| k <= j <= until && codes[j] != 0 ==> c2[j] == codes[j]
            &&& forall|j: int| k <= j <= until && codes[j] == 0 ==> ds <= c2[j] < bit_count(bits)
            &&& forall|x: int| 0 <= x < t.len() ==> ds <= #[trigger] t[x] < bit_count(bits)
        }),
    decreases until + 1 - k,
{
    if k > until {
    } else if codes[k] != 0 {
        lemma_fill(bits, codes, k + 1, until, ds);
    } else {
        lemma_min_clear(bits, bit_count(bits));
        let a = first_free(bits);
        assert(0 <= a < bit_count(bits) && !bit(bits, a) && all_set_below(bits, a));
        assert(a >= ds) by {
            if a < ds {
                assert(bit(bits, a));
            }
        }
        let nb = set_bit(bits, a);
        lemma_set_bit_keeps(bits, a);
        assert(bit_count(nb) == bit_count(bits));
        assert(all_set_below(nb, ds)) by {
            assert forall|h: int| 0 <= h < ds implies #[trigger] bit(nb, h) by {
                assert(bit(bits, h));
                assert(h < bit_count(bits));
            }
        }
        let nc = codes.update(k, a);
        assert forall|i: int| 0 <= i < nb.len() implies #[trigger] nb[i].len() == 32768 by {}
        lemma_fill(nb, nc, k + 1, until, ds);
    }
}

/// Setting bit `a` keeps every bit that was set, and the bitmap's size.
proof fn lemma_set_bit_keeps(bits: Seq<Seq<bool>>, a: int)
    requires
        0 <= a < bit_count(bits),
        forall|i: int| 0 <= i < bits.len() ==> #[trigger] bits[i].len() == 32768,
    ensures
        set_bit(bits, a).len() == bits.len(),
        forall|h: int| 0 <= h < bit_count(bits) && bit(bits, h) ==> #[trigger] bit(set_bit(bits, a), h),
        bit(set_bit(bits, a), a),
{
    assert(0 <= a / 32768 < bits.len()) by (nonlinear_arith)
        requires
            0 <= a < bits.len() * 32768,
    ;
    assert forall|h: int| 0 <= h < bit_count(bits) && bit(bits, h) implies #[trigger] bit(set_bit(bits, a), h) by {
        assert(0 <= h / 32768 < bits.len()) by (nonlinear_arith)
            requires
                0 <= h < bits.len() * 32768,
        ;
        if h / 32768 == a / 32768 {
            assert(0 <= h % 32768 < 32768);
        }
    }
}

/// The shape of the metadata writes of adding an entry: the slot `k` the
/// entry takes, in directory block `k / 16`, whose write is write `p` of
/// the transaction; that block lies in the data region and every later
/// write goes to a metadata block before it.
#[verifier::rlimit(60)]
proof fn lemma_add_writes_shape(
    d0: &Directory,
    d1: &Directory,
    f0: &FastFileSystemInner,
    f1: &FastFileSystemInner,
    name: Seq<u8>,
    ino: InodeNumber,
) -> (res: (int, int))
    requires
        d0.wf(f0),
        ino@ < f0.inode_count,
        add_refusal(d0, f0, name) is None,
        add_effect(d0, d1, f0, f1, name, ino),
        forall|j: int|
            0 <= j < d0.lbas@.len() ==> #[trigger] d0.lbas@[j]@ >= data_start(
                f0.inode_count as int,
                f0.block_count as int,
                f0.has_journal as int,
            ),
        all_set_below(
            block_bits(f0.block_bitmap@),
            data_start(f0.inode_count as int, f0.block_count as int, f0.has_journal as int),
        ),
    ensures
        ({
            let (k, p) = res;
            let tx = add_writes(d0, d1, f1, ino);
            let ds = data_start(f0.inode_count as int, f0.block_count as int, f0.has_journal as int);
            &&& slot_named(d1.entries(), name) == Some(k)
            &&& d1.entries()[k].inode == Some(ino)
            &&& 0 <= k / 16 < d1.blocks@.len()
            &&& 0 <= p < tx.len()
            &&& tx[p] == dir_block_write(d1, k / 16)
            &&& d1.lbas@[k / 16]@ >= ds
            &&& forall|q: int| p < q < tx.len() ==> #[trigger] tx[q].0 < ds
            &&& forall|q: int| 0 <= q < tx.len() && q != p ==> #[trigger] tx[q].0 < ds
            &&& k / 16 == d0.blocks@.len() ==> !bit(block_bits(f0.block_bitmap@), d1.lbas@[k / 16]@ as int)
            &&& k == match free_slot(d0.entries()) {
                Some(x) => x,
                None => d0.entries().len() as int,
            }
        }),
{
    let es = d0.entries();
    let ds = data_start(f0.inode_count as int, f0.block_count as int, f0.has_journal as int);
    let bits = block_bits(f0.block_bitmap@);
    let tx = add_writes(d0, d1, f1, ino);
    lemma_layout_bounds(f0.inode_count as int, f0.block_count as int, f0.has_journal as int);
    lemma_free_from(es, 0);
    let ic = f0.inode_count as int;
    assert((256 * ic + 4095) / 4096 == (ic + 15) / 16) by (nonlinear_arith)
        requires
            ic >= 0,
    ;
    assert forall|x: int| 1 <= x < ic implies #[trigger] inode_array_write(f1, x).0 < ds by {
        assert((x - 1) / 16 < (ic + 15) / 16) by (nonlinear_arith)
            requires
                1 <= x < ic,
        ;
    }
    assert(d0.ino@ < ic);
    match free_slot(es) {
        Some(k) => {
            assert(k / 16 < d0.blocks@.len()) by (nonlinear_arith)
                requires
                    0 <= k < d0.blocks@.len() * 16,
            ;
            lemma_find_after_add(es, k, d1.entries()[k], ino, name);
            assert(d1.entries() == es.update(k, d1.entries()[k]));
            assert(d1.lbas@[k / 16]@ >= ds);
            assert forall|q: int| 0 < q < tx.len() implies #[trigger] tx[q].0 < ds by {}
            (k, 0)
        },
        None => {
            let k = es.len() as int;
            lemma_find_after_grow(es, d1.entries(), ino, name);
            assert(k / 16 == d0.blocks@.len()) by (nonlinear_arith)
                requires
                    k == d0.blocks@.len() * 16,
            ;
            assert(!all_set_below(bits, bit_count(bits)));
            lemma_min_clear(bits, bit_count(bits));
            let a = first_free(bits);
            assert(0 <= a < bit_count(bits) && !bit(bits, a) && all_set_below(bits, a));
            assert(a >= ds) by {
                if a < ds {
                    assert(bit(bits, a));
                }
            }
            assert(d1.lbas@[k / 16] == d1.lbas@.last());
            assert forall|q: int| 2 < q < tx.len() implies #[trigger] tx[q].0 < ds by {}
            let bc = f0.block_count as int;
            assert(a / 32768 < bitmap_blocks(bc)) by (nonlinear_arith)
                requires
                    0 <= a < bits.len() * 32768,
                    bits.len() == bitmap_blocks(bc),
            ;
            assert(tx[0].0 < ds);
            assert(tx[1].0 < ds);
            (k, 2)
        },
    }
}

/// The last write to block `b` is what it shows: when write `p` goes to
/// `b` and no later write does.
proof fn lemma_last_write_shows(d: Seq<Seq<u8>>, tx: Seq<(int, Seq<u8>)>, p: int, b: int)
    requires
        0 <= p < tx.len(),
        tx[p].0 == b,
        0 <= b < d.len(),
        in_range(tx, d.len() as int),
        forall|q: int| p < q < tx.len() ==> #[trigger] tx[q].0 != b,
    ensures
        apply(d, tx)[b] == tx[p].1,
        apply(d, tx).len() == d.len(),
{
    lemma_apply_at(d, tx, b);
    let lw = last_write(tx, b);
    assert(p <= lw);
    if lw > p {
        assert(tx[lw].0 != b);
    }
}

/// An added entry is on disk once committed: without a journal, the disk
/// block of the directory block that holds the entry then has that block's
/// bytes, and the entry is found under its name; when the directory's
/// blocks lie in the data region and every block before it is marked in
/// use. A disk that held the directory before the add, its blocks distinct
/// and marked in use, holds it after the add.
pub proof fn lemma_add_entry_durable(
    d0: &Directory,
    d1: &Directory,
    f0: &FastFileSystemInner,
    f1: &FastFileSystemInner,
    dk0: Seq<Seq<u8>>,
    dk1: Seq<Seq<u8>>,
    name: Seq<u8>,
    ino: InodeNumber,
    r: Result<(), KernelError>,
)
    requires
        d0.wf(f0),
        f0.journal is None,
        ino@ < f0.inode_count,
        add_refusal(d0, f0, name) is None,
        add_effect(d0, d1, f0, f1, name, ino),
        (r, dk1, f1.journal) == transact(
            f0.journal,
            dk0,
            journal_start(f0.inode_count as int, f0.block_count as int),
            add_writes(d0, d1, f1, ino),
        ),
        r is Ok,
        forall|j: int|
            0 <= j < d0.lbas@.len() ==> #[trigger] d0.lbas@[j]@ >= data_start(
                f0.inode_count as int,
                f0.block_count as int,
                f0.has_journal as int,
            ),
        all_set_below(
            block_bits(f0.block_bitmap@),
            data_start(f0.inode_count as int, f0.block_count as int, f0.has_journal as int),
        ),
    ensures
        slot_named(d1.entries(), name) matches Some(k) && {
            &&& d1.entries()[k].inode == Some(ino)
            &&& 0 <= k / 16 < d1.blocks@.len()
            &&& dk1[d1.lbas@[k / 16]@ as int] == directory_block_bytes(d1.blocks@[k / 16])
        },
        lbas_in_use(d0, f0) && dir_on_disk(d0, dk0) ==> dir_on_disk(d1, dk1),
{
    let (k, p) = lemma_add_writes_shape(d0, d1, f0, f1, name, ino);
    let tx = add_writes(d0, d1, f1, ino);
    assert(tx_ok(tx, dk0.len() as int));
    assert(dk1 == apply(dk0, tx));
    let b = d1.lbas@[k / 16]@ as int;
    assert(0 < tx[p].0 < dk0.len());
    lemma_last_write_shows(dk0, tx, p, b);
    if lbas_in_use(d0, f0) && dir_on_disk(d0, dk0) {
        lemma_add_dir_image(d0, d1, f0, f1, dk0, name, ino);
    }
}

/// What a crash during the commit of an added entry leaves, once recovery
/// has run at the next mount: the commit's writes done up to any point
/// `c`, then recovery. The directory block that holds the entry then has
/// its new bytes when the transaction's `TxEnd` was written (`c` past the
/// journaled blocks and `TxEnd`), and its old bytes otherwise: the entry
/// is there entirely or not at all.
pub proof fn lemma_add_entry_crash(
    d0: &Directory,
    d1: &Directory,
    f0: &FastFileSystemInner,
    f1: &FastFileSystemInner,
    dk0: Seq<Seq<u8>>,
    name: Seq<u8>,
    ino: InodeNumber,
    sb: JournalSb,
    tx_id: u64,
    c: int,
)
    requires
        d0.wf(f0),
        ino@ < f0.inode_count,
        add_refusal(d0, f0, name) is None,
        add_effect(d0, d1, f0, f1, name, ino),
        forall|j: int|
            0 <= j < d0.lbas@.len() ==> #[trigger] d0.lbas@[j]@ >= data_start(
                f0.inode_count as int,
                f0.block_count as int,
                f0.has_journal as int,
            ),
        all_set_below(
            block_bits(f0.block_bitmap@),
            data_start(f0.inode_count as int, f0.block_count as int, f0.has_journal as int),
        ),
        f0.has_journal != 0,
        commit_setting(
            dk0,
            journal_start(f0.inode_count as int, f0.block_count as int),
            add_writes(d0, d1, f1, ino),
        ),
        0 <= c <= commit_writes(
            journal_start(f0.inode_count as int, f0.block_count as int),
            sb,
            tx_id,
            add_writes(d0, d1, f1, ino),
        ).len(),
    ensures
        slot_named(d1.entries(), name) matches Some(k) && {
            let j = journal_start(f0.inode_count as int, f0.block_count as int);
            let tx = add_writes(d0, d1, f1, ino);
            let w = commit_writes(j, sb, tx_id, tx);
            let b = d1.lbas@[k / 16]@ as int;
            let rec = recover(apply(dk0, w.take(c)), j)->Some_0;
            &&& d1.entries()[k].inode == Some(ino)
            &&& recover(apply(dk0, w.take(c)), j) is Some
            &&& rec[b] == if c < tx.len() + 3 {
                dk0[b]
            } else {
                directory_block_bytes(d1.blocks@[k / 16])
            }
        },
{
    let (k, p) = lemma_add_writes_shape(d0, d1, f0, f1, name, ino);
    let j = journal_start(f0.inode_count as int, f0.block_count as int);
    let tx = add_writes(d0, d1, f1, ino);
    let ds = data_start(f0.inode_count as int, f0.block_count as int, f0.has_journal as int);
    lemma_layout_bounds(f0.inode_count as int, f0.block_count as int, f0.has_journal as int);
    let b = d1.lbas@[k / 16]@ as int;
    assert(0 < tx[p].0 < dk0.len());
    assert(!in_journal(b, j));
    lemma_crash_recovery(dk0, j, sb, tx_id, tx, c);
    if c >= tx.len() + 3 {
        let jw = journal_writes(j, sb, tx_id, tx);
        let w = commit_writes(j, sb, tx_id, tx);
        let last = seq![(j, journal_sb_bytes(with_flag(sb, 0)))];
        assert(w == jw + tx + last);
        lemma_apply_concat(dk0, jw + tx, last);
        lemma_apply_concat(dk0, jw, tx);
        assert(in_range(jw, dk0.len() as int)) by {
            assert forall|i: int| 0 <= i < jw.len() implies 0 <= #[trigger] jw[i].0 < dk0.len() by {
                if i == 0 {
                } else if i <= tx.len() {
                    assert(jw[i] == data_writes(j, tx)[i - 1]);
                } else {
                }
            }
        }
        lemma_apply_len(dk0, jw);
        let base = apply(dk0, jw);
        lemma_last_write_shows(base, tx, p, b);
        lemma_apply_none(apply(base, tx), last, b);
    }
}

/// Whether disk `dk` holds directory `d`: each of its blocks, encoded, at
/// the disk block that `d` maps it to.
pub open spec fn dir_on_disk(d: &Directory, dk: Seq<Seq<u8>>) -> bool {
    forall|j: int|
        0 <= j < d.blocks@.len() ==> 0 <= #[trigger] d.lbas@[j]@ < dk.len() && dk[d.lbas@[j]@ as int]
            == directory_block_bytes(d.blocks@[j])
}

/// Whether the disk blocks of directory `d` are distinct and each marked in
/// use in the block bitmap of `f`.
pub open spec fn lbas_in_use(d: &Directory, f: &FastFileSystemInner) -> bool {
    &&& forall|a: int, b: int|
        #![trigger d.lbas@[a], d.lbas@[b]]
        0 <= a < b < d.lbas@.len() ==> d.lbas@[a]@ != d.lbas@[b]@
    &&& forall|j: int| 0 <= j < d.lbas@.len() ==> bit(block_bits(f.block_bitmap@), #[trigger] d.lbas@[j]@ as int)
}

/// Block `j` of `b1` is block `j` of `b0` when their entries agree on it.
proof fn lemma_block_of_entries(b0: Seq<DirectoryBlock>, b1: Seq<DirectoryBlock>, j: int)
    requires
        0 <= j < b0.len(),
        j < b1.len(),
        forall|i: int| 16 * j <= i < 16 * j + 16 ==> #[trigger] entries_of(b1)[i] == entries_of(b0)[i],
    ensures
        b1[j] == b0[j],
{
    assert forall|t: int| 0 <= t < 16 implies #[trigger] b1[j].entries@[t] == b0[j].entries@[t] by {
        assert((16 * j + t) / 16 == j && (16 * j + t) % 16 == t && 16 * j + t < b0.len() * 16 && 16 * j + t
            < b1.len() * 16) by (nonlinear_arith)
            requires
                0 <= t < 16,
                0 <= j < b0.len(),
                j < b1.len(),
        ;
        assert(entries_of(b1)[16 * j + t] == entries_of(b0)[16 * j + t]);
    }
    assert(b1[j].entries@ =~= b0[j].entries@);
    assert(b1[j].entries =~= b0[j].entries);
}

/// The metadata writes of adding an entry, made on a disk that holds the
/// directory before the add, leave a disk that holds it after the add.
#[verifier::rlimit(60)]
proof fn lemma_add_dir_image(
    d0: &Directory,
    d1: &Directory,
    f0: &FastFileSystemInner,
    f1: &FastFileSystemInner,
    e: Seq<Seq<u8>>,
    name: Seq<u8>,
    ino: InodeNumber,
)
    requires
        d0.wf(f0),
        ino@ < f0.inode_count,
        add_refusal(d0, f0, name) is None,
        add_effect(d0, d1, f0, f1, name, ino),
        forall|j: int|
            0 <= j < d0.lbas@.len() ==> #[trigger] d0.lbas@[j]@ >= data_start(
                f0.inode_count as int,
                f0.block_count as int,
                f0.has_journal as int,
            ),
        all_set_below(
            block_bits(f0.block_bitmap@),
            data_start(f0.inode_count as int, f0.block_count as int, f0.has_journal as int),
        ),
        lbas_in_use(d0, f0),
        dir_on_disk(d0, e),
        tx_ok(add_writes(d0, d1, f1, ino), e.len() as int),
    ensures
        dir_on_disk(d1, apply(e, add_writes(d0, d1, f1, ino))),
{
    let (k, p) = lemma_add_writes_shape(d0, d1, f0, f1, name, ino);
    let tx = add_writes(d0, d1, f1, ino);
    let es = d0.entries();
    let n0 = d0.blocks@.len() as int;
    let ds = data_start(f0.inode_count as int, f0.block_count as int, f0.has_journal as int);
    let bits = block_bits(f0.block_bitmap@);
    assert(in_range(tx, e.len() as int));
    lemma_apply_len(e, tx);
    let grew = free_slot(es) is None;
    assert(grew ==> k / 16 == n0) by {
        if grew {
            assert(k == es.len());
            assert(k / 16 == n0) by (nonlinear_arith)
                requires
                    k == n0 * 16,
            ;
        }
    }
    assert(!grew ==> k / 16 < n0) by {
        if !grew {
            assert(d1.blocks@.len() == n0);
        }
    }
    assert forall|j: int| 0 <= j < d1.blocks@.len() implies 0 <= #[trigger] d1.lbas@[j]@ < apply(e, tx).len()
        && apply(e, tx)[d1.lbas@[j]@ as int] == directory_block_bytes(d1.blocks@[j]) by {
        let b = d1.lbas@[j]@ as int;
        if j == k / 16 {
            assert(tx[p].0 == b);
            lemma_last_write_shows(e, tx, p, b);
        } else {
            assert(j < n0);
            assert(d1.lbas@[j] == d0.lbas@[j]);
            assert(b >= ds);
            assert forall|i: int| 16 * j <= i < 16 * j + 16 implies #[trigger] entries_of(d1.blocks@)[i]
                == entries_of(d0.blocks@)[i] by {
                assert(i / 16 == j && i < n0 * 16) by (nonlinear_arith)
                    requires
                        16 * j <= i < 16 * j + 16,
                        0 <= j < n0,
                ;
                assert(0 <= i < es.len());
                if grew {
                    assert(d1.entries().take(es.len() as int)[i] == es[i]);
                    assert(d1.entries()[i] == es[i]);
                } else {
                    assert(i != k);
                    assert(d1.entries() == es.update(k, d1.entries()[k]));
                    assert(d1.entries()[i] == es[i]);
                }
                assert(d1.entries()[i] == entries_of(d1.blocks@)[i]);
            }
            lemma_block_of_entries(d0.blocks@, d1.blocks@, j);
            assert forall|q: int| 0 <= q < tx.len() implies #[trigger] tx[q].0 != b by {
                if q == p {
                    if grew {
                        assert(bit(bits, b));
                        assert(!bit(bits, d1.lbas@[k / 16]@ as int));
                    } else {
                        assert(d1.lbas@ == d0.lbas@);
                        if j < k / 16 {
                            assert(d0.lbas@[j]@ != d0.lbas@[k / 16]@);
                        } else {
                            assert(d0.lbas@[k / 16]@ != d0.lbas@[j]@);
                        }
                    }
                } else {
                    assert(tx[q].0 < ds);
                }
            }
            lemma_apply_none(e, tx, b);
        }
    }
}

/// A directory that the disk holds is held through a crash during the
/// commit of an added entry and the recovery at the next mount: once
/// recovery has run, the disk holds the directory as it was before the add
/// when the crash came before the transaction's `TxEnd` was written (`c`
/// short of the journaled blocks and `TxEnd`), and as it is after the add
/// otherwise. The name is found in the latter and not in the former: the
/// added entry is on disk entirely or not at all.
#[verifier::rlimit(60)]
pub proof fn lemma_add_entry_recovered(
    d0: &Directory,
    d1: &Directory,
    f0: &FastFileSystemInner,
    f1: &FastFileSystemInner,
    dk0: Seq<Seq<u8>>,
    name: Seq<u8>,
    ino: InodeNumber,
    sb: JournalSb,
    tx_id: u64,
    c: int,
)
    requires
        d0.wf(f0),
        ino@ < f0.inode_count,
        add_refusal(d0, f0, name) is None,
        add_effect(d0, d1, f0, f1, name, ino),
        forall|j: int|
            0 <= j < d0.lbas@.len() ==> #[trigger] d0.lbas@[j]@ >= data_start(
                f0.inode_count as int,
                f0.block_count as int,
                f0.has_journal as int,
            ),
        all_set_below(
            block_bits(f0.block_bitmap@),
            data_start(f0.inode_count as int, f0.block_count as int, f0.has_journal as int),
        ),
        lbas_in_use(d0, f0),
        dir_on_disk(d0, dk0),
        f0.has_journal != 0,
        commit_setting(
            dk0,
            journal_start(f0.inode_count as int, f0.block_count as int),
            add_writes(d0, d1, f1, ino),
        ),
        0 <= c <= commit_writes(
            journal_start(f0.inode_count as int, f0.block_count as int),
            sb,
            tx_id,
            add_writes(d0, d1, f1, ino),
        ).len(),
    ensures
        ({
            let j = journal_start(f0.inode_count as int, f0.block_count as int);
            let tx = add_writes(d0, d1, f1, ino);
            let w = commit_writes(j, sb, tx_id, tx);
            let rec = recover(apply(dk0, w.take(c)), j)->Some_0;
            &&& recover(apply(dk0, w.take(c)), j) is Some
            &&& slot_named(d0.entries(), name) is None
            &&& slot_named(d1.entries(), name) matches Some(k) && d1.entries()[k].inode == Some(ino)
            &&& if c < tx.len() + 3 {
                dir_on_disk(d0, rec)
            } else {
                dir_on_disk(d1, rec)
            }
        }),
{
    let (k, p) = lemma_add_writes_shape(d0, d1, f0, f1, name, ino);
    let j = journal_start(f0.inode_count as int, f0.block_count as int);
    let tx = add_writes(d0, d1, f1, ino);
    let w = commit_writes(j, sb, tx_id, tx);
    let ds = data_start(f0.inode_count as int, f0.block_count as int, f0.has_journal as int);
    lemma_layout_bounds(f0.inode_count as int, f0.block_count as int, f0.has_journal as int);
    lemma_crash_recovery(dk0, j, sb, tx_id, tx, c);
    let rec = recover(apply(dk0, w.take(c)), j)->Some_0;
    if c < tx.len() + 3 {
        assert forall|i: int| 0 <= i < d0.blocks@.len() implies 0 <= #[trigger] d0.lbas@[i]@ < rec.len()
            && rec[d0.lbas@[i]@ as int] == directory_block_bytes(d0.blocks@[i]) by {
            let b = d0.lbas@[i]@ as int;
            assert(!in_journal(b, j));
        }
    } else {
        let jw = journal_writes(j, sb, tx_id, tx);
        let last = seq![(j, journal_sb_bytes(with_flag(sb, 0)))];
        assert(w == jw + tx + last);
        lemma_apply_concat(dk0, jw + tx, last);
        lemma_apply_concat(dk0, jw, tx);
        assert(in_range(jw, dk0.len() as int)) by {
            assert forall|i: int| 0 <= i < jw.len() implies 0 <= #[trigger] jw[i].0 < dk0.len() by {
                if i == 0 {
                } else if i <= tx.len() {
                    assert(jw[i] == data_writes(j, tx)[i - 1]);
                } else {
                }
            }
        }
        lemma_apply_len(dk0, jw);
        let base = apply(dk0, jw);
        assert forall|i: int| 0 <= i < d0.blocks@.len() implies 0 <= #[trigger] d0.lbas@[i]@ < base.len()
            && base[d0.lbas@[i]@ as int] == directory_block_bytes(d0.blocks@[i]) by {
            let b = d0.lbas@[i]@ as int;
            assert forall|q: int| 0 <= q < jw.len() implies #[trigger] jw[q].0 != b by {
                if 1 <= q <= tx.len() {
                    assert(jw[q] == data_writes(j, tx)[q - 1]);
                }
            }
            lemma_apply_none(dk0, jw, b);
        }
        lemma_add_dir_image(d0, d1, f0, f1, base, name, ino);
        let after = apply(base, tx);
        assert(in_range(tx, base.len() as int));
        lemma_apply_len(base, tx);
        assert forall|i: int| 0 <= i < d1.blocks@.len() implies 0 <= #[trigger] d1.lbas@[i]@ < rec.len()
            && rec[d1.lbas@[i]@ as int] == directory_block_bytes(d1.blocks@[i]) by {
            let b = d1.lbas@[i]@ as int;
            assert(b >= ds) by {
                if i < d0.blocks@.len() {
                    assert(d1.lbas@[i] == d0.lbas@[i]);
                } else {
                    assert(i == k / 16);
                }
            }
            assert(!in_journal(b, j));
            lemma_apply_none(after, last, b);
        }
    }
}

/// Some bit below `n` is clear, so there is a first one.
proof fn lemma_min_clear(bits: Seq<Seq<bool>>, n: int)
    requires
        0 <= n,
        !all_set_below(bits, n),
    ensures
        exists|a: int| 0 <= a < n && !bit(bits, a) && all_set_below(bits, a),
    decreases n,
{
    if all_set_below(bits, n - 1) {
        assert(!bit(bits, n - 1));
        assert(0 <= n - 1 < n && !bit(bits, n - 1) && all_set_below(bits, n - 1));
    } else {
        lemma_min_clear(bits, n - 1);
        let a = choose|a: int| 0 <= a < n - 1 && !bit(bits, a) && all_set_below(bits, a);
        assert(0 <= a < n && !bit(bits, a) && all_set_below(bits, a));
    }
}

/// The first free block is the one before which every bit is set.
proof fn lemma_first_free(bits: Seq<Seq<bool>>, a: int)
    requires
        0 <= a < bit_count(bits),
        !bit(bits, a),
        all_set_below(bits, a),
    ensures
        first_free(bits) == a,
{
    let b = first_free(bits);
    assert(0 <= b < bit_count(bits) && !bit(bits, b) && all_set_below(bits, b));
    if b < a {
        assert(bit(bits, b));
    }
    if a < b {
        assert(bit(bits, a));
    }
}

impl RegularFile {
    /// Writes `buf` to block `fba` of the file, growing the file to at
    /// least `min_size` bytes: see [`write_outcome`]. The data goes to its
    /// block directly; the changed metadata is committed as one
    /// transaction.
    pub fn write(&self, ffs: &mut FastFileSystemInner, disk: &mut Disk, fba: FileBlockNumber, buf: &[u8; 4096], min_size: usize) -> (r: Result<
        (),
        KernelError,
    >)
        requires
            self.wf(old(ffs)),
            old(ffs).journal matches Some(jn) ==> jn.sb.tx_id < u64::MAX,
            old(ffs).block_bitmap@.len() > 0 ==> old(ffs).block_bitmap@[0]@[0],
            old(ffs).sb.block_count_inused + 12 < u64::MAX,
        ensures
            write_outcome(old(ffs), final(ffs), old(disk)@, final(disk)@, self.ino@ as int, fba.0 as int, buf@, min_size, r),
            self.wf(final(ffs)),
    {
        let n = self.ino.into_u32() as usize;
        let inode = match ffs.inodes[n] {
            Some(i) => i,
            None => {
                assert(false);
                return Err(KernelError::NoSuchEntry);
            },
        };
        let new_size = if min_size > inode.size {
            min_size
        } else {
            inode.size
        };
        if fba.0 > usize::MAX / 4096 || 4096 * fba.0 >= new_size {
            return Err(KernelError::InvalidArgument);
        }
        let mut g = inode;
        g.size = new_size;
        assert(g == resized(inode, min_size));
        match g.get(disk, fba) {
            Err(e) => Err(e),
            Ok(Some(lba)) => self.write_mapped(ffs, disk, fba, buf, min_size, g, lba),
            Ok(None) => self.write_unmapped(ffs, disk, fba, buf, min_size, g),
        }
    }

    /// [`RegularFile::write`] where the grown inode `g` maps the block to
    /// `lba`.
    fn write_mapped(
        &self,
        ffs: &mut FastFileSystemInner,
        disk: &mut Disk,
        fba: FileBlockNumber,
        buf: &[u8; 4096],
        min_size: usize,
        g: Inode,
        lba: LogicalBlockAddress,
    ) -> (r: Result<(), KernelError>)
        requires
            self.wf(old(ffs)),
            old(ffs).journal matches Some(jn) ==> jn.sb.tx_id < u64::MAX,
            g == resized(self.inode(old(ffs)), min_size),
            4096 * fba.0 < g.size,
            block_code(g, old(disk)@, fba.0 as int) == Ok::<u64, KernelError>(lba@),
        ensures
            write_outcome(old(ffs), final(ffs), old(disk)@, final(disk)@, self.ino@ as int, fba.0 as int, buf@, min_size, r),
            self.wf(final(ffs)),
    {
        let ino = self.ino;
        let n = ino.into_u32() as usize;
        let grew = g.size != ffs.inodes[n].unwrap().size;
        proof {
            use_type_invariant(&lba);
        }
        let w = lba.into_u64();
        if w >= disk.blocks.len() as u64 {
            return Err(KernelError::IOError);
        }
        disk.write_block(w as usize, buf);
        let ghost d_mid = disk@;
        let mut blocks: Vec<(LogicalBlockAddress, [u8; 4096])> = Vec::new();
        assert(old(ffs).inodes@[n as int] is Some);
        assert(g.ino@ == n);
        if grew {
            ffs.write_inode(g);
            let b = ffs.inode_array_block(ino);
            blocks.push(b);
            assert(tx_view(blocks@) =~= seq![inode_array_write(ffs, n as int)]);
        } else {
            assert(tx_view(blocks@) =~= Seq::<(int, Seq<u8>)>::empty());
        }
        let ghost mid = *ffs;
        let ghost tv = tx_view(blocks@);
        let r = ffs.commit_meta(disk, blocks);
        proof {
            assert(d_mid == old(disk)@.update(w as int, buf@));
            let i = old(ffs).inodes@[n as int]->Some_0;
            if grew {
                assert(inode_array_write(ffs, n as int) == inode_array_write(&mid, n as int));
                assert(tv == seq![inode_array_write(ffs, n as int)]);
                assert(ffs.inode_array@ == mid.inode_array@);
                assert forall|k: int| #[trigger] array_entry(ffs, k) == array_entry(&mid, k) by {}
                assert(inode_rewritten(old(ffs), ffs, n as int));
            } else {
                assert(g.size == i.size);
                assert(unchanged_but_journal(old(ffs), ffs));
            }
            assert((r, disk@, ffs.journal) == transact(
                old(ffs).journal,
                old(disk)@.update(w as int, buf@),
                journal_start(old(ffs).inode_count as int, old(ffs).block_count as int),
                if g.size == i.size {
                    seq![]
                } else {
                    seq![inode_array_write(ffs, n as int)]
                },
            ));
        }
        r
    }

    /// [`RegularFile::write`] where the grown inode `g` maps no block
    /// there.
    #[verifier::rlimit(60)]
    fn write_unmapped(
        &self,
        ffs: &mut FastFileSystemInner,
        disk: &mut Disk,
        fba: FileBlockNumber,
        buf: &[u8; 4096],
        min_size: usize,
        g: Inode,
    ) -> (r: Result<(), KernelError>)
        requires
            self.wf(old(ffs)),
            old(ffs).journal matches Some(jn) ==> jn.sb.tx_id < u64::MAX,
            old(ffs).block_bitmap@.len() > 0 ==> old(ffs).block_bitmap@[0]@[0],
            old(ffs).sb.block_count_inused + 12 < u64::MAX,
            g == resized(self.inode(old(ffs)), min_size),
            4096 * fba.0 < g.size,
            block_code(g, old(disk)@, fba.0 as int) == Ok::<u64, KernelError>(0),
        ensures
            write_outcome(old(ffs), final(ffs), old(disk)@, final(disk)@, self.ino@ as int, fba.0 as int, buf@, min_size, r),
            self.wf(final(ffs)),
    {
        let ino = self.ino;
        let n = ino.into_u32() as usize;
        if fba.0 >= 12 {
            return Err(KernelError::InvalidArgument);
        }
        let ghost bits0 = block_bits(old(ffs).block_bitmap@);
        let ghost whole = fill(bits0, dcodes(g), 0, fba.0 as int);
        let mut g2 = g;
        let mut taken: Vec<LogicalBlockAddress> = Vec::new();
        let mut k: usize = 0;
        while k <= fba.0
            invariant
                fba.0 < 12,
                self.wf(old(ffs)),
                g == resized(self.inode(old(ffs)), min_size),
                4096 * fba.0 < g.size,
                block_code(g, old(disk)@, fba.0 as int) == Ok::<u64, KernelError>(0),
                disk@ == old(disk)@,
                bits0 == block_bits(old(ffs).block_bitmap@),
                whole == fill(bits0, dcodes(g), 0, fba.0 as int),
                k <= fba.0 + 1,
                ffs.wf(),
                ffs.block_bitmap@.len() == old(ffs).block_bitmap@.len(),
                ffs.block_bitmap@.len() > 0 ==> ffs.block_bitmap@[0]@[0],
                ffs.sb == (SuperBlock { block_count_inused: (old(ffs).sb.block_count_inused + taken@.len()) as u64, ..old(ffs).sb }),
                taken@.len() <= k,
                old(ffs).sb.block_count_inused + 12 < u64::MAX,
                ffs.inodes@ == old(ffs).inodes@,
                ffs.inode_array@ == old(ffs).inode_array@,
                ffs.inode_bitmap@ == old(ffs).inode_bitmap@,
                ffs.journal == old(ffs).journal,
                ffs.block_count == old(ffs).block_count,
                ffs.inode_count == old(ffs).inode_count,
                ffs.has_journal == old(ffs).has_journal,
                ffs.debug_journal == old(ffs).debug_journal,
                with_dcodes(g, g2, dcodes(g2)),
                forall|j: int| k <= j < 12 ==> #[trigger] g2.dblocks@[j] == g.dblocks@[j],
                forall|j: int| 0 <= j < k ==> #[trigger] g2.dblocks@[j] is Some,
                forall|t: int| 0 <= t < taken@.len() ==> 0 < #[trigger] taken@[t]@ < bit_count(bits0),
                whole == match fill(block_bits(ffs.block_bitmap@), dcodes(g2), k as int, fba.0 as int) {
                    Some((b, c, t)) => Some((b, c, taken@.map_values(|x: LogicalBlockAddress| x@ as int) + t)),
                    None => None::<(Seq<Seq<bool>>, Seq<int>, Seq<int>)>,
                },
            decreases fba.0 + 1 - k,
        {
            match g2.dblocks[k] {
                Some(l) => {
                    proof {
                        use_type_invariant(&l);
                    }
                },
                None => {},
            }
            if g2.dblocks[k].is_none() {
                let ghost bb = ffs.block_bitmap@;
                let ghost bits = block_bits(ffs.block_bitmap@);
                let ghost codes = dcodes(g2);
                assert(codes[k as int] == 0);
                let a = match ffs.allocate_block() {
                    Ok(a) => a,
                    Err(e) => {
                        proof {
                            assert(fill(bits, codes, k as int, fba.0 as int) is None);
                            assert(whole is None);
                            assert(ffs.inodes@ == old(ffs).inodes@);
                            assert(self.wf(ffs));
                        }
                        return Err(e);
                    },
                };
                proof {
                    lemma_first_free(bits, a@ as int);
                    assert forall|i: int| 0 <= i < bits.len() implies #[trigger] bits[i].len() == 32768 by {
                        bb[i].lemma_len();
                    }
                    lemma_set_bit_keeps(bits, a@ as int);
                    if ffs.block_bitmap@.len() > 0 {
                        assert(bit(bits, 0));
                        assert(bit(block_bits(ffs.block_bitmap@), 0));
                    }
                }
                let ghost tk = taken@;
                g2.dblocks[k] = Some(a);
                taken.push(a);
                proof {
                    assert(dcodes(g2) =~= codes.update(k as int, a@ as int));
                    assert(taken@.map_values(|x: LogicalBlockAddress| x@ as int) =~= tk.map_values(|x: LogicalBlockAddress| x@ as int).push(a@ as int));
                    let rest = fill(set_bit(bits, a@ as int), codes.update(k as int, a@ as int), k + 1, fba.0 as int);
                    assert(fill(bits, codes, k as int, fba.0 as int) == match rest {
                        Some((b2, c2, t2)) => Some((b2, c2, seq![a@ as int] + t2)),
                        None => None::<(Seq<Seq<bool>>, Seq<int>, Seq<int>)>,
                    });
                    match rest {
                        Some((b2, c2, t2)) => {
                            assert(tk.map_values(|x: LogicalBlockAddress| x@ as int) + (seq![a@ as int] + t2)
                                =~= taken@.map_values(|x: LogicalBlockAddress| x@ as int) + t2);
                        },
                        None => {},
                    }
                }
            }
            k = k + 1;
        }
        assert(g2.dblocks@[fba.0 as int] is Some);
        let a = g2.dblocks[fba.0].unwrap();
        let w = a.into_u64();
        if w >= disk.blocks.len() as u64 {
            return Err(KernelError::IOError);
        }
        disk.write_block(w as usize, buf);
        let ghost d_mid = disk@;
        assert(old(ffs).inodes@[n as int] is Some);
        assert(g2.ino@ == n);
        ffs.write_inode(g2);
        let mut blocks: Vec<(LogicalBlockAddress, [u8; 4096])> = Vec::new();
        let mut t: usize = 0;
        while t < taken.len()
            invariant
                t <= taken@.len(),
                blocks@.len() == t,
                ffs.wf(),
                bit_count(block_bits(ffs.block_bitmap@)) == bit_count(bits0),
                forall|u: int| 0 <= u < taken@.len() ==> 0 < #[trigger] taken@[u]@ < bit_count(bits0),
                tx_view(blocks@) == Seq::new(t as nat, |u: int| block_bitmap_write(ffs, taken@[u]@ as int)),
            decreases taken@.len() - t,
        {
            let b = ffs.block_bitmap_block(taken[t]);
            let ghost before = blocks@;
            blocks.push(b);
            proof {
                assert forall|u: int| 0 <= u < t + 1 implies #[trigger] tx_view(blocks@)[u] == block_bitmap_write(ffs, taken@[u]@ as int) by {
                    if u < t {
                        assert(blocks@[u] == before[u]);
                        assert(tx_view(before)[u] == block_bitmap_write(ffs, taken@[u]@ as int));
                    }
                }
                assert(tx_view(blocks@) =~= Seq::new((t + 1) as nat, |u: int| block_bitmap_write(ffs, taken@[u]@ as int)));
            }
            t = t + 1;
        }
        let b2 = ffs.superblock_block();
        let b3 = ffs.inode_array_block(ino);
        let ghost bm = blocks@;
        blocks.push(b2);
        blocks.push(b3);
        let ghost mid = *ffs;
        let ghost tv = tx_view(blocks@);
        let ghost tl = taken@.map_values(|x: LogicalBlockAddress| x@ as int);
        proof {
            let want = Seq::new(tl.len(), |u: int| block_bitmap_write(&mid, tl[u])) + seq![
                superblock_write(&mid),
                inode_array_write(&mid, n as int),
            ];
            assert(tv.len() == want.len());
            assert forall|u: int| 0 <= u < tv.len() implies #[trigger] tv[u] == want[u] by {
                if u < tl.len() {
                    assert(blocks@[u] == bm[u]);
                    assert(tx_view(bm)[u] == block_bitmap_write(&mid, taken@[u]@ as int));
                }
            }
            assert(tv =~= want);
        }
        let r = ffs.commit_meta(disk, blocks);
        proof {
            assert forall|u: int| 0 <= u < tl.len() implies #[trigger] block_bitmap_write(ffs, tl[u]) == block_bitmap_write(&mid, tl[u]) by {}
            assert(Seq::new(tl.len(), |u: int| block_bitmap_write(ffs, tl[u])) =~= Seq::new(tl.len(), |u: int| block_bitmap_write(&mid, tl[u])));
            assert(superblock_write(ffs) == superblock_write(&mid));
            assert(inode_array_write(ffs, n as int) == inode_array_write(&mid, n as int));
            assert(d_mid == old(disk)@.update(w as int, buf@));
            assert forall|j: int| #[trigger] array_entry(ffs, j) == array_entry(&mid, j) by {}
            assert(inode_rewritten(old(ffs), ffs, n as int));
        }
        r
    }
}

} // verus!
