//! The core of the fast file system: where each region lies on disk, and
//! the allocation of inodes and blocks.
//!
//! The disk holds, in order: the superblock (block 1), the inode bitmap
//! (from block 2), the block bitmap, the journal (when there is one), the
//! inode array and the data blocks. Bit `g` of the inode bitmap stands for
//! inode `g + 1`; bit `g` of the block bitmap stands for block `g`.
use crate::error::KernelError;
use crate::project5::ffs::bitmap::BITMAP_BITS;
use crate::project5::ffs::disk_layout;
use crate::project5::ffs::disk_layout::{BlockBitmap, InodeArray, InodeBitmap, SuperBlock};
use crate::project5::ffs::inode::{data_blocks, decode_inode, encodes_inode, freeable, Inode};
use crate::project5::ffs::codec::{
    block_bitmap_bytes, block_words, inode_array_bytes, inode_bitmap_bytes, inode_bytes, superblock_bytes,
};
use crate::project5::ffs::journal::{
    apply, checkpoint_spec, commit_writes, journal_blocks, journal_sb_bytes, journal_writes, lemma_recover_len,
    outside_journal, recover, tx_ok, tx_view, with_flag, Disk, Journal, RunningTransaction,
};
use crate::project5::ffs::bitmap::bits_of;
use crate::project5::ffs::types::{lemma_inode_number_eq, FileType, InodeNumber, LogicalBlockAddress};
use core::ops::Range;
use vstd::prelude::*;

verus! {

/// The first block of the inode bitmap.
pub const INODE_BITMAP_START: u64 = 2;

/// The blocks of the journal: its superblock, a `TxBegin` block, up to 4095
/// data blocks and a `TxEnd` block.
pub const JOURNAL_BLOCKS: u64 = 4098;

/// How many 256-byte inodes a 4 KiB block holds.
pub const INODES_PER_BLOCK: usize = 16;

/// `a / b` rounded up.
pub open spec fn div_ceil(a: int, b: int) -> int {
    (a + b - 1) / b
}

/// The number of bitmap blocks that `n` bits take.
pub open spec fn bitmap_blocks(n: int) -> int {
    div_ceil(div_ceil(n, 8), 4096)
}

/// The layout of a file system with `inode_count` inodes, `block_count`
/// blocks and a journal when `has_journal` is not zero: the first block of
/// each region, in order, and the first data block.
pub open spec fn inode_bitmap_start() -> int {
    INODE_BITMAP_START as int
}

pub open spec fn block_bitmap_start(inode_count: int) -> int {
    inode_bitmap_start() + bitmap_blocks(inode_count)
}

pub open spec fn journal_start(inode_count: int, block_count: int) -> int {
    block_bitmap_start(inode_count) + bitmap_blocks(block_count)
}

pub open spec fn inode_array_start(inode_count: int, block_count: int, has_journal: int) -> int {
    journal_start(inode_count, block_count) + if has_journal != 0 {
        JOURNAL_BLOCKS as int
    } else {
        0
    }
}

pub open spec fn data_start(inode_count: int, block_count: int, has_journal: int) -> int {
    inode_array_start(inode_count, block_count, has_journal) + div_ceil(256 * inode_count, 4096)
}

/// `a / b` rounded up.
fn div_ceil_exec(a: usize, b: usize) -> (r: usize)
    requires
        b > 0,
    ensures
        r == div_ceil(a as int, b as int),
        r <= a / b + 1,
{
    let q = a / b;
    if a % b == 0 {
        assert(div_ceil(a as int, b as int) == q) by (nonlinear_arith)
            requires
                b > 0,
                a % b == 0,
                q == a / b,
        ;
        q
    } else {
        assert(div_ceil(a as int, b as int) == q + 1) by (nonlinear_arith)
            requires
                b > 0,
                a % b != 0,
                q == a / b,
        ;
        assert(q < usize::MAX) by (nonlinear_arith)
            requires
                b > 0,
                a % b != 0,
                q == a / b,
                a <= usize::MAX,
        ;
        q + 1
    }
}

/// The number of bitmap blocks that `n` bits take.
fn bitmap_blocks_exec(n: usize) -> (r: u64)
    ensures
        r == bitmap_blocks(n as int),
        r <= n / 32768 + 2,
{
    let bytes = div_ceil_exec(n, 8);
    let blocks = div_ceil_exec(bytes, 4096);
    assert(blocks <= n / 32768 + 2) by (nonlinear_arith)
        requires
            bytes <= n / 8 + 1,
            blocks <= bytes / 4096 + 1,
    ;
    blocks as u64
}

/// Which bit of the bitmap blocks `bitmaps` is bit `g` of the whole
/// bitmap.
pub open spec fn bit(bitmaps: Seq<Seq<bool>>, g: int) -> bool {
    bitmaps[g / BITMAP_BITS as int][g % BITMAP_BITS as int]
}

/// The bitmap blocks `bitmaps` with bit `g` of the whole bitmap set.
pub open spec fn set_bit(bitmaps: Seq<Seq<bool>>, g: int) -> Seq<Seq<bool>> {
    bitmaps.update(
        g / BITMAP_BITS as int,
        bitmaps[g / BITMAP_BITS as int].update(g % BITMAP_BITS as int, true),
    )
}

/// The bitmap blocks `bitmaps` with bit `g` of the whole bitmap clear.
pub open spec fn clear_bit(bitmaps: Seq<Seq<bool>>, g: int) -> Seq<Seq<bool>> {
    bitmaps.update(
        g / BITMAP_BITS as int,
        bitmaps[g / BITMAP_BITS as int].update(g % BITMAP_BITS as int, false),
    )
}

/// The bitmap blocks `bitmaps` with the bits of `gs` cleared, one after
/// the other.
pub open spec fn clear_bits(bitmaps: Seq<Seq<bool>>, gs: Seq<u64>) -> Seq<Seq<bool>>
    decreases gs.len(),
{
    if gs.len() == 0 {
        bitmaps
    } else {
        clear_bit(clear_bits(bitmaps, gs.drop_last()), gs.last() as int)
    }
}

/// Whether bit `g` lies within the bitmap blocks `bitmaps`, each of 32768
/// bits.
pub open spec fn bit_in(bitmaps: Seq<Seq<bool>>, g: int) -> bool {
    &&& 0 <= g
    &&& g / (BITMAP_BITS as int) < bitmaps.len()
    &&& bitmaps[g / BITMAP_BITS as int].len() == BITMAP_BITS
}

/// Clearing the bits of `gs` keeps the shape of the bitmap, clears those
/// bits and keeps every other.
pub proof fn lemma_clear_bits(bitmaps: Seq<Seq<bool>>, gs: Seq<u64>, g: int)
    requires
        bit_in(bitmaps, g),
        g <= u64::MAX,
        forall|j: int| 0 <= j < gs.len() ==> bit_in(bitmaps, #[trigger] gs[j] as int),
    ensures
        clear_bits(bitmaps, gs).len() == bitmaps.len(),
        forall|b: int| 0 <= b < bitmaps.len() ==> (#[trigger] clear_bits(bitmaps, gs)[b]).len() == bitmaps[b].len(),
        bit(clear_bits(bitmaps, gs), g) == (bit(bitmaps, g) && !gs.contains(g as u64)),
    decreases gs.len(),
{
    if gs.len() > 0 {
        let init = gs.drop_last();
        assert forall|j: int| 0 <= j < init.len() implies bit_in(bitmaps, #[trigger] init[j] as int) by {
            assert(init[j] == gs[j]);
        }
        assert(gs.last() == gs[gs.len() - 1]);
        lemma_clear_bits(bitmaps, init, g);
        lemma_clear_bits(bitmaps, init, gs.last() as int);
        let h = gs.last() as int;
        let prev = clear_bits(bitmaps, init);
        assert(bit(clear_bit(prev, h), g) == (bit(prev, g) && g != h));
        if h / BITMAP_BITS as int == g / BITMAP_BITS as int && h % BITMAP_BITS as int == g % BITMAP_BITS as int {
            assert(h == BITMAP_BITS * (h / BITMAP_BITS as int) + h % BITMAP_BITS as int);
            assert(g == BITMAP_BITS * (g / BITMAP_BITS as int) + g % BITMAP_BITS as int);
        }
        assert(gs.contains(g as u64) == (init.contains(g as u64) || gs.last() == g as u64)) by {
            if gs.contains(g as u64) {
                let j = choose|j: int| 0 <= j < gs.len() && gs[j] == g as u64;
                if j < gs.len() - 1 {
                    assert(init[j] == g as u64);
                }
            }
            if init.contains(g as u64) {
                let j = choose|j: int| 0 <= j < init.len() && init[j] == g as u64;
                assert(gs[j] == g as u64);
            }
        }
    }
}

/// The bits of a sequence of inode bitmap blocks.
pub open spec fn inode_bits(v: Seq<InodeBitmap>) -> Seq<Seq<bool>> {
    v.map_values(|b: InodeBitmap| b@)
}

/// The bits of a sequence of block bitmap blocks.
pub open spec fn block_bits(v: Seq<BlockBitmap>) -> Seq<Seq<bool>> {
    v.map_values(|b: BlockBitmap| b@)
}

/// The core state of a fast file system: its geometry, its superblock, the
/// metadata blocks that allocation reads and writes (the inode bitmap, the
/// block bitmap and the inode array, in disk order), and the table of inodes
/// in use in memory, indexed by inode number.
pub struct FastFileSystemInner {
    /// Total number of blocks of the file system.
    pub block_count: usize,
    /// Total number of inodes of the file system.
    pub inode_count: usize,
    /// Whether the file system has a journal (not zero) or not (zero).
    pub has_journal: usize,
    pub sb: SuperBlock,
    pub inode_bitmap: Vec<InodeBitmap>,
    pub block_bitmap: Vec<BlockBitmap>,
    pub inode_array: Vec<InodeArray>,
    pub inodes: Vec<Option<Inode>>,
    /// Whether transactions are traced.
    pub debug_journal: bool,
    /// The journal, when the file system has one in use.
    pub journal: Option<Journal>,
}

/// The magic of a fast file system superblock: "KeOSFFS\0".
pub open spec fn sb_magic() -> Seq<u8> {
    seq![75u8, 101u8, 79u8, 83u8, 70u8, 70u8, 83u8, 0u8]
}

impl FastFileSystemInner {
    /// Whether the metadata held in memory matches the geometry: one bitmap
    /// block per 32768 inodes or blocks, one inode array block per 16
    /// inodes, and one table entry per inode, which holds that inode if
    /// anything.
    pub open spec fn wf(&self) -> bool {
        &&& self.inode_bitmap@.len() == bitmap_blocks(self.inode_count as int)
        &&& self.block_bitmap@.len() == bitmap_blocks(self.block_count as int)
        &&& self.inode_array@.len() == div_ceil(self.inode_count as int, INODES_PER_BLOCK as int)
        &&& self.inodes@.len() == self.inode_count
        &&& forall|n: int|
            0 <= n < self.inodes@.len() && self.inodes@[n] is Some ==> (#[trigger] self.inodes@[n])->Some_0.ino@
                == n
    }

    /// A file system made of its superblock and its metadata blocks, with no
    /// inode in memory and no journal; [`KernelError::FilesystemCorrupted`]
    /// when the superblock does not carry the magic.
    pub fn from_metadata(
        sb: SuperBlock,
        inode_bitmap: Vec<InodeBitmap>,
        block_bitmap: Vec<BlockBitmap>,
        inode_array: Vec<InodeArray>,
        debug_journal: bool,
    ) -> (r: Result<Self, KernelError>)
        requires
            inode_bitmap@.len() == bitmap_blocks(sb.inode_count as usize as int),
            block_bitmap@.len() == bitmap_blocks(sb.block_count as usize as int),
            inode_array@.len() == div_ceil(sb.inode_count as usize as int, INODES_PER_BLOCK as int),
        ensures
            match r {
                Ok(fs) => {
                    &&& sb.magic@ == sb_magic()
                    &&& fs.wf()
                    &&& fs.block_count == sb.block_count as usize
                    &&& fs.inode_count == sb.inode_count as usize
                    &&& fs.has_journal == sb.has_journal as usize
                    &&& fs.sb == sb
                    &&& fs.inode_bitmap@ == inode_bitmap@
                    &&& fs.block_bitmap@ == block_bitmap@
                    &&& fs.inode_array@ == inode_array@
                    &&& fs.debug_journal == debug_journal
                    &&& fs.journal is None
                    &&& forall|i: int| 0 <= i < fs.inodes@.len() ==> #[trigger] fs.inodes@[i] is None
                },
                Err(e) => sb.magic@ != sb_magic() && e == KernelError::FilesystemCorrupted(
                    "Invalid Superblock Magic",
                ),
            },
    {
        let magic = [75u8, 101u8, 79u8, 83u8, 70u8, 70u8, 83u8, 0u8];
        let mut same = true;
        let mut i: usize = 0;
        while i < 8
            invariant
                i <= 8,
                same == (forall|j: int| 0 <= j < i ==> sb.magic@[j] == magic@[j]),
            decreases 8 - i,
        {
            same = same && sb.magic[i] == magic[i];
            i = i + 1;
        }
        assert(magic@ =~= sb_magic());
        if !same {
            return Err(KernelError::FilesystemCorrupted("Invalid Superblock Magic"));
        }
        assert(sb.magic@ =~= sb_magic());
        let inode_count = sb.inode_count as usize;
        let mut inodes: Vec<Option<Inode>> = Vec::new();
        let mut k: usize = 0;
        while k < inode_count
            invariant
                k <= inode_count,
                inodes@.len() == k,
                forall|j: int| 0 <= j < k ==> #[trigger] inodes@[j] is None,
            decreases inode_count - k,
        {
            inodes.push(None);
            k = k + 1;
        }
        Ok(
            FastFileSystemInner {
                block_count: sb.block_count as usize,
                inode_count,
                has_journal: sb.has_journal as usize,
                sb,
                inode_bitmap,
                block_bitmap,
                inode_array,
                inodes,
                debug_journal,
                journal: None,
            },
        )
    }

    /// The blocks of the inode bitmap.
    pub fn inode_bitmap(&self) -> (r: Range<LogicalBlockAddress>)
        ensures
            r.start@ == inode_bitmap_start(),
            r.end@ == block_bitmap_start(self.inode_count as int),
    {
        let n = bitmap_blocks_exec(self.inode_count);
        let begin = LogicalBlockAddress::new(INODE_BITMAP_START).unwrap();
        let end = LogicalBlockAddress::new(INODE_BITMAP_START + n).unwrap();
        begin..end
    }

    /// The blocks of the block bitmap, which follows the inode bitmap.
    pub fn block_bitmap(&self) -> (r: Range<LogicalBlockAddress>)
        ensures
            r.start@ == block_bitmap_start(self.inode_count as int),
            r.end@ == journal_start(self.inode_count as int, self.block_count as int),
    {
        let begin = self.inode_bitmap().end;
        let n = bitmap_blocks_exec(self.block_count);
        proof {
            lemma_layout_bounds(self.inode_count as int, self.block_count as int, self.has_journal as int);
        }
        begin..begin.add(n as usize)
    }

    /// The blocks of the journal, which follows the block bitmap; empty
    /// when the file system has no journal.
    pub fn journal(&self) -> (r: Range<LogicalBlockAddress>)
        ensures
            r.start@ == journal_start(self.inode_count as int, self.block_count as int),
            r.end@ == inode_array_start(
                self.inode_count as int,
                self.block_count as int,
                self.has_journal as int,
            ),
    {
        let begin = self.block_bitmap().end;
        proof {
            lemma_layout_bounds(self.inode_count as int, self.block_count as int, self.has_journal as int);
        }
        if self.has_journal != 0 {
            begin..begin.add(JOURNAL_BLOCKS as usize)
        } else {
            begin..begin
        }
    }

    /// The blocks of the inode array, which follows the journal.
    pub fn inode(&self) -> (r: Range<LogicalBlockAddress>)
        ensures
            r.start@ == inode_array_start(
                self.inode_count as int,
                self.block_count as int,
                self.has_journal as int,
            ),
            r.end@ == data_start(self.inode_count as int, self.block_count as int, self.has_journal as int),
    {
        let begin = self.journal().end;
        let n = div_ceil_exec(self.inode_count, INODES_PER_BLOCK);
        proof {
            lemma_layout_bounds(self.inode_count as int, self.block_count as int, self.has_journal as int);
            assert(div_ceil(256 * self.inode_count, 4096) == div_ceil(self.inode_count as int, 16))
                by (nonlinear_arith);
        }
        begin..begin.add(n)
    }

    /// Reads data block `lba` of `disk`, which lies at or past the first
    /// data block; [`KernelError::IOError`] past the end of the disk.
    pub fn read_data_block(&self, disk: &Disk, lba: LogicalBlockAddress) -> (r: Result<[u8; 4096], KernelError>)
        requires
            data_start(self.inode_count as int, self.block_count as int, self.has_journal as int) <= lba@,
        ensures
            match r {
                Ok(b) => lba@ < disk@.len() && b@ == disk@[lba@ as int],
                Err(e) => e == KernelError::IOError && lba@ >= disk@.len(),
            },
    {
        disk.read_at(lba)
    }

    /// Writes `b` to data block `lba` of `disk`, which lies at or past the
    /// first data block; [`KernelError::IOError`], with nothing written,
    /// past the end of the disk.
    pub fn write_data_block(&self, disk: &mut Disk, lba: LogicalBlockAddress, b: &[u8; 4096]) -> (r: Result<
        (),
        KernelError,
    >)
        requires
            data_start(self.inode_count as int, self.block_count as int, self.has_journal as int) <= lba@,
        ensures
            lba@ < old(disk)@.len() ==> r is Ok && final(disk)@ == old(disk)@.update(lba@ as int, b@),
            lba@ >= old(disk)@.len() ==> r == Err::<(), KernelError>(KernelError::IOError) && final(disk)@
                == old(disk)@,
    {
        disk.write_at(lba, b)
    }

    /// Reads metadata block `lba` of `disk`; [`KernelError::IOError`] past
    /// the end of the disk.
    pub fn read_meta(&self, disk: &Disk, lba: LogicalBlockAddress) -> (r: Result<[u8; 4096], KernelError>)
        ensures
            match r {
                Ok(b) => lba@ < disk@.len() && b@ == disk@[lba@ as int],
                Err(e) => e == KernelError::IOError && lba@ >= disk@.len(),
            },
    {
        disk.read_at(lba)
    }

    /// Begins a transaction, which takes the next transaction id of the
    /// journal (see [`RunningTransaction::begin`]); nothing else changes.
    pub fn open_transaction(&mut self) -> (r: RunningTransaction)
        requires
            old(self).journal matches Some(jn) ==> jn.sb.tx_id < u64::MAX,
        ensures
            r.tx@.len() == 0,
            match old(self).journal {
                Some(jn) => r.tx_id == jn.sb.tx_id && final(self).journal == Some(
                    Journal { sb: disk_layout::JournalSb { tx_id: (jn.sb.tx_id + 1) as u64, ..jn.sb } },
                ),
                None => r.tx_id == 0 && final(self).journal == None::<Journal>,
            },
            final(self).block_count == old(self).block_count,
            final(self).inode_count == old(self).inode_count,
            final(self).has_journal == old(self).has_journal,
            final(self).sb == old(self).sb,
            final(self).inode_bitmap == old(self).inode_bitmap,
            final(self).block_bitmap == old(self).block_bitmap,
            final(self).inode_array == old(self).inode_array,
            final(self).inodes == old(self).inodes,
            final(self).debug_journal == old(self).debug_journal,
    {
        RunningTransaction::begin(&mut self.journal)
    }

    /// The first data block, which follows the inode array.
    pub fn data_block_start(&self) -> (r: LogicalBlockAddress)
        ensures
            r@ == data_start(self.inode_count as int, self.block_count as int, self.has_journal as int),
    {
        self.inode().end
    }
}

/// Every region of the layout ends before `u64::MAX`.
pub proof fn lemma_layout_bounds(inode_count: int, block_count: int, has_journal: int)
    requires
        0 <= inode_count <= usize::MAX,
        0 <= block_count <= usize::MAX,
    ensures
        inode_bitmap_start() <= block_bitmap_start(inode_count),
        block_bitmap_start(inode_count) <= journal_start(inode_count, block_count),
        journal_start(inode_count, block_count) <= inode_array_start(inode_count, block_count, has_journal),
        inode_array_start(inode_count, block_count, has_journal) <= data_start(inode_count, block_count, has_journal),
        data_start(inode_count, block_count, has_journal) < u64::MAX,
{
    assert(bitmap_blocks(inode_count) >= 0) by (nonlinear_arith)
        requires
            inode_count >= 0,
    ;
    assert(bitmap_blocks(inode_count) <= inode_count / 32768 + 2) by (nonlinear_arith)
        requires
            inode_count >= 0,
    ;
    assert(bitmap_blocks(block_count) <= block_count / 32768 + 2) by (nonlinear_arith)
        requires
            block_count >= 0,
    ;
    assert(0 <= div_ceil(256 * inode_count, 4096) <= inode_count / 16 + 1) by (nonlinear_arith)
        requires
            inode_count >= 0,
    ;
    assert(bitmap_blocks(block_count) >= 0) by (nonlinear_arith)
        requires
            block_count >= 0,
    ;
}

impl FastFileSystemInner {
    /// Where the bit of inode `ino` lies in the inode bitmap: the bitmap
    /// block and the bit within it; `None` when `ino` is not below the
    /// inode count.
    pub fn get_inode_bitmap_lba_index(&self, ino: InodeNumber) -> (r: Option<(LogicalBlockAddress, usize)>)
        ensures
            ino@ < self.inode_count ==> (r matches Some((lba, off)) && lba@ == inode_bitmap_start()
                + (ino@ - 1) / BITMAP_BITS as int && off == (ino@ - 1) % BITMAP_BITS as int),
            ino@ >= self.inode_count ==> r is None,
    {
        let n = ino.into_u32();
        if (n as usize) < self.inode_count {
            let index = (n - 1) as usize;
            let lba = LogicalBlockAddress::new(INODE_BITMAP_START).unwrap();
            Some((lba.add(index / BITMAP_BITS), index % BITMAP_BITS))
        } else {
            None
        }
    }

    /// Where inode `ino` lies in the inode array: the block and the index
    /// within it; `None` when `ino` is not below the inode count.
    pub fn get_inode_array_lba_index(&self, ino: InodeNumber) -> (r: Option<(LogicalBlockAddress, usize)>)
        ensures
            ino@ < self.inode_count ==> (r matches Some((lba, idx)) && lba@ == inode_array_start(
                self.inode_count as int,
                self.block_count as int,
                self.has_journal as int,
            ) + (ino@ - 1) / INODES_PER_BLOCK as int && idx == (ino@ - 1) % INODES_PER_BLOCK as int),
            ino@ >= self.inode_count ==> r is None,
    {
        let n = ino.into_u32();
        if (n as usize) < self.inode_count {
            let index = (n - 1) as usize;
            let start = self.inode().start;
            proof {
                lemma_layout_bounds(self.inode_count as int, self.block_count as int, self.has_journal as int);
            }
            Some((start.add(index / INODES_PER_BLOCK), index % INODES_PER_BLOCK))
        } else {
            None
        }
    }
}

/// Every bit of the whole bitmap before bit `n` is set.
pub open spec fn all_set_below(bits: Seq<Seq<bool>>, n: int) -> bool {
    forall|h: int| 0 <= h < n ==> #[trigger] bit(bits, h)
}

/// The whole bitmap of `bits` has `bits.len() * 32768` bits.
pub open spec fn bit_count(bits: Seq<Seq<bool>>) -> int {
    bits.len() * BITMAP_BITS as int
}

/// A superblock with one more block in use.
pub open spec fn one_more_block(sb: SuperBlock) -> SuperBlock {
    SuperBlock { block_count_inused: (sb.block_count_inused + 1) as u64, ..sb }
}

/// A superblock with one more inode in use.
pub open spec fn one_more_inode(sb: SuperBlock) -> SuperBlock {
    SuperBlock { inode_count_inused: (sb.inode_count_inused + 1) as u64, ..sb }
}

impl FastFileSystemInner {
    /// Allocates the first free block: it sets the block's bit in the block
    /// bitmap, counts it in the superblock and returns its address;
    /// [`KernelError::NoSpace`] when every bit is set.
    pub fn allocate_block(&mut self) -> (r: Result<LogicalBlockAddress, KernelError>)
        requires
            old(self).wf(),
            old(self).block_bitmap@.len() > 0 ==> old(self).block_bitmap@[0]@[0],
            old(self).sb.block_count_inused < u64::MAX,
        ensures
            final(self).wf(),
            final(self).block_count == old(self).block_count,
            final(self).inode_count == old(self).inode_count,
            final(self).has_journal == old(self).has_journal,
            final(self).debug_journal == old(self).debug_journal,
            final(self).journal == old(self).journal,
            final(self).inode_bitmap@ == old(self).inode_bitmap@,
            final(self).inode_array@ == old(self).inode_array@,
            final(self).inodes@ == old(self).inodes@,
            ({
                let bits = block_bits(old(self).block_bitmap@);
                match r {
                    Ok(lba) => {
                        &&& 0 < lba@ < bit_count(bits)
                        &&& !bit(bits, lba@ as int)
                        &&& all_set_below(bits, lba@ as int)
                        &&& block_bits(final(self).block_bitmap@) == set_bit(bits, lba@ as int)
                        &&& final(self).sb == one_more_block(old(self).sb)
                    },
                    Err(e) => {
                        &&& e == KernelError::NoSpace
                        &&& all_set_below(bits, bit_count(bits))
                        &&& final(self).block_bitmap@ == old(self).block_bitmap@
                        &&& final(self).sb == old(self).sb
                    },
                }
            }),
    {
        let ghost bits = block_bits(self.block_bitmap@);
        let mut i: usize = 0;
        while i < self.block_bitmap.len()
            invariant
                i <= self.block_bitmap@.len(),
                self.block_bitmap@ == old(self).block_bitmap@,
                self.sb == old(self).sb,
                self.wf(),
                self.block_count == old(self).block_count,
                self.inode_count == old(self).inode_count,
                self.has_journal == old(self).has_journal,
                self.debug_journal == old(self).debug_journal,
                self.journal == old(self).journal,
                self.inode_bitmap@ == old(self).inode_bitmap@,
                self.inode_array@ == old(self).inode_array@,
                self.inodes@ == old(self).inodes@,
                bits == block_bits(old(self).block_bitmap@),
                old(self).block_bitmap@.len() > 0 ==> old(self).block_bitmap@[0]@[0],
                old(self).sb.block_count_inused < u64::MAX,
                all_set_below(bits, i * BITMAP_BITS),
            decreases self.block_bitmap@.len() - i,
        {
            let mut pos: usize = 0;
            while pos < BITMAP_BITS
                invariant
                    i < self.block_bitmap@.len(),
                    pos <= BITMAP_BITS,
                    self.block_bitmap@ == old(self).block_bitmap@,
                    self.sb == old(self).sb,
                    self.wf(),
                    self.block_count == old(self).block_count,
                    self.inode_count == old(self).inode_count,
                    self.has_journal == old(self).has_journal,
                    self.debug_journal == old(self).debug_journal,
                    self.journal == old(self).journal,
                self.journal == old(self).journal,
                self.debug_journal == old(self).debug_journal,
                self.journal == old(self).journal,
                    self.inode_bitmap@ == old(self).inode_bitmap@,
                    self.inode_array@ == old(self).inode_array@,
                    self.inodes@ == old(self).inodes@,
                    bits == block_bits(old(self).block_bitmap@),
                    old(self).block_bitmap@.len() > 0 ==> old(self).block_bitmap@[0]@[0],
                    old(self).sb.block_count_inused < u64::MAX,
                    all_set_below(bits, i * BITMAP_BITS + pos),
                decreases BITMAP_BITS - pos,
            {
                let ghost g = i * BITMAP_BITS + pos;
                proof {
                    assert(g / BITMAP_BITS as int == i && g % BITMAP_BITS as int == pos) by (nonlinear_arith)
                        requires
                            g == i * BITMAP_BITS + pos,
                            0 <= pos < BITMAP_BITS,
                    ;
                    assert(bits[i as int] == self.block_bitmap@[i as int]@);
                }
                if !self.block_bitmap[i].is_allocated(pos) {
                    let ok = self.block_bitmap[i].try_allocate(pos);
                    proof {
                        assert(block_bits(self.block_bitmap@) =~= set_bit(bits, g));
                        assert(g < bit_count(bits)) by (nonlinear_arith)
                            requires
                                g == i * BITMAP_BITS + pos,
                                pos < BITMAP_BITS,
                                i < bits.len(),
                        ;
                        if g == 0 {
                            assert(i == 0 && pos == 0) by (nonlinear_arith)
                                requires
                                    g == i * 32768 + pos,
                                    i >= 0,
                                    pos >= 0,
                                    g == 0,
                            ;
                        }
                    }
                    self.sb.block_count_inused = self.sb.block_count_inused + 1;
                    let n = (pos as u64) + (i as u64) * (BITMAP_BITS as u64);
                    return Ok(LogicalBlockAddress::new(n).unwrap());
                }
                proof {
                    assert(bit(bits, g));
                }
                pos = pos + 1;
            }
            i = i + 1;
        }
        Err(KernelError::NoSpace)
    }
}

/// What looking inode `ino` up in `f` gives: the inode in the inode table;
/// else, when its bit is set, the valid inode that the inode array holds
/// for it. [`KernelError::NoSuchEntry`] when its bit is clear, the error of
/// a corrupt on-disk inode, or [`KernelError::FilesystemCorrupted`] when the
/// array holds another inode there.
pub open spec fn lookup_inode(f: &FastFileSystemInner, ino: InodeNumber) -> Result<Inode, KernelError> {
    match f.inodes@[ino@ as int] {
        Some(cached) => Ok(cached),
        None => if !bit(inode_bits(f.inode_bitmap@), ino@ - 1) {
            Err(KernelError::NoSuchEntry)
        } else {
            match decode_inode(array_entry(f, ino@ as int)) {
                Err(e) => Err(e),
                Ok(i) => if i.ino != ino {
                    Err(KernelError::FilesystemCorrupted("Inode number mismatch"))
                } else {
                    Ok(i)
                },
            }
        },
    }
}

/// The in-memory inode that [`Inode::new`] makes for inode `ino`.
pub open spec fn fresh_inode(ino: InodeNumber, is_dir: bool, i: Inode) -> bool {
    &&& i.ino == ino
    &&& i.ftype == (if is_dir { FileType::Directory } else { FileType::RegularFile })
    &&& i.size == 0
    &&& i.link_count == 0
    &&& forall|k: int| 0 <= k < 12 ==> #[trigger] i.dblocks@[k] is None
    &&& i.iblock is None
    &&& i.diblock is None
}

impl FastFileSystemInner {
    /// Allocates the first free inode for a file (or a directory, when
    /// `is_dir`): it sets the inode's bit in the inode bitmap, writes a new
    /// inode to the inode array, counts it in the superblock, enters it in
    /// the inode table and returns its number and the inode.
    /// [`KernelError::NoSpace`] when every bit is set;
    /// [`KernelError::FilesystemCorrupted`] when the table already holds
    /// the inode whose bit was free.
    pub fn allocate_inode(&mut self, is_dir: bool) -> (r: Result<(InodeNumber, Inode), KernelError>)
        requires
            old(self).wf(),
            old(self).inode_count <= u32::MAX,
            old(self).sb.inode_count_inused < u64::MAX,
            forall|g: int|
                0 <= g < bit_count(inode_bits(old(self).inode_bitmap@)) && !#[trigger] bit(
                    inode_bits(old(self).inode_bitmap@),
                    g,
                ) ==> g + 1 < old(self).inode_count,
        ensures
            final(self).wf(),
            final(self).block_count == old(self).block_count,
            final(self).inode_count == old(self).inode_count,
            final(self).has_journal == old(self).has_journal,
            final(self).block_bitmap@ == old(self).block_bitmap@,
            ({
                let bits = inode_bits(old(self).inode_bitmap@);
                match r {
                    Ok((ino, inode)) => {
                        let g = ino@ - 1;
                        let k = g / INODES_PER_BLOCK as int;
                        let idx = g % INODES_PER_BLOCK as int;
                        &&& 0 <= g < bit_count(bits)
                        &&& !bit(bits, g)
                        &&& all_set_below(bits, g)
                        &&& inode_bits(final(self).inode_bitmap@) == set_bit(bits, g)
                        &&& old(self).inodes@[ino@ as int] is None
                        &&& fresh_inode(ino, is_dir, inode)
                        &&& final(self).inodes@ == old(self).inodes@.update(ino@ as int, Some(inode))
                        &&& final(self).inode_array@.len() == old(self).inode_array@.len()
                        &&& forall|j: int| 0 <= j < old(self).inode_array@.len() && j != k
                            ==> #[trigger] final(self).inode_array@[j] == old(self).inode_array@[j]
                        &&& forall|j: int| 0 <= j < 16 && j != idx
                            ==> #[trigger] final(self).inode_array@[k].inodes@[j] == old(self).inode_array@[k].inodes@[j]
                        &&& encodes_inode(inode, final(self).inode_array@[k].inodes@[idx])
                        &&& final(self).sb == one_more_inode(old(self).sb)
                    },
                    Err(e) => {
                        &&& final(self).inode_array@ == old(self).inode_array@
                        &&& final(self).inodes@ == old(self).inodes@
                        &&& final(self).sb == old(self).sb
                        &&& (e == KernelError::NoSpace && all_set_below(bits, bit_count(bits))
                            && final(self).inode_bitmap@ == old(self).inode_bitmap@
                            || (e == KernelError::FilesystemCorrupted("Allocate to existing inode.")
                                && exists|g: int| 0 <= g < bit_count(bits) && !bit(bits, g)
                                    && all_set_below(bits, g)
                                    && inode_bits(final(self).inode_bitmap@) == set_bit(bits, g)
                                    && old(self).inodes@[g + 1] is Some))
                    },
                }
            }),
    {
        let ghost bits = inode_bits(self.inode_bitmap@);
        let mut i: usize = 0;
        while i < self.inode_bitmap.len()
            invariant
                i <= self.inode_bitmap@.len(),
                self.inode_bitmap@ == old(self).inode_bitmap@,
                self.sb == old(self).sb,
                self.wf(),
                self.block_count == old(self).block_count,
                self.inode_count == old(self).inode_count,
                self.has_journal == old(self).has_journal,
                self.block_bitmap@ == old(self).block_bitmap@,
                self.inode_array@ == old(self).inode_array@,
                self.inodes@ == old(self).inodes@,
                bits == inode_bits(old(self).inode_bitmap@),
                old(self).inode_count <= u32::MAX,
                old(self).sb.inode_count_inused < u64::MAX,
                forall|g: int|
                    0 <= g < bit_count(bits) && !#[trigger] bit(bits, g) ==> g + 1 < old(self).inode_count,
                all_set_below(bits, i * BITMAP_BITS),
            decreases self.inode_bitmap@.len() - i,
        {
            let mut pos: usize = 0;
            while pos < BITMAP_BITS
                invariant
                    i < self.inode_bitmap@.len(),
                    pos <= BITMAP_BITS,
                    self.inode_bitmap@ == old(self).inode_bitmap@,
                    self.sb == old(self).sb,
                    self.wf(),
                    self.block_count == old(self).block_count,
                    self.inode_count == old(self).inode_count,
                    self.has_journal == old(self).has_journal,
                    self.block_bitmap@ == old(self).block_bitmap@,
                    self.inode_array@ == old(self).inode_array@,
                    self.inodes@ == old(self).inodes@,
                    bits == inode_bits(old(self).inode_bitmap@),
                    old(self).inode_count <= u32::MAX,
                    old(self).sb.inode_count_inused < u64::MAX,
                    forall|g: int|
                        0 <= g < bit_count(bits) && !#[trigger] bit(bits, g) ==> g + 1 < old(self).inode_count,
                    all_set_below(bits, i * BITMAP_BITS + pos),
                decreases BITMAP_BITS - pos,
            {
                let ghost g = i * BITMAP_BITS + pos;
                proof {
                    assert(g / BITMAP_BITS as int == i && g % BITMAP_BITS as int == pos) by (nonlinear_arith)
                        requires
                            g == i * BITMAP_BITS + pos,
                            0 <= pos < BITMAP_BITS,
                    ;
                    assert(bits[i as int] == self.inode_bitmap@[i as int]@);
                }
                if !self.inode_bitmap[i].is_allocated(pos) {
                    let ok = self.inode_bitmap[i].try_allocate(pos);
                    proof {
                        assert(inode_bits(self.inode_bitmap@) =~= set_bit(bits, g));
                        assert(g < bit_count(bits)) by (nonlinear_arith)
                            requires
                                g == i * BITMAP_BITS + pos,
                                pos < BITMAP_BITS,
                                i < bits.len(),
                        ;
                        assert(!bit(bits, g));
                    }
                    let n = (pos + i * BITMAP_BITS + 1) as u32;
                    let ino = InodeNumber::new(n).unwrap();
                    let slot = n as usize;
                    if self.inodes[slot].is_some() {
                        return Err(KernelError::FilesystemCorrupted("Allocate to existing inode."));
                    }
                    let (lba, index) = self.get_inode_array_lba_index(ino).unwrap();
                    let k = (n - 1) as usize / INODES_PER_BLOCK;
                    proof {
                        assert(k < self.inode_array@.len()) by (nonlinear_arith)
                            requires
                                k == (n - 1) / 16,
                                n - 1 < self.inode_count,
                                self.inode_array@.len() == div_ceil(self.inode_count as int, 16),
                        ;
                    }
                    let inode = Inode::new(ino, is_dir);
                    let mut arr = self.inode_array[k];
                    arr.inodes[index] = inode.into_disk_format();
                    self.inode_array.set(k, arr);
                    self.sb.inode_count_inused = self.sb.inode_count_inused + 1;
                    self.inodes.set(slot, Some(inode));
                    return Ok((ino, inode));
                }
                proof {
                    assert(bit(bits, g));
                }
                pos = pos + 1;
            }
            i = i + 1;
        }
        Err(KernelError::NoSpace)
    }

    /// The inode numbered `ino`: the one in the inode table if it is there;
    /// else, when its bit is set, the one read from the inode array, which
    /// then enters the table. [`KernelError::NoSuchEntry`] when its bit is
    /// clear; the error of [`Inode::from_disk_layout`] when the array holds
    /// no valid inode there; [`KernelError::FilesystemCorrupted`] when it
    /// holds another inode.
    pub fn get_inode(&mut self, ino: InodeNumber) -> (r: Result<Inode, KernelError>)
        requires
            old(self).wf(),
            ino@ < old(self).inode_count,
        ensures
            final(self).wf(),
            final(self).block_count == old(self).block_count,
            final(self).inode_count == old(self).inode_count,
            final(self).has_journal == old(self).has_journal,
            final(self).debug_journal == old(self).debug_journal,
            final(self).journal == old(self).journal,
            final(self).sb == old(self).sb,
            final(self).inode_bitmap@ == old(self).inode_bitmap@,
            final(self).block_bitmap@ == old(self).block_bitmap@,
            final(self).inode_array@ == old(self).inode_array@,
            r == lookup_inode(old(self), ino),
            final(self).inodes@ == match r {
                Ok(i) => old(self).inodes@.update(ino@ as int, Some(i)),
                Err(_) => old(self).inodes@,
            },
    {
        let n = ino.into_u32();
        let slot = n as usize;
        if let Some(cached) = self.inodes[slot] {
            return Ok(cached);
        }
        let (lba, offset) = self.get_inode_bitmap_lba_index(ino).unwrap();
        let b = (n - 1) as usize / BITMAP_BITS;
        proof {
            let ic = self.inode_count as int;
            assert(b < self.inode_bitmap@.len()) by (nonlinear_arith)
                requires
                    b == (n - 1) / 32768,
                    n - 1 < ic,
                    self.inode_bitmap@.len() == bitmap_blocks(ic),
            ;
        }
        if !self.inode_bitmap[b].is_allocated(offset) {
            return Err(KernelError::NoSuchEntry);
        }
        let (lba, index) = self.get_inode_array_lba_index(ino).unwrap();
        let k = (n - 1) as usize / INODES_PER_BLOCK;
        proof {
            assert(k < self.inode_array@.len()) by (nonlinear_arith)
                requires
                    k == (n - 1) / 16,
                    n - 1 < self.inode_count,
                    self.inode_array@.len() == div_ceil(self.inode_count as int, 16),
            ;
        }
        let d = self.inode_array[k].inodes[index];
        let inode = match Inode::from_disk_layout(&d) {
            Ok(i) => i,
            Err(e) => return Err(e),
        };
        if inode.ino.into_u32() != n {
            return Err(KernelError::FilesystemCorrupted("Inode number mismatch"));
        }
        proof {
            assert(inode.ino == ino) by {
                assert(inode.ino@ == ino@);
                lemma_inode_number_eq(inode.ino, ino);
            }
        }
        self.inodes.set(slot, Some(inode));
        Ok(inode)
    }

    /// Takes inode `ino` out of the inode table when it is there and
    /// `unshared` (no one else holds it); the inode on disk stays.
    pub fn remove_inode(&mut self, ino: InodeNumber, unshared: bool) -> (r: Option<Inode>)
        requires
            old(self).wf(),
        ensures
            final(self).wf(),
            final(self).block_count == old(self).block_count,
            final(self).inode_count == old(self).inode_count,
            final(self).has_journal == old(self).has_journal,
            final(self).debug_journal == old(self).debug_journal,
            final(self).journal == old(self).journal,
            final(self).sb == old(self).sb,
            final(self).inode_bitmap@ == old(self).inode_bitmap@,
            final(self).block_bitmap@ == old(self).block_bitmap@,
            final(self).inode_array@ == old(self).inode_array@,
            if unshared && ino@ < old(self).inodes@.len() && old(self).inodes@[ino@ as int] is Some {
                r == old(self).inodes@[ino@ as int] && final(self).inodes@ == old(self).inodes@.update(
                    ino@ as int,
                    None,
                )
            } else {
                r is None && final(self).inodes@ == old(self).inodes@
            },
    {
        let slot = ino.into_u32() as usize;
        if unshared && slot < self.inodes.len() {
            if let Some(inode) = self.inodes[slot] {
                self.inodes.set(slot, None);
                return Some(inode);
            }
        }
        None
    }
}

/// The on-disk inode at the place of inode `n` in the inode array.
pub open spec fn array_entry(f: &FastFileSystemInner, n: int) -> disk_layout::Inode {
    f.inode_array@[(n - 1) / INODES_PER_BLOCK as int].inodes@[(n - 1) % INODES_PER_BLOCK as int]
}

/// Two inode numbers with the same place in the inode array are equal.
proof fn lemma_array_place(a: int, b: int)
    requires
        1 <= a,
        1 <= b,
        (a - 1) / 16 == (b - 1) / 16,
        (a - 1) % 16 == (b - 1) % 16,
    ensures
        a == b,
{
    assert(a - 1 == 16 * ((a - 1) / 16) + (a - 1) % 16);
    assert(b - 1 == 16 * ((b - 1) / 16) + (b - 1) % 16);
}

impl FastFileSystemInner {
    /// Writes inode `i` back: into the inode table and, in its on-disk form,
    /// at its place in the inode array.
    pub fn write_inode(&mut self, i: Inode)
        requires
            old(self).wf(),
            i.ino@ < old(self).inode_count,
        ensures
            final(self).wf(),
            final(self).block_count == old(self).block_count,
            final(self).inode_count == old(self).inode_count,
            final(self).has_journal == old(self).has_journal,
            final(self).debug_journal == old(self).debug_journal,
            final(self).journal == old(self).journal,
            final(self).sb == old(self).sb,
            final(self).inode_bitmap@ == old(self).inode_bitmap@,
            final(self).block_bitmap@ == old(self).block_bitmap@,
            final(self).inodes@ == old(self).inodes@.update(i.ino@ as int, Some(i)),
            final(self).inode_array@.len() == old(self).inode_array@.len(),
            encodes_inode(i, array_entry(final(self), i.ino@ as int)),
            forall|n: int|
                1 <= n <= old(self).inode_array@.len() * 16 && n != i.ino@ ==> #[trigger] array_entry(
                    final(self),
                    n,
                ) == array_entry(old(self), n),
    {
        let n = i.ino.into_u32();
        let (lba, index) = self.get_inode_array_lba_index(i.ino).unwrap();
        let k = (n - 1) as usize / INODES_PER_BLOCK;
        proof {
            assert(k < self.inode_array@.len()) by (nonlinear_arith)
                requires
                    k == (n - 1) / 16,
                    n - 1 < self.inode_count,
                    self.inode_array@.len() == div_ceil(self.inode_count as int, 16),
            ;
        }
        let ghost before = *self;
        let mut arr = self.inode_array[k];
        arr.inodes[index] = i.into_disk_format();
        self.inode_array.set(k, arr);
        self.inodes.set(n as usize, Some(i));
        proof {
            assert forall|m: int| 1 <= m <= before.inode_array@.len() * 16 && m != i.ino@ implies #[trigger] array_entry(
                self,
                m,
            ) == array_entry(&before, m) by {
                if (m - 1) / 16 == k && (m - 1) % 16 == index {
                    lemma_array_place(m, n as int);
                }
            }
        }
    }
}

impl LogicalBlockAddress {
    /// Where the bit of data block `self` lies in the block bitmap: the
    /// bitmap block and the bit within it; `None` outside the data region.
    pub fn into_bitmap_lba_offset(self, ffs: &FastFileSystemInner) -> (r: Option<(LogicalBlockAddress, usize)>)
        ensures
            ({
                let start = data_start(ffs.inode_count as int, ffs.block_count as int, ffs.has_journal as int);
                if start <= self@ < start + ffs.block_count {
                    r matches Some((b, off)) && b@ == block_bitmap_start(ffs.inode_count as int) + (self@ as int)
                        / (BITMAP_BITS as int) && off == (self@ as int) % (BITMAP_BITS as int)
                } else {
                    r is None
                }
            }),
    {
        let start = ffs.data_block_start().into_u64();
        let n = self.into_u64();
        if start <= n && ((n - start) as u128) < (ffs.block_count as u128) {
            let begin = ffs.block_bitmap().start;
            proof {
                let ic = ffs.inode_count as int;
                assert((ic + 7) / 8 <= 0x2000_0000_0000_0000);
                assert(bitmap_blocks(ic) <= 0x2_0000_0000_0001);
                assert(n / 32768 <= 0x2_0000_0000_0000);
            }
            Some((begin.add((n / BITMAP_BITS as u64) as usize), (n % BITMAP_BITS as u64) as usize))
        } else {
            None
        }
    }
}

impl FastFileSystemInner {
    /// Lets inode `ino` go, as its last holder does when `unshared`: the
    /// inode leaves the inode table, and when no link to it is left it is
    /// deleted. Its data blocks are freed (see [`Inode::zeroify`]), it is
    /// counted out of the superblock, its on-disk inode is marked unused and
    /// its bit in the inode bitmap is cleared.
    pub fn release_inode(&mut self, disk: &Disk, ino: InodeNumber, unshared: bool)
        requires
            old(self).wf(),
            unshared && ino@ < old(self).inodes@.len() && old(self).inodes@[ino@ as int] is Some
                && old(self).inodes@[ino@ as int]->Some_0.link_count == 0 ==> {
                &&& freeable(old(self).inodes@[ino@ as int]->Some_0, disk@, old(self))
                &&& old(self).sb.inode_count_inused >= 1
                &&& bit(inode_bits(old(self).inode_bitmap@), ino@ - 1)
            },
        ensures
            final(self).wf(),
            final(self).block_count == old(self).block_count,
            final(self).inode_count == old(self).inode_count,
            final(self).has_journal == old(self).has_journal,
            final(self).debug_journal == old(self).debug_journal,
            final(self).journal == old(self).journal,
            final(self).inode_array@.len() == old(self).inode_array@.len(),
            if unshared && ino@ < old(self).inodes@.len() && old(self).inodes@[ino@ as int] is Some {
                let i = old(self).inodes@[ino@ as int]->Some_0;
                let ws = data_blocks(i, disk@);
                &&& final(self).inodes@ == old(self).inodes@.update(ino@ as int, None)
                &&& i.link_count != 0 ==> {
                    &&& final(self).sb == old(self).sb
                    &&& final(self).inode_bitmap@ == old(self).inode_bitmap@
                    &&& final(self).block_bitmap@ == old(self).block_bitmap@
                    &&& final(self).inode_array@ == old(self).inode_array@
                }
                &&& i.link_count == 0 ==> {
                    &&& block_bits(final(self).block_bitmap@) == clear_bits(
                        block_bits(old(self).block_bitmap@),
                        ws,
                    )
                    &&& inode_bits(final(self).inode_bitmap@) == clear_bit(
                        inode_bits(old(self).inode_bitmap@),
                        ino@ - 1,
                    )
                    &&& final(self).sb == (SuperBlock {
                        block_count_inused: (old(self).sb.block_count_inused - ws.len()) as u64,
                        inode_count_inused: (old(self).sb.inode_count_inused - 1) as u64,
                        ..old(self).sb
                    })
                    &&& array_entry(final(self), ino@ as int) == (disk_layout::Inode {
                        ino: None,
                        ..array_entry(old(self), ino@ as int)
                    })
                    &&& forall|n: int|
                        1 <= n <= old(self).inode_array@.len() * 16 && n != ino@ ==> #[trigger] array_entry(
                            final(self),
                            n,
                        ) == array_entry(old(self), n)
                }
            } else {
                &&& final(self).inodes@ == old(self).inodes@
                &&& final(self).sb == old(self).sb
                &&& final(self).inode_bitmap@ == old(self).inode_bitmap@
                &&& final(self).block_bitmap@ == old(self).block_bitmap@
                &&& final(self).inode_array@ == old(self).inode_array@
            },
    {
        let mut inode = match self.remove_inode(ino, unshared) {
            Some(i) => i,
            None => return,
        };
        if inode.link_count != 0 {
            return;
        }
        let n = ino.into_u32();
        let (_lba, index) = match self.get_inode_array_lba_index(ino) {
            Some(x) => x,
            None => {
                assert(false);
                return;
            },
        };
        inode.zeroify(disk, self);
        self.sb.inode_count_inused = self.sb.inode_count_inused - 1;
        let k = (n - 1) as usize / INODES_PER_BLOCK;
        proof {
            assert(k < self.inode_array@.len()) by (nonlinear_arith)
                requires
                    k == (n - 1) / 16,
                    n - 1 < self.inode_count,
                    self.inode_array@.len() == div_ceil(self.inode_count as int, 16),
            ;
        }
        let ghost before = *self;
        let mut arr = self.inode_array[k];
        arr.inodes[index].ino = None;
        self.inode_array.set(k, arr);
        proof {
            assert forall|m: int| 1 <= m <= before.inode_array@.len() * 16 && m != ino@ implies #[trigger] array_entry(
                self,
                m,
            ) == array_entry(&before, m) by {
                if (m - 1) / 16 == k && (m - 1) % 16 == index {
                    lemma_array_place(m, n as int);
                }
            }
        }
        let g = (n - 1) as usize;
        proof {
            let ic = self.inode_count as int;
            assert(g / 32768 < bitmap_blocks(ic)) by (nonlinear_arith)
                requires
                    0 <= g < ic,
            ;
        }
        let ghost ib = self.inode_bitmap@;
        let ok = self.inode_bitmap[g / BITMAP_BITS].deallocate(g % BITMAP_BITS);
        proof {
            assert(inode_bits(self.inode_bitmap@) =~= clear_bit(inode_bits(ib), g as int));
        }
    }
}

/// Freeing what was just allocated gives the bitmap back as it was: a bit
/// that was clear, once set and cleared again, leaves every bit as before.
pub proof fn lemma_free_undoes_allocate(bitmaps: Seq<Seq<bool>>, g: int)
    requires
        bit_in(bitmaps, g),
        !bit(bitmaps, g),
    ensures
        clear_bit(set_bit(bitmaps, g), g) == bitmaps,
{
    let b = g / BITMAP_BITS as int;
    let o = g % BITMAP_BITS as int;
    assert(clear_bit(set_bit(bitmaps, g), g)[b] =~= bitmaps[b]);
    assert(clear_bit(set_bit(bitmaps, g), g) =~= bitmaps);
}

/// Releasing an inode that was just allocated, with no link and no data,
/// undoes the allocation: its bit is clear again and the superblock counts
/// are as they were.
pub proof fn lemma_release_undoes_allocate(bits: Seq<Seq<bool>>, g: int, sb: SuperBlock, i: Inode, d: Seq<Seq<u8>>)
    requires
        bit_in(bits, g),
        !bit(bits, g),
        sb.inode_count_inused < u64::MAX,
        i.size == 0,
    ensures
        clear_bit(set_bit(bits, g), g) == bits,
        data_blocks(i, d).len() == 0,
        (SuperBlock {
            block_count_inused: (one_more_inode(sb).block_count_inused - data_blocks(i, d).len()) as u64,
            inode_count_inused: (one_more_inode(sb).inode_count_inused - 1) as u64,
            ..one_more_inode(sb)
        }) == sb,
{
    lemma_free_undoes_allocate(bits, g);
}

/// Block `n` of `disk`, or a zero block past its end.
fn read_or_zero(disk: &Disk, n: usize) -> (r: [u8; 4096])
    ensures
        r@ == block_or_zero(disk@, n as int),
{
    if n < disk.blocks.len() {
        disk.read_block(n)
    } else {
        let z = [0u8; 4096];
        assert(z@ =~= Seq::new(4096, |i: int| 0u8));
        z
    }
}

/// The first block of each region of a file system of `ic` inodes and `bc`
/// blocks, with a journal when `hj` is not zero: the block bitmap, the
/// journal, the inode array and the data blocks.
fn layout(ic: usize, bc: usize, hj: usize) -> (r: (u64, u64, u64, u64))
    ensures
        r.0 == block_bitmap_start(ic as int),
        r.1 == journal_start(ic as int, bc as int),
        r.2 == inode_array_start(ic as int, bc as int, hj as int),
        r.3 == data_start(ic as int, bc as int, hj as int),
{
    proof {
        lemma_layout_bounds(ic as int, bc as int, hj as int);
        assert(div_ceil(256 * ic, 4096) == div_ceil(ic as int, 16)) by (nonlinear_arith);
    }
    let b = INODE_BITMAP_START + bitmap_blocks_exec(ic);
    let j = b + bitmap_blocks_exec(bc);
    let a = if hj != 0 {
        j + JOURNAL_BLOCKS
    } else {
        j
    };
    let d = a + div_ceil_exec(ic, INODES_PER_BLOCK) as u64;
    (b, j, a, d)
}

/// Block `n` of disk `d`, or a zero block past the end of the disk.
pub open spec fn block_or_zero(d: Seq<Seq<u8>>, n: int) -> Seq<u8> {
    if 0 <= n < d.len() {
        d[n]
    } else {
        Seq::new(4096, |i: int| 0u8)
    }
}

/// Whether `fs` is the file system that disk `d` holds, mounted with the
/// geometry of superblock `sb` and with superblock `cur` in memory: each
/// metadata block is the one its region of the disk holds (a zero block
/// where the region runs past the end of the disk), and no inode is in
/// memory yet.
pub open spec fn mounted(fs: &FastFileSystemInner, sb: SuperBlock, cur: SuperBlock, d: Seq<Seq<u8>>, debug_journal: bool) -> bool {
    let ic = sb.inode_count as usize as int;
    let bc = sb.block_count as usize as int;
    let hj = sb.has_journal as usize as int;
    &&& fs.wf()
    &&& fs.inode_count == ic
    &&& fs.block_count == bc
    &&& fs.has_journal == hj
    &&& fs.sb == cur
    &&& fs.debug_journal == debug_journal
    &&& forall|i: int|
        0 <= i < fs.inode_bitmap@.len() ==> (#[trigger] fs.inode_bitmap@[i])@ == bits_of(
            block_words(block_or_zero(d, inode_bitmap_start() + i)),
        )
    &&& forall|i: int|
        0 <= i < fs.block_bitmap@.len() ==> (#[trigger] fs.block_bitmap@[i])@ == bits_of(
            block_words(block_or_zero(d, block_bitmap_start(ic) + i)),
        )
    &&& forall|k: int, t: int|
        0 <= k < fs.inode_array@.len() && 0 <= t < 16 ==> inode_bytes(
            #[trigger] fs.inode_array@[k].inodes@[t],
        ) == block_or_zero(d, inode_array_start(ic, bc, hj) + k).subrange(256 * t, 256 * t + 256)
    &&& forall|i: int| 0 <= i < fs.inodes@.len() ==> #[trigger] fs.inodes@[i] is None
}

/// What mounting the file system of superblock `sb` on disk `d0` gives:
/// the result `r`, and the disk `d` it leaves behind. The superblock must
/// carry the magic; with a journal in use, the journal is recovered and the
/// superblock read again from block 1. The file system is then mounted,
/// whatever the length of the disk; only a layout that does not fit the
/// address space ([`KernelError::NoMemory`]) stops it.
pub open spec fn mount_outcome(
    sb: SuperBlock,
    d0: Seq<Seq<u8>>,
    d: Seq<Seq<u8>>,
    r: Result<FastFileSystemInner, KernelError>,
    debug_journal: bool,
    disable_journal: bool,
) -> bool {
    let ic = sb.inode_count as usize as int;
    let bc = sb.block_count as usize as int;
    let hj = sb.has_journal as usize as int;
    let jon = hj != 0 && !disable_journal;
    let j = journal_start(ic, bc);
    if sb.magic@ != sb_magic() {
        r == Err::<FastFileSystemInner, KernelError>(KernelError::FilesystemCorrupted("Invalid Superblock Magic"))
            && d == d0
    } else if jon && (j + journal_blocks() > d0.len() || recover(d0, j) is None) {
        r == Err::<FastFileSystemInner, KernelError>(KernelError::IOError) && d == d0
    } else {
        let d1 = if jon {
            recover(d0, j)->Some_0
        } else {
            d0
        };
        &&& d == d1
        &&& if data_start(ic, bc, hj) > usize::MAX {
            r == Err::<FastFileSystemInner, KernelError>(KernelError::NoMemory)
        } else {
            match r {
                Ok(fs) => {
                    &&& mounted(&fs, sb, fs.sb, d1, debug_journal)
                    &&& jon ==> superblock_bytes(fs.sb) == d1[1] && (fs.journal matches Some(jn)
                        && journal_sb_bytes(jn.sb) == d1[j])
                    &&& !jon ==> fs.sb == sb && fs.journal is None
                },
                Err(_) => false,
            }
        }
    }
}

impl FastFileSystemInner {
    /// Mounts the file system whose superblock is `sb` on `disk`. The
    /// superblock must carry the magic, else
    /// [`KernelError::FilesystemCorrupted`]. When the file system has a
    /// journal and `disable_journal` is not set, the journal is recovered
    /// (see [`Journal::recovery`]) and the superblock read again from block
    /// 1. The metadata blocks are then read from their regions; blocks past
    /// the end of the disk are taken as zero blocks.
    pub fn from_raw_sb(sb: SuperBlock, disk: &mut Disk, debug_journal: bool, disable_journal: bool) -> (r: Result<
        Self,
        KernelError,
    >)
        ensures
            mount_outcome(sb, old(disk)@, final(disk)@, r, debug_journal, disable_journal),
    {
        let magic = [75u8, 101u8, 79u8, 83u8, 70u8, 70u8, 83u8, 0u8];
        let mut same = true;
        let mut i: usize = 0;
        while i < 8
            invariant
                i <= 8,
                same == (forall|j: int| 0 <= j < i ==> sb.magic@[j] == magic@[j]),
            decreases 8 - i,
        {
            same = same && sb.magic[i] == magic[i];
            i = i + 1;
        }
        if !same {
            return Err(KernelError::FilesystemCorrupted("Invalid Superblock Magic"));
        }
        assert(sb.magic@ =~= sb_magic());
        let ic = sb.inode_count as usize;
        let bc = sb.block_count as usize;
        let hj = sb.has_journal as usize;
        let (bb_start, j_start, a_start, d_start) = layout(ic, bc, hj);
        let mut cur = sb;
        let mut journal: Option<Journal> = None;
        if hj != 0 && !disable_journal {
            let len = disk.blocks.len();
            if j_start > len as u64 || (len as u64) - j_start < JOURNAL_BLOCKS {
                return Err(KernelError::IOError);
            }
            let j = j_start as usize;
            let mut jn = Journal::load(disk, j);
            proof {
                lemma_recover_len(disk@, j as int);
            }
            match jn.recovery(disk, j) {
                Ok(()) => {},
                Err(e) => return Err(e),
            }
            let b = disk.read_block(1);
            cur = SuperBlock::from_block(&b);
            journal = Some(jn);
        }
        let len = disk.blocks.len();
        if d_start > usize::MAX as u64 {
            return Err(KernelError::NoMemory);
        }
        let ghost d1 = disk@;
        proof {
            lemma_layout_bounds(ic as int, bc as int, hj as int);
        }
        let nib = (bb_start - INODE_BITMAP_START) as usize;
        let mut inode_bitmap: Vec<InodeBitmap> = Vec::new();
        let mut k: usize = 0;
        while k < nib
            invariant
                k <= nib,
                disk@ == d1,
                len == d1.len(),
                nib + 2 <= d_start <= usize::MAX,
                inode_bitmap@.len() == k,
                forall|t: int|
                    0 <= t < k ==> (#[trigger] inode_bitmap@[t])@ == bits_of(
                        block_words(block_or_zero(d1, inode_bitmap_start() + t)),
                    ),
            decreases nib - k,
        {
            let b = read_or_zero(disk, 2 + k);
            inode_bitmap.push(InodeBitmap::from_block(&b));
            k = k + 1;
        }
        let bbs = bb_start as usize;
        let nbb = (j_start - bb_start) as usize;
        let mut block_bitmap: Vec<BlockBitmap> = Vec::new();
        let mut k: usize = 0;
        while k < nbb
            invariant
                k <= nbb,
                disk@ == d1,
                len == d1.len(),
                bbs + nbb <= d_start <= usize::MAX,
                bbs == block_bitmap_start(ic as int),
                block_bitmap@.len() == k,
                forall|t: int|
                    0 <= t < k ==> (#[trigger] block_bitmap@[t])@ == bits_of(
                        block_words(block_or_zero(d1, bbs + t)),
                    ),
            decreases nbb - k,
        {
            let b = read_or_zero(disk, bbs + k);
            block_bitmap.push(BlockBitmap::from_block(&b));
            k = k + 1;
        }
        let arr = a_start as usize;
        let narr = (d_start - a_start) as usize;
        let mut inode_array: Vec<InodeArray> = Vec::new();
        let mut k: usize = 0;
        while k < narr
            invariant
                k <= narr,
                disk@ == d1,
                len == d1.len(),
                arr + narr <= usize::MAX,
                inode_array@.len() == k,
                forall|x: int, t: int|
                    0 <= x < k && 0 <= t < 16 ==> inode_bytes(#[trigger] inode_array@[x].inodes@[t])
                        == block_or_zero(d1, arr + x).subrange(256 * t, 256 * t + 256),
            decreases narr - k,
        {
            let b = read_or_zero(disk, arr + k);
            let ia = InodeArray::from_block(&b);
            let ghost before = inode_array@;
            inode_array.push(ia);
            proof {
                assert forall|x: int, t: int| 0 <= x < k + 1 && 0 <= t < 16 implies inode_bytes(
                    #[trigger] inode_array@[x].inodes@[t],
                ) == block_or_zero(d1, arr + x).subrange(256 * t, 256 * t + 256) by {
                    if x < k {
                        assert(inode_array@[x] == before[x]);
                        assert(inode_bytes(before[x].inodes@[t]) == block_or_zero(d1, arr + x).subrange(
                            256 * t,
                            256 * t + 256,
                        ));
                    } else {
                        assert(x == k);
                        assert(inode_array@[x] == ia);
                        assert(b@ == block_or_zero(d1, arr + x));
                        assert(inode_bytes(ia.inodes@[t]) == b@.subrange(256 * t, 256 * t + 256));
                    }
                }
            }
            k = k + 1;
        }
        proof {
            assert(div_ceil(256 * ic, 4096) == div_ceil(ic as int, 16)) by (nonlinear_arith);
        }
        let mut inodes: Vec<Option<Inode>> = Vec::new();
        let mut k: usize = 0;
        while k < ic
            invariant
                k <= ic,
                inodes@.len() == k,
                forall|t: int| 0 <= t < k ==> #[trigger] inodes@[t] is None,
            decreases ic - k,
        {
            inodes.push(None);
            k = k + 1;
        }
        Ok(
            FastFileSystemInner {
                block_count: bc,
                inode_count: ic,
                has_journal: hj,
                sb: cur,
                inode_bitmap,
                block_bitmap,
                inode_array,
                inodes,
                debug_journal,
                journal,
            },
        )
    }

    /// Mounts the file system on `disk`: reads its superblock from block 1
    /// and mounts it (see [`FastFileSystemInner::from_raw_sb`]);
    /// [`KernelError::IOError`] when the disk has no block 1.
    pub fn from_disk(disk: &mut Disk, debug_journal: bool, disable_journal: bool) -> (r: Result<Self, KernelError>)
        ensures
            old(disk)@.len() <= 1 ==> r == Err::<Self, KernelError>(KernelError::IOError) && final(disk)@
                == old(disk)@,
            old(disk)@.len() > 1 ==> exists|sb: SuperBlock|
                #[trigger] superblock_bytes(sb) == old(disk)@[1] && mount_outcome(
                    sb,
                    old(disk)@,
                    final(disk)@,
                    r,
                    debug_journal,
                    disable_journal,
                ),
    {
        if disk.blocks.len() <= 1 {
            return Err(KernelError::IOError);
        }
        let b = disk.read_block(1);
        let sb = SuperBlock::from_block(&b);
        Self::from_raw_sb(sb, disk, debug_journal, disable_journal)
    }
}

/// What committing the metadata writes `tx` as a new transaction does, from
/// journal `journal` and disk `d`, the journal area starting at block `j`:
/// the result, then the disk and the journal after. The transaction takes
/// the next id of the journal. Without a journal the blocks are written in
/// place. With one, they go through the journal, which is checkpointed at
/// once. [`KernelError::IOError`] when a destination, or the journal area,
/// lies past the end of the disk, and [`KernelError::NoSpace`] when the
/// journal cannot hold the transaction; then nothing is written.
pub open spec fn transact(journal: Option<Journal>, d: Seq<Seq<u8>>, j: int, tx: Seq<(int, Seq<u8>)>) -> (
    Result<(), KernelError>,
    Seq<Seq<u8>>,
    Option<Journal>,
) {
    match journal {
        None => if tx_ok(tx, d.len() as int) {
            (Ok(()), apply(d, tx), None)
        } else {
            (Err(KernelError::IOError), d, None)
        },
        Some(jn) => {
            let sb = disk_layout::JournalSb { tx_id: (jn.sb.tx_id + 1) as u64, ..jn.sb };
            if !(0 < j && j + journal_blocks() <= d.len()) || !tx_ok(tx, d.len() as int) {
                (Err(KernelError::IOError), d, Some(Journal { sb }))
            } else if tx.len() > 511 {
                (Err(KernelError::NoSpace), d, Some(Journal { sb }))
            } else {
                (
                    Ok(()),
                    checkpoint_spec(apply(d, journal_writes(j, sb, jn.sb.tx_id, tx)), j, with_flag(sb, 1))->Some_0,
                    Some(Journal { sb: with_flag(sb, 0) }),
                )
            }
        },
    }
}

/// The writes of a transaction that goes through the journal: into the
/// journal area, then the blocks in place.
pub open spec fn journaled_writes(jn: Journal, j: int, tx: Seq<(int, Seq<u8>)>) -> Seq<(int, Seq<u8>)> {
    commit_writes(j, disk_layout::JournalSb { tx_id: (jn.sb.tx_id + 1) as u64, ..jn.sb }, jn.sb.tx_id, tx)
}

impl FastFileSystemInner {
    /// Commits the metadata writes `blocks` as one transaction: see
    /// [`transact`]. When the journal holds the transaction and none of its
    /// blocks lies in the journal area, the disk is the old one with the
    /// journal writes and the blocks in place.
    pub fn commit_meta(&mut self, disk: &mut Disk, blocks: Vec<(LogicalBlockAddress, [u8; 4096])>) -> (r: Result<
        (),
        KernelError,
    >)
        requires
            old(self).journal matches Some(jn) ==> jn.sb.tx_id < u64::MAX,
        ensures
            (r, final(disk)@, final(self).journal) == transact(
                old(self).journal,
                old(disk)@,
                journal_start(old(self).inode_count as int, old(self).block_count as int),
                tx_view(blocks@),
            ),
            (r is Ok && old(self).journal is Some && outside_journal(
                tx_view(blocks@),
                journal_start(old(self).inode_count as int, old(self).block_count as int),
            )) ==> final(disk)@ == apply(
                old(disk)@,
                journaled_writes(
                    old(self).journal->Some_0,
                    journal_start(old(self).inode_count as int, old(self).block_count as int),
                    tx_view(blocks@),
                ),
            ),
            final(self).block_count == old(self).block_count,
            final(self).inode_count == old(self).inode_count,
            final(self).has_journal == old(self).has_journal,
            final(self).sb == old(self).sb,
            final(self).inode_bitmap == old(self).inode_bitmap,
            final(self).block_bitmap == old(self).block_bitmap,
            final(self).inode_array == old(self).inode_array,
            final(self).inodes == old(self).inodes,
            final(self).debug_journal == old(self).debug_journal,
    {
        let mut tx = self.open_transaction();
        tx.tx = blocks;
        let j = self.block_bitmap().end.into_u64();
        proof {
            lemma_layout_bounds(self.inode_count as int, self.block_count as int, self.has_journal as int);
        }
        if self.journal.is_some() {
            if j == 0 || j > usize::MAX as u64 || disk.blocks.len() < JOURNAL_BLOCKS as usize || (j as usize)
                > disk.blocks.len() - JOURNAL_BLOCKS as usize {
                assert(disk@.len() == disk.blocks@.len());
                return Err(KernelError::IOError);
            }
        }
        let ju: usize = if j <= usize::MAX as u64 { j as usize } else { 0 };
        let ghost d = disk@;
        let ghost jo = self.journal;
        assert(tx_view(tx.tx@) == tx_view(blocks@));
        let r = tx.commit(&mut self.journal, disk, ju);
        proof {
            let tv = tx_view(blocks@);
            let ji = journal_start(old(self).inode_count as int, old(self).block_count as int);
            assert(ji == j);
            match old(self).journal {
                None => {
                    let t = transact(old(self).journal, d, ji, tv);
                    if r is Ok {
                        let u: () = r->Ok_0;
                        assert(r == Ok::<(), KernelError>(u));
                    }
                    assert(r == t.0);
                    assert(disk@ == t.1);
                    assert(self.journal == t.2);
                },
                Some(jn) => {
                    assert(0 < ji && ji + journal_blocks() <= d.len());
                    assert(jo == Some(Journal { sb: disk_layout::JournalSb { tx_id: (jn.sb.tx_id + 1) as u64, ..jn.sb } }));
                    assert((r, disk@, self.journal) == transact(old(self).journal, d, ji, tv));
                },
            }
        }
        r
    }
}

/// The write of the inode array block that holds inode `ino` in `f`: its
/// block number and its bytes.
pub open spec fn inode_array_write(f: &FastFileSystemInner, ino: int) -> (int, Seq<u8>) {
    (
        inode_array_start(f.inode_count as int, f.block_count as int, f.has_journal as int) + (ino - 1)
            / INODES_PER_BLOCK as int,
        inode_array_bytes(f.inode_array@[(ino - 1) / INODES_PER_BLOCK as int]),
    )
}

/// The write of the block bitmap block that holds the bit of block `b` in
/// `f`: its block number and its bytes.
pub open spec fn block_bitmap_write(f: &FastFileSystemInner, b: int) -> (int, Seq<u8>) {
    (
        block_bitmap_start(f.inode_count as int) + b / BITMAP_BITS as int,
        block_bitmap_bytes(f.block_bitmap@[b / BITMAP_BITS as int]),
    )
}

/// The write of the inode bitmap block that holds the bit of inode `ino`
/// in `f`: its block number and its bytes.
pub open spec fn inode_bitmap_write(f: &FastFileSystemInner, ino: int) -> (int, Seq<u8>) {
    (
        inode_bitmap_start() + (ino - 1) / BITMAP_BITS as int,
        inode_bitmap_bytes(f.inode_bitmap@[(ino - 1) / BITMAP_BITS as int]),
    )
}

/// The write of the superblock of `f`: block 1 and its bytes.
pub open spec fn superblock_write(f: &FastFileSystemInner) -> (int, Seq<u8>) {
    (1, superblock_bytes(f.sb))
}

impl FastFileSystemInner {
    /// The inode array block that holds inode `ino`, with its bytes.
    pub fn inode_array_block(&self, ino: InodeNumber) -> (r: (LogicalBlockAddress, [u8; 4096]))
        requires
            self.wf(),
            ino@ < self.inode_count,
        ensures
            (r.0@ as int, r.1@) == inode_array_write(self, ino@ as int),
    {
        let (lba, _idx) = self.get_inode_array_lba_index(ino).unwrap();
        let k = (ino.into_u32() - 1) as usize / INODES_PER_BLOCK;
        proof {
            assert(k < self.inode_array@.len()) by (nonlinear_arith)
                requires
                    k == (ino@ - 1) / 16,
                    ino@ - 1 < self.inode_count,
                    self.inode_array@.len() == div_ceil(self.inode_count as int, 16),
            ;
        }
        (lba, self.inode_array[k].into_block())
    }

    /// The block bitmap block that holds the bit of block `b`, with its
    /// bytes.
    pub fn block_bitmap_block(&self, b: LogicalBlockAddress) -> (r: (LogicalBlockAddress, [u8; 4096]))
        requires
            self.wf(),
            b@ < bit_count(block_bits(self.block_bitmap@)),
        ensures
            (r.0@ as int, r.1@) == block_bitmap_write(self, b@ as int),
    {
        let k = (b.into_u64() / BITMAP_BITS as u64) as usize;
        proof {
            assert(k < self.block_bitmap@.len()) by (nonlinear_arith)
                requires
                    k == b@ / 32768,
                    b@ < self.block_bitmap@.len() * 32768,
            ;
            lemma_layout_bounds(self.inode_count as int, self.block_count as int, self.has_journal as int);
        }
        let start = self.block_bitmap().start;
        (start.add(k), self.block_bitmap[k].into_block())
    }

    /// The inode bitmap block that holds the bit of inode `ino`, with its
    /// bytes.
    pub fn inode_bitmap_block(&self, ino: InodeNumber) -> (r: (LogicalBlockAddress, [u8; 4096]))
        requires
            self.wf(),
            ino@ < self.inode_count,
        ensures
            (r.0@ as int, r.1@) == inode_bitmap_write(self, ino@ as int),
    {
        let (lba, _off) = self.get_inode_bitmap_lba_index(ino).unwrap();
        let k = (ino.into_u32() - 1) as usize / BITMAP_BITS;
        proof {
            assert(k < self.inode_bitmap@.len()) by (nonlinear_arith)
                requires
                    k == (ino@ - 1) / 32768,
                    ino@ - 1 < self.inode_count,
                    self.inode_bitmap@.len() == bitmap_blocks(self.inode_count as int),
            ;
        }
        (lba, self.inode_bitmap[k].into_block())
    }

    /// The superblock's block, with its bytes.
    pub fn superblock_block(&self) -> (r: (LogicalBlockAddress, [u8; 4096]))
        ensures
            (r.0@ as int, r.1@) == superblock_write(self),
    {
        (LogicalBlockAddress::new(1).unwrap(), self.sb.into_block())
    }
}

} // verus!
