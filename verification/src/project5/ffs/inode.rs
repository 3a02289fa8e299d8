//! The in-memory inode.
//!
//! An inode is the authoritative metadata of a file or directory: its type,
//! size, link count and the pointers to its data blocks (twelve direct
//! blocks, one indirect block and one doubly indirect block). This module
//! converts inodes between their in-memory and on-disk forms, and maps a
//! file's block numbers to the disk blocks that hold them.
use crate::bytes::{le_u64, read_u64};
use crate::error::KernelError;
use crate::project5::ffs::disk_layout;
use crate::project5::ffs::disk_layout::SuperBlock;
use crate::project5::ffs::fs::{
    bit, bit_in, block_bits, clear_bits, data_start, lemma_clear_bits, FastFileSystemInner,
};
use crate::project5::ffs::bitmap::BITMAP_BITS;
use crate::project5::ffs::journal::Disk;
use crate::project5::ffs::types::{file_type_code, lba_code, FileBlockNumber, FileType, InodeNumber, LogicalBlockAddress};
use vstd::prelude::*;

verus! {

/// The magic of an on-disk inode: "KeOSFFSI".
pub open spec fn inode_magic_spec() -> Seq<u8> {
    seq![75u8, 101u8, 79u8, 83u8, 70u8, 70u8, 83u8, 73u8]
}

/// The magic of an on-disk inode: "KeOSFFSI".
pub fn inode_magic() -> (r: [u8; 8])
    ensures
        r@ == inode_magic_spec(),
{
    let r = [75u8, 101u8, 79u8, 83u8, 70u8, 70u8, 83u8, 73u8];
    assert(r@ =~= inode_magic_spec());
    r
}

/// Whether two 8-byte arrays hold the same bytes.
pub fn bytes8_eq(a: &[u8; 8], b: &[u8; 8]) -> (r: bool)
    ensures
        r == (a@ == b@),
{
    let mut i: usize = 0;
    while i < 8
        invariant
            0 <= i <= 8,
            forall|j: int| 0 <= j < i ==> a@[j] == b@[j],
        decreases 8 - i,
    {
        if a[i] != b[i] {
            return false;
        }
        i = i + 1;
    }
    assert(a@ =~= b@);
    true
}

/// Represents an inode in memory, the metadata structure for a file or
/// directory.
#[derive(Debug, Clone, Copy)]
pub struct Inode {
    /// The unique inode number assigned to this file or directory.
    pub ino: InodeNumber,
    /// The type of the file.
    pub ftype: FileType,
    /// The total size of the file in bytes.
    pub size: usize,
    /// Number of links alive in the filesystem.
    pub link_count: usize,
    /// Directly mapped data blocks.
    pub dblocks: [Option<LogicalBlockAddress>; 12],
    /// An indirect block, which contains pointers to additional data blocks.
    pub iblock: Option<LogicalBlockAddress>,
    /// A doubly indirect block, which contains pointers to indirect blocks.
    pub diblock: Option<LogicalBlockAddress>,
}

/// The outcome of reading an on-disk inode.
pub open spec fn decode_inode(d: disk_layout::Inode) -> Result<Inode, KernelError> {
    if d.magic@ != inode_magic_spec() {
        Err(KernelError::FilesystemCorrupted("Inode Magic Mismatch"))
    } else if d.ino is None {
        Err(KernelError::FilesystemCorrupted("Inode number is zero"))
    } else if d.ftype > 1 {
        Err(KernelError::FilesystemCorrupted("Invalid inode type"))
    } else {
        Ok(
            Inode {
                ino: d.ino.unwrap(),
                ftype: if d.ftype == 0 {
                    FileType::RegularFile
                } else {
                    FileType::Directory
                },
                size: d.size as usize,
                link_count: d.link_count as usize,
                dblocks: d.dblocks,
                iblock: d.iblock,
                diblock: d.diblock,
            },
        )
    }
}

/// The on-disk form of an in-memory inode (apart from its padding).
pub open spec fn encodes_inode(i: Inode, d: disk_layout::Inode) -> bool {
    &&& d.magic@ == inode_magic_spec()
    &&& d.ino == Some(i.ino)
    &&& d.ftype == file_type_code(i.ftype)
    &&& d.size == i.size as u64
    &&& d.link_count == i.link_count as u64
    &&& d.dblocks == i.dblocks
    &&& d.iblock == i.iblock
    &&& d.diblock == i.diblock
}

impl Inode {
    /// Constructs an in-memory [`Inode`] from its on-disk representation.
    ///
    /// Fails with [`KernelError::FilesystemCorrupted`] when the magic does
    /// not match, the inode number is zero or the file type is unknown.
    pub fn from_disk_layout(inode: &disk_layout::Inode) -> (r: Result<Self, KernelError>)
        ensures
            r == decode_inode(*inode),
    {
        let magic = inode_magic();
        if !bytes8_eq(&inode.magic, &magic) {
            return Err(KernelError::FilesystemCorrupted("Inode Magic Mismatch"));
        }
        let ino = match inode.ino {
            Some(ino) => ino,
            None => {
                return Err(KernelError::FilesystemCorrupted("Inode number is zero"));
            },
        };
        let ftype = match FileType::try_from(inode.ftype) {
            Ok(t) => t,
            Err(e) => {
                return Err(e);
            },
        };
        Ok(
            Self {
                ino,
                ftype,
                size: inode.size as usize,
                link_count: inode.link_count as usize,
                dblocks: inode.dblocks,
                iblock: inode.iblock,
                diblock: inode.diblock,
            },
        )
    }

    /// Converts the in-memory [`Inode`] structure into its on-disk
    /// representation, with a zeroed padding.
    pub fn into_disk_format(&self) -> (r: disk_layout::Inode)
        ensures
            encodes_inode(*self, r),
            r._pad@ == seq![0u8; 112],
    {
        let r = disk_layout::Inode {
            magic: inode_magic(),
            ino: Some(self.ino),
            ftype: self.ftype.into_u32(),
            size: self.size as u64,
            link_count: self.link_count as u64,
            dblocks: self.dblocks,
            iblock: self.iblock,
            diblock: self.diblock,
            _pad: [0; 112],
        };
        assert(r._pad@ =~= seq![0u8; 112]);
        r
    }

    /// Creates a new, empty in-memory [`Inode`]: size and link count zero and
    /// no data blocks.
    pub fn new(ino: InodeNumber, is_dir: bool) -> (r: Self)
        ensures
            r.ino == ino,
            r.ftype == (if is_dir {
                FileType::Directory
            } else {
                FileType::RegularFile
            }),
            r.size == 0,
            r.link_count == 0,
            forall|i: int| 0 <= i < 12 ==> #[trigger] r.dblocks@[i] == None::<LogicalBlockAddress>,
            r.iblock is None,
            r.diblock is None,
    {
        Self {
            ino,
            ftype: if is_dir {
                FileType::Directory
            } else {
                FileType::RegularFile
            },
            size: 0,
            link_count: 0,
            dblocks: no_direct_blocks(),
            iblock: None,
            diblock: None,
        }
    }
}

/// Twelve unused direct block addresses.
fn no_direct_blocks() -> (r: [Option<LogicalBlockAddress>; 12])
    ensures
        forall|i: int| 0 <= i < 12 ==> #[trigger] r@[i] == None::<LogicalBlockAddress>,
{
    let mut r: [Option<LogicalBlockAddress>; 12] = [None; 12];
    let mut i: usize = 0;
    while i < 12
        invariant
            0 <= i <= 12,
            forall|j: int| 0 <= j < i ==> #[trigger] r@[j] == None::<LogicalBlockAddress>,
        decreases 12 - i,
    {
        r[i] = None;
        i = i + 1;
    }
    r
}

/// Writing an inode to disk and reading it back gives the same inode.
pub proof fn lemma_inode_roundtrip(i: Inode, d: disk_layout::Inode)
    requires
        encodes_inode(i, d),
    ensures
        decode_inode(d) == Ok::<Inode, KernelError>(i),
{
    match decode_inode(d) {
        Ok(j) => {
            assert(j.ftype == i.ftype);
            assert(j.size == i.size);
            assert(j.link_count == i.link_count);
            assert(j == i);
        },
        Err(_) => {
            assert(false);
        },
    }
}

/// The word at entry `k` of disk block `n`: the code of the block address
/// that the entry holds (0 for none).
pub open spec fn entry_word(d: Seq<Seq<u8>>, n: int, k: int) -> u64 {
    le_u64(d[n], 8 * k)
}

/// The code of the disk block that holds block `fba` of the file of inode
/// `i` on disk `d` (0 when no block is allocated there), through the twelve
/// direct blocks, then the 512 entries of the indirect block, then the 512
/// indirect blocks of the doubly indirect block. A block past the end of
/// the file has none. [`KernelError::IOError`] when an indirect block lies
/// past the end of the disk; [`KernelError::InvalidArgument`] past what the
/// doubly indirect block maps.
pub open spec fn block_code(i: Inode, d: Seq<Seq<u8>>, fba: int) -> Result<u64, KernelError> {
    if 4096 * fba >= i.size {
        Ok(0)
    } else if fba < 12 {
        Ok(lba_code(i.dblocks@[fba]))
    } else if fba < 12 + 512 {
        match i.iblock {
            None => Ok(0),
            Some(ib) => if ib@ >= d.len() {
                Err(KernelError::IOError)
            } else {
                Ok(entry_word(d, ib@ as int, fba - 12))
            },
        }
    } else if fba < 12 + 512 + 512 * 512 {
        match i.diblock {
            None => Ok(0),
            Some(db) => if db@ >= d.len() {
                Err(KernelError::IOError)
            } else {
                let mid = entry_word(d, db@ as int, (fba - 524) / 512);
                if mid == 0 {
                    Ok(0)
                } else if mid >= d.len() {
                    Err(KernelError::IOError)
                } else {
                    Ok(entry_word(d, mid as int, (fba - 524) % 512))
                }
            },
        }
    } else {
        Err(KernelError::InvalidArgument)
    }
}

/// Entry `k` of the indirect block `blk` on `disk`;
/// [`KernelError::IOError`] when the block lies past the end of the disk.
fn indirect_entry(disk: &Disk, blk: LogicalBlockAddress, k: usize) -> (r: Result<Option<LogicalBlockAddress>, KernelError>)
    requires
        k < 512,
    ensures
        blk@ >= disk@.len() ==> r == Err::<Option<LogicalBlockAddress>, KernelError>(KernelError::IOError),
        blk@ < disk@.len() ==> r is Ok && lba_code(r->Ok_0) == entry_word(disk@, blk@ as int, k as int),
{
    let b = blk.into_u64();
    if b >= disk.blocks.len() as u64 {
        return Err(KernelError::IOError);
    }
    let block = disk.read_block(b as usize);
    Ok(LogicalBlockAddress::new(read_u64(block.as_slice(), 8 * k)))
}

impl Inode {
    /// The disk block that holds block `fba` of the file: see
    /// [`block_code`]; `None` when no block is allocated there.
    pub fn get(&self, disk: &Disk, fba: FileBlockNumber) -> (r: Result<Option<LogicalBlockAddress>, KernelError>)
        ensures
            match block_code(*self, disk@, fba.0 as int) {
                Ok(w) => r is Ok && lba_code(r->Ok_0) == w,
                Err(e) => r == Err::<Option<LogicalBlockAddress>, KernelError>(e),
            },
    {
        let n = fba.0;
        if n > usize::MAX / 4096 || 4096 * n >= self.size {
            return Ok(None);
        }
        if n < 12 {
            return Ok(self.dblocks[n]);
        }
        if n < 12 + 512 {
            return match self.iblock {
                None => Ok(None),
                Some(ib) => indirect_entry(disk, ib, n - 12),
            };
        }
        if n < 12 + 512 + 512 * 512 {
            match self.diblock {
                None => Ok(None),
                Some(db) => match indirect_entry(disk, db, (n - 524) / 512) {
                    Err(e) => Err(e),
                    Ok(None) => Ok(None),
                    Ok(Some(mid)) => {
                        proof {
                            use_type_invariant(&mid);
                        }
                        indirect_entry(disk, mid, (n - 524) % 512)
                    },
                },
            }
        } else {
            Err(KernelError::InvalidArgument)
        }
    }
}

/// The number of 4 KiB blocks of a file of `size` bytes.
pub open spec fn size_blocks(size: int) -> int {
    (size + 4095) / 4096
}

/// The codes of the disk blocks that hold the blocks of the file of inode
/// `i` on disk `d`, in file order.
pub open spec fn data_blocks(i: Inode, d: Seq<Seq<u8>>) -> Seq<u64> {
    Seq::new(size_blocks(i.size as int) as nat, |f: int| block_code(i, d, f)->Ok_0)
}

/// Whether the blocks of the file of inode `i` can all be freed in `ffs`:
/// each is mapped, lies in the data region and is marked in use in the
/// block bitmap, no two are the same, and the superblock counts them.
pub open spec fn freeable(i: Inode, d: Seq<Seq<u8>>, ffs: &FastFileSystemInner) -> bool {
    let ws = data_blocks(i, d);
    let bits = block_bits(ffs.block_bitmap@);
    let start = data_start(ffs.inode_count as int, ffs.block_count as int, ffs.has_journal as int);
    &&& forall|f: int| 0 <= f < ws.len() ==> #[trigger] block_code(i, d, f) is Ok
    &&& forall|f: int|
        0 <= f < ws.len() ==> {
            &&& start <= #[trigger] ws[f] < start + ffs.block_count
            &&& bit_in(bits, ws[f] as int)
            &&& bit(bits, ws[f] as int)
        }
    &&& forall|f: int, g: int| 0 <= f < g < ws.len() ==> ws[f] != ws[g]
    &&& ffs.sb.block_count_inused >= ws.len()
}

impl Inode {
    /// Frees every data block of the file in the block bitmap, counting
    /// each out of the superblock, and sets the size to zero. The block
    /// addresses in the inode, and the indirect blocks, stay as they were.
    pub fn zeroify(&mut self, disk: &Disk, ffs: &mut FastFileSystemInner)
        requires
            old(ffs).wf(),
            freeable(*old(self), disk@, old(ffs)),
        ensures
            *final(self) == (Inode { size: 0, ..*old(self) }),
            final(ffs).wf(),
            block_bits(final(ffs).block_bitmap@) == clear_bits(
                block_bits(old(ffs).block_bitmap@),
                data_blocks(*old(self), disk@),
            ),
            final(ffs).sb == (SuperBlock {
                block_count_inused: (old(ffs).sb.block_count_inused - data_blocks(
                    *old(self),
                    disk@,
                ).len()) as u64,
                ..old(ffs).sb
            }),
            final(ffs).block_count == old(ffs).block_count,
            final(ffs).inode_count == old(ffs).inode_count,
            final(ffs).has_journal == old(ffs).has_journal,
            final(ffs).debug_journal == old(ffs).debug_journal,
            final(ffs).journal == old(ffs).journal,
            final(ffs).inode_bitmap@ == old(ffs).inode_bitmap@,
            final(ffs).inode_array@ == old(ffs).inode_array@,
            final(ffs).inodes@ == old(ffs).inodes@,
    {
        let ghost ws = data_blocks(*self, disk@);
        let ghost bits0 = block_bits(ffs.block_bitmap@);
        let n = self.size / 4096 + if self.size % 4096 != 0 {
            1
        } else {
            0
        };
        assert(n == ws.len());
        let mut fba: usize = 0;
        while fba < n
            invariant
                *self == *old(self),
                ffs.wf(),
                n == ws.len(),
                fba <= n,
                ws == data_blocks(*self, disk@),
                bits0 == block_bits(old(ffs).block_bitmap@),
                freeable(*self, disk@, old(ffs)),
                block_bits(ffs.block_bitmap@) == clear_bits(bits0, ws.take(fba as int)),
                ffs.sb == (SuperBlock {
                    block_count_inused: (old(ffs).sb.block_count_inused - fba) as u64,
                    ..old(ffs).sb
                }),
                ffs.block_count == old(ffs).block_count,
                ffs.inode_count == old(ffs).inode_count,
                ffs.has_journal == old(ffs).has_journal,
                ffs.debug_journal == old(ffs).debug_journal,
                ffs.journal == old(ffs).journal,
                ffs.inode_bitmap@ == old(ffs).inode_bitmap@,
                ffs.inode_array@ == old(ffs).inode_array@,
                ffs.inodes@ == old(ffs).inodes@,
            decreases n - fba,
        {
            let ghost w = ws[fba as int];
            assert(block_code(*self, disk@, fba as int) is Ok);
            let lba = match self.get(disk, FileBlockNumber(fba)) {
                Ok(Some(l)) => l,
                _ => {
                    assert(false);
                    return;
                },
            };
            assert(lba@ == w);
            let (_b, off) = match lba.into_bitmap_lba_offset(ffs) {
                Some(x) => x,
                None => {
                    assert(false);
                    return;
                },
            };
            let idx = (lba.into_u64() / (BITMAP_BITS as u64)) as usize;
            proof {
                assert forall|j: int| 0 <= j < ws.take(fba as int).len() implies bit_in(
                    bits0,
                    #[trigger] ws.take(fba as int)[j] as int,
                ) by {
                    assert(ws.take(fba as int)[j] == ws[j]);
                }
                lemma_clear_bits(bits0, ws.take(fba as int), w as int);
                assert(!ws.take(fba as int).contains(w)) by {
                    if ws.take(fba as int).contains(w) {
                        let j = choose|j: int| 0 <= j < ws.take(fba as int).len() && ws.take(fba as int)[j] == w;
                        assert(ws[j] == ws[fba as int]);
                    }
                }
                assert(ws.take(fba + 1) =~= ws.take(fba as int).push(w));
                assert(ws.take(fba + 1).drop_last() =~= ws.take(fba as int));
            }
            let ghost before = ffs.block_bitmap@;
            let ok = ffs.block_bitmap[idx].deallocate(off);
            proof {
                assert(block_bits(ffs.block_bitmap@) =~= block_bits(before).update(
                    idx as int,
                    block_bits(before)[idx as int].update(off as int, false),
                ));
            }
            ffs.sb.block_count_inused = ffs.sb.block_count_inused - 1;
            fba = fba + 1;
        }
        assert(ws.take(n as int) =~= ws);
        self.size = 0;
    }
}

} // verus!
