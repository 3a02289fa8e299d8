//! On-disk layout of the file system's metadata structures.
//!
//! These types describe the disk-resident data: the superblock, the block and
//! inode allocation bitmaps, the inode table, indirect blocks, directory
//! blocks and the journal blocks. Each occupies exactly one 4 KiB block (or,
//! for inodes and directory entries, a 256-byte slot of one) and converts
//! from and to the raw bytes of that block with the little-endian layout the
//! disk uses.
use crate::project5::ffs::bitmap::{
    bits_deallocate, bits_is_allocated, bits_of, bits_try_allocate, lemma_zero_bits, BITMAP_BITS,
};
use crate::project5::ffs::types::{InodeNumber, LogicalBlockAddress};
use vstd::prelude::*;
use vstd::string::StringSliceAdditionalSpecFns;
use vstd::utf8::valid_utf8;

verus! {

/// A marker that only this module can create.
pub struct Private {
    _p: (),
}

/// On-disk representation of the superblock of the Fast File System (FFS).
///
/// The superblock holds the total number of blocks and inodes, how many of
/// each are in use, and whether the file system has a journal.
#[derive(Clone, Copy)]
pub struct SuperBlock {
    /// File system magic: "KeOSFFS\0".
    pub magic: [u8; 8],
    /// Total number of blocks in the filesystem.
    pub block_count: u64,
    /// In-used count of blocks in the filesystem.
    pub block_count_inused: u64,
    /// Total number of inodes in the filesystem.
    pub inode_count: u64,
    /// In-used count of inodes in the filesystem.
    pub inode_count_inused: u64,
    /// A indicator that this filesystem have journaling feature.
    pub has_journal: u64,
    /// Padding to align to Block size.
    pub _pad: [u8; 4048],
}

impl Default for SuperBlock {
    fn default() -> (r: Self)
        ensures
            r.magic@ == seq![0u8; 8],
            r.block_count == 0,
            r.block_count_inused == 0,
            r.inode_count == 0,
            r.inode_count_inused == 0,
            r.has_journal == 0,
    {
        let r = Self {
            magic: [0; 8],
            block_count: 0,
            block_count_inused: 0,
            inode_count: 0,
            inode_count_inused: 0,
            has_journal: 0,
            _pad: [0; 4048],
        };
        assert(r.magic@ =~= seq![0u8; 8]);
        r
    }
}

/// `N` unused block addresses.
pub(crate) fn no_blocks<const N: usize>() -> (r: [Option<LogicalBlockAddress>; N])
    ensures
        forall|i: int| 0 <= i < N ==> #[trigger] r@[i] == None::<LogicalBlockAddress>,
{
    let mut r: [Option<LogicalBlockAddress>; N] = [None; N];
    let mut i: usize = 0;
    while i < N
        invariant
            0 <= i <= N,
            forall|j: int| 0 <= j < i ==> #[trigger] r@[j] == None::<LogicalBlockAddress>,
        decreases N - i,
    {
        r[i] = None;
        i = i + 1;
    }
    r
}

/// Represents the on-disk block allocation bitmap for the file system.
///
/// Each bit corresponds to a single block on disk: `1` means the block is in
/// use and `0` means it is free.
pub struct BlockBitmap {
    bits: [u64; 512],
}

impl View for BlockBitmap {
    type V = Seq<bool>;

    closed spec fn view(&self) -> Seq<bool> {
        bits_of(self.bits@)
    }
}

impl Default for BlockBitmap {
    fn default() -> (r: Self)
        ensures
            r@.len() == BITMAP_BITS,
            forall|i: int| 0 <= i < BITMAP_BITS ==> !#[trigger] r@[i],
    {
        let r = BlockBitmap { bits: [0; 512] };
        proof {
            lemma_zero_bits(r.bits);
        }
        r
    }
}

impl BlockBitmap {
    /// A bitmap has one bit for each of [`BITMAP_BITS`] positions.
    pub proof fn lemma_len(&self)
        ensures
            self@.len() == BITMAP_BITS,
    {
    }

    /// The bitmap whose 512 words are `bits`.
    pub(crate) fn from_words(bits: [u64; 512]) -> (r: Self)
        ensures
            r@ == bits_of(bits@),
    {
        BlockBitmap { bits }
    }

    /// The 512 words that hold the bitmap, position `64 * w + i` being bit
    /// `i` of word `w`.
    pub closed spec fn words(&self) -> Seq<u64> {
        self.bits@
    }

    /// The bitmap is the bits of its words.
    pub proof fn lemma_words(&self)
        ensures
            self.words().len() == 512,
            bits_of(self.words()) == self@,
    {
    }

    /// The 512 words of the bitmap.
    pub(crate) fn to_words(&self) -> (r: [u64; 512])
        ensures
            r@ == self.words(),
    {
        self.bits
    }

    /// Checks whether a block at the given position is allocated.
    pub fn is_allocated(&self, pos: usize) -> (r: bool)
        requires
            pos < BITMAP_BITS,
        ensures
            self@.len() == BITMAP_BITS,
            r == self@[pos as int],
    {
        bits_is_allocated(&self.bits, pos)
    }

    /// Attempts to allocate a block at the given position.
    ///
    /// Returns `true` if the block was free and is now marked as allocated,
    /// and `false` (with no change) if it was already allocated.
    pub fn try_allocate(&mut self, pos: usize) -> (r: bool)
        requires
            pos < BITMAP_BITS,
        ensures
            old(self)@.len() == BITMAP_BITS,
            r == !old(self)@[pos as int],
            final(self)@ == old(self)@.update(pos as int, true),
    {
        bits_try_allocate(&mut self.bits, pos)
    }

    /// Deallocates a block at the given position.
    ///
    /// Returns `true` if the block was allocated and is now free, and `false`
    /// (with no change) if it was already free.
    pub fn deallocate(&mut self, pos: usize) -> (r: bool)
        requires
            pos < BITMAP_BITS,
        ensures
            old(self)@.len() == BITMAP_BITS,
            r == old(self)@[pos as int],
            final(self)@ == old(self)@.update(pos as int, false),
    {
        bits_deallocate(&mut self.bits, pos)
    }
}

/// Represents the on-disk inode allocation bitmap for the file system.
///
/// Each bit corresponds to a single inode: `1` means the inode is in use and
/// `0` means it is free.
pub struct InodeBitmap {
    bits: [u64; 512],
}

impl View for InodeBitmap {
    type V = Seq<bool>;

    closed spec fn view(&self) -> Seq<bool> {
        bits_of(self.bits@)
    }
}

impl Default for InodeBitmap {
    fn default() -> (r: Self)
        ensures
            r@.len() == BITMAP_BITS,
            forall|i: int| 0 <= i < BITMAP_BITS ==> !#[trigger] r@[i],
    {
        let r = InodeBitmap { bits: [0; 512] };
        proof {
            lemma_zero_bits(r.bits);
        }
        r
    }
}

impl InodeBitmap {
    /// A bitmap has one bit for each of [`BITMAP_BITS`] positions.
    pub proof fn lemma_len(&self)
        ensures
            self@.len() == BITMAP_BITS,
    {
    }

    /// The bitmap whose 512 words are `bits`.
    pub(crate) fn from_words(bits: [u64; 512]) -> (r: Self)
        ensures
            r@ == bits_of(bits@),
    {
        InodeBitmap { bits }
    }

    /// The 512 words that hold the bitmap, position `64 * w + i` being bit
    /// `i` of word `w`.
    pub closed spec fn words(&self) -> Seq<u64> {
        self.bits@
    }

    /// The bitmap is the bits of its words.
    pub proof fn lemma_words(&self)
        ensures
            self.words().len() == 512,
            bits_of(self.words()) == self@,
    {
    }

    /// The 512 words of the bitmap.
    pub(crate) fn to_words(&self) -> (r: [u64; 512])
        ensures
            r@ == self.words(),
    {
        self.bits
    }

    /// Checks whether an inode at the given position is allocated.
    pub fn is_allocated(&self, pos: usize) -> (r: bool)
        requires
            pos < BITMAP_BITS,
        ensures
            self@.len() == BITMAP_BITS,
            r == self@[pos as int],
    {
        bits_is_allocated(&self.bits, pos)
    }

    /// Attempts to allocate an inode at the given position.
    ///
    /// Returns `true` if the inode was free and is now marked as allocated,
    /// and `false` (with no change) if it was already allocated.
    pub fn try_allocate(&mut self, pos: usize) -> (r: bool)
        requires
            pos < BITMAP_BITS,
        ensures
            old(self)@.len() == BITMAP_BITS,
            r == !old(self)@[pos as int],
            final(self)@ == old(self)@.update(pos as int, true),
    {
        bits_try_allocate(&mut self.bits, pos)
    }

    /// Deallocates an inode at the given position.
    ///
    /// Returns `true` if the inode was allocated and is now free, and `false`
    /// (with no change) if it was already free.
    pub fn deallocate(&mut self, pos: usize) -> (r: bool)
        requires
            pos < BITMAP_BITS,
        ensures
            old(self)@.len() == BITMAP_BITS,
            r == old(self)@[pos as int],
            final(self)@ == old(self)@.update(pos as int, false),
    {
        bits_deallocate(&mut self.bits, pos)
    }
}

/// Represent a single inode within an inode array.
#[derive(Clone, Copy)]
pub struct Inode {
    /// File system magic: "KeOSFFSI".
    pub magic: [u8; 8],
    /// The unique inode number assigned to this file or directory.
    pub ino: Option<InodeNumber>,
    /// The type of the file, as the code of a [`FileType`].
    pub ftype: u32,
    /// The total size of the file in bytes.
    pub size: u64,
    /// The number of links alive in the file system.
    pub link_count: u64,
    /// Directly mapped data blocks.
    pub dblocks: [Option<LogicalBlockAddress>; 12],
    /// An indirect block, which contains pointers to additional data blocks.
    pub iblock: Option<LogicalBlockAddress>,
    /// A doubly indirect block, which contains pointers to indirect blocks.
    pub diblock: Option<LogicalBlockAddress>,
    /// A padding to align to the power of two.
    pub _pad: [u8; 112],
}

impl Default for Inode {
    fn default() -> (r: Self)
        ensures
            r.magic@ == seq![0u8; 8],
            r.ino is None,
            r.ftype == 0,
            r.size == 0,
            r.link_count == 0,
            forall|i: int| 0 <= i < 12 ==> #[trigger] r.dblocks@[i] == None::<LogicalBlockAddress>,
            r.iblock is None,
            r.diblock is None,
    {
        let dblocks = no_blocks::<12>();
        let r = Self {
            magic: [0; 8],
            ino: None,
            ftype: 0,
            size: 0,
            link_count: 0,
            dblocks,
            iblock: None,
            diblock: None,
            _pad: [0; 112],
        };
        assert(r.magic@ =~= seq![0u8; 8]);
        r
    }
}

/// Represents a fixed-size array of inodes loaded from a block: sixteen
/// 256-byte inodes.
#[derive(Clone, Copy)]
pub struct InodeArray {
    pub inodes: [Inode; 16],
}

impl Default for InodeArray {
    fn default() -> (r: Self)
        ensures
            forall|i: int| 0 <= i < 16 ==> (#[trigger] r.inodes@[i]).ino is None,
    {
        InodeArray { inodes: [Inode::default();16] }
    }
}

/// Represents an indirect block: 512 addresses of further blocks.
pub struct IndirectBlock {
    pub lbas: [Option<LogicalBlockAddress>; 512],
}

impl Default for IndirectBlock {
    fn default() -> (r: Self)
        ensures
            forall|i: int| 0 <= i < 512 ==> #[trigger] r.lbas@[i] == None::<LogicalBlockAddress>,
    {
        IndirectBlock { lbas: no_blocks::<512>() }
    }
}

/// Represent a single directory entry within a directory block.
#[derive(Clone, Copy, Debug)]
pub struct DirectoryBlockEntry {
    /// The inode associated with this directory entry.
    /// - `Some(inode)`: a valid file or directory.
    /// - `None`: an unused or deleted entry.
    pub inode: Option<InodeNumber>,
    /// The length of the file or directory name stored in `name`.
    pub name_len: u8,
    /// The name of the file or directory; only the first `name_len` bytes are
    /// meaningful.
    pub name: [u8; 251],
}

impl Default for DirectoryBlockEntry {
    fn default() -> (r: Self)
        ensures
            r.inode is None,
            r.name_len == 0,
    {
        Self { inode: None, name_len: 0, name: [0; 251] }
    }
}

/// `core::str::from_utf8`: the bytes as a string slice when they are valid
/// UTF-8, `None` otherwise.
#[verifier::external_body]
fn str_from_utf8(b: &[u8]) -> (r: Option<&str>)
    ensures
        match r {
            Some(s) => valid_utf8(b@) && s.spec_bytes() == b@,
            None => !valid_utf8(b@),
        },
{
    core::str::from_utf8(b).ok()
}

impl DirectoryBlockEntry {
    /// The meaningful bytes of the name.
    pub open spec fn name_bytes(&self) -> Seq<u8> {
        self.name@.subrange(0, self.name_len as int)
    }

    /// Constructs a new directory entry from an inode number and name.
    ///
    /// Returns `None` if the name is longer than 251 bytes.
    pub fn from_ino_name(ino: InodeNumber, name: &str) -> (r: Option<Self>)
        ensures
            name.spec_bytes().len() <= 251 <==> r is Some,
            r matches Some(e) ==> {
                &&& e.inode == Some(ino)
                &&& e.name_len == name.spec_bytes().len()
                &&& e.name_bytes() == name.spec_bytes()
                &&& forall|i: int| e.name_len <= i < 251 ==> #[trigger] e.name@[i] == 0
            },
    {
        let bytes = name.as_bytes();
        let name_len = bytes.len();
        if name_len <= 251 {
            let mut out = DirectoryBlockEntry { inode: Some(ino), name_len: name_len as u8, name: [0; 251] };
            let mut i: usize = 0;
            while i < name_len
                invariant
                    0 <= i <= name_len,
                    name_len <= 251,
                    bytes@ == name.spec_bytes(),
                    bytes@.len() == name_len,
                    out.inode == Some(ino),
                    out.name_len == name_len,
                    forall|j: int| 0 <= j < i ==> #[trigger] out.name@[j] == bytes@[j],
                    forall|j: int| i <= j < 251 ==> #[trigger] out.name@[j] == 0,
                decreases name_len - i,
            {
                out.name[i] = bytes[i];
                i = i + 1;
            }
            assert(out.name_bytes() =~= name.spec_bytes());
            Some(out)
        } else {
            None
        }
    }

    /// Returns the name of the directory entry as a string slice: `None` for
    /// an unused entry or a name that is not valid UTF-8.
    pub fn name(&self) -> (r: Option<&str>)
        requires
            self.name_len <= 251,
        ensures
            match r {
                Some(s) => {
                    &&& self.inode is Some
                    &&& valid_utf8(self.name_bytes())
                    &&& s.spec_bytes() == self.name_bytes()
                },
                None => self.inode is None || !valid_utf8(self.name_bytes()),
            },
    {
        match self.inode {
            Some(_) => {
                let bytes = vstd::slice::slice_subrange(
                    self.name.as_slice(),
                    0,
                    self.name_len as usize,
                );
                str_from_utf8(bytes)
            },
            None => None,
        }
    }
}

/// Represents a block that contains sixteen directory entries.
#[derive(Clone, Copy)]
pub struct DirectoryBlock {
    pub entries: [DirectoryBlockEntry; 16],
}

impl Default for DirectoryBlock {
    fn default() -> (r: Self)
        ensures
            forall|i: int| 0 <= i < 16 ==> (#[trigger] r.entries@[i]).inode is None && r.entries@[i].name_len == 0,
    {
        DirectoryBlock { entries: [DirectoryBlockEntry::default();16] }
    }
}

/// Represents the on-disk metadata for the journal superblock.
pub struct JournalSb {
    /// Journal magic: "KeOSJOUR".
    pub magic: [u8; 8],
    /// Indicate journal has been commited.
    pub commited: u64,
    /// Transaction id.
    pub tx_id: u64,
    /// Padding to fill a full block (4096 bytes).
    pub _pad: [u8; 4072],
}

impl Default for JournalSb {
    fn default() -> (r: Self)
        ensures
            r.magic@ == seq![0u8; 8],
            r.commited == 0,
            r.tx_id == 0,
    {
        let r = Self { magic: [0; 8], commited: 0, tx_id: 0, _pad: [0; 4072] };
        assert(r.magic@ =~= seq![0u8; 8]);
        r
    }
}

/// Represents a journal transaction header: the addresses of the blocks that
/// the transaction writes, in the order of the journal data blocks.
pub struct JournalTxBegin {
    /// Transaction id.
    pub tx_id: u64,
    /// Array of logical block addresses involved in the transaction.
    /// - `Some(lba)`: a block to be committed.
    /// - `None`: an unused slot.
    pub lbas: [Option<LogicalBlockAddress>; 511],
}

impl JournalTxBegin {
    /// Creates a new, empty journal `TxBegin` block.
    pub fn new(tx_id: u64) -> (r: Box<Self>)
        ensures
            r.tx_id == tx_id,
            forall|i: int| 0 <= i < 511 ==> #[trigger] r.lbas@[i] == None::<LogicalBlockAddress>,
    {
        Box::new(Self { tx_id, lbas: no_blocks::<511>() })
    }
}

/// Represents the end of a journal transaction.
pub struct JournalTxEnd {
    /// Transaction id.
    pub tx_id: u64,
    pub _pad: [u8; 4088],
}

impl JournalTxEnd {
    /// Creates a new, empty journal `TxEnd` block.
    pub fn new(tx_id: u64) -> (r: Box<Self>)
        ensures
            r.tx_id == tx_id,
            r._pad@ == Seq::new(4088, |i: int| 0u8),
    {
        let pad = [0u8; 4088];
        assert(pad@ =~= Seq::new(4088, |i: int| 0u8));
        Box::new(Self { tx_id, _pad: pad })
    }
}

} // verus!
