//! Decoding the metadata blocks of the file system from the bytes on disk:
//! the superblock, the allocation bitmaps and the inode array, in the
//! little-endian layout the disk uses.
use crate::bytes::{
    lemma_u32_roundtrip, le_u32, le_u64, lemma_le_u32_bytes, lemma_le_u64_bytes, read_u32, read_u64, u32_le, u64_bytes, u64_le,
};
use crate::project5::ffs::bitmap::bits_of;
use crate::project5::ffs::disk_layout::{
    BlockBitmap, DirectoryBlock, DirectoryBlockEntry, Inode, InodeArray, InodeBitmap, SuperBlock,
};
use crate::project5::ffs::journal::{lemma_words_bytes, words_bytes};
use crate::project5::ffs::types::{lba_code, lemma_inode_number_eq, InodeNumber, LogicalBlockAddress};
use vstd::prelude::*;

verus! {

/// The bytes of the block that holds superblock `sb`.
pub open spec fn superblock_bytes(sb: SuperBlock) -> Seq<u8> {
    sb.magic@ + u64_le(sb.block_count) + u64_le(sb.block_count_inused) + u64_le(sb.inode_count) + u64_le(
        sb.inode_count_inused,
    ) + u64_le(sb.has_journal) + sb._pad@
}

/// The 512 little-endian words of block `b`.
pub open spec fn block_words(b: Seq<u8>) -> Seq<u64> {
    Seq::new(512, |i: int| le_u64(b, 8 * i))
}

/// The code of an optional inode number: 0 for none.
pub open spec fn ino_code(i: Option<InodeNumber>) -> u32 {
    match i {
        Some(n) => n@,
        None => 0,
    }
}

/// The codes of the direct block addresses of on-disk inode `d`.
pub open spec fn dblock_codes(d: Inode) -> Seq<u64> {
    Seq::new(12, |k: int| lba_code(d.dblocks@[k]))
}

/// The 256 bytes of on-disk inode `d`.
pub open spec fn inode_bytes(d: Inode) -> Seq<u8> {
    d.magic@ + u32_le(ino_code(d.ino)) + u32_le(d.ftype) + u64_le(d.size) + u64_le(d.link_count) + words_bytes(
        dblock_codes(d),
    ) + u64_le(lba_code(d.iblock)) + u64_le(lba_code(d.diblock)) + d._pad@
}

/// Copies `N` bytes of `b` from `off` on.
fn copy_out<const N: usize>(b: &[u8], off: usize) -> (r: [u8; N])
    requires
        off + N <= b@.len(),
    ensures
        r@ == b@.subrange(off as int, off + N),
{
    let len = b.len();
    let mut r = [0u8; N];
    let mut i: usize = 0;
    while i < N
        invariant
            i <= N,
            len == b@.len(),
            off + N <= len,
            r@.len() == N,
            forall|k: int| 0 <= k < i ==> r@[k] == b@[off + k],
        decreases N - i,
    {
        r[i] = b[off + i];
        i = i + 1;
    }
    assert(r@ =~= b@.subrange(off as int, off + N));
    r
}

impl SuperBlock {
    /// The superblock that block `b` holds.
    pub fn from_block(b: &[u8; 4096]) -> (r: Self)
        ensures
            superblock_bytes(r) == b@,
    {
        let r = SuperBlock {
            magic: copy_out::<8>(b.as_slice(), 0),
            block_count: read_u64(b.as_slice(), 8),
            block_count_inused: read_u64(b.as_slice(), 16),
            inode_count: read_u64(b.as_slice(), 24),
            inode_count_inused: read_u64(b.as_slice(), 32),
            has_journal: read_u64(b.as_slice(), 40),
            _pad: copy_out::<4048>(b.as_slice(), 48),
        };
        proof {
            lemma_le_u64_bytes(b@, 8);
            lemma_le_u64_bytes(b@, 16);
            lemma_le_u64_bytes(b@, 24);
            lemma_le_u64_bytes(b@, 32);
            lemma_le_u64_bytes(b@, 40);
            assert(superblock_bytes(r) =~= b@);
        }
        r
    }
}

/// The 512 words of block `b`.
fn read_words(b: &[u8; 4096]) -> (r: [u64; 512])
    ensures
        r@ == block_words(b@),
{
    let mut r = [0u64; 512];
    let mut i: usize = 0;
    while i < 512
        invariant
            i <= 512,
            r@.len() == 512,
            forall|k: int| 0 <= k < i ==> r@[k] == le_u64(b@, 8 * k),
        decreases 512 - i,
    {
        r[i] = read_u64(b.as_slice(), 8 * i);
        i = i + 1;
    }
    assert(r@ =~= block_words(b@));
    r
}

impl BlockBitmap {
    /// The block bitmap that block `b` holds.
    pub fn from_block(b: &[u8; 4096]) -> (r: Self)
        ensures
            r@ == bits_of(block_words(b@)),
    {
        BlockBitmap::from_words(read_words(b))
    }
}

impl InodeBitmap {
    /// The inode bitmap that block `b` holds.
    pub fn from_block(b: &[u8; 4096]) -> (r: Self)
        ensures
            r@ == bits_of(block_words(b@)),
    {
        InodeBitmap::from_words(read_words(b))
    }
}

impl Inode {
    /// The on-disk inode in the 256 bytes of `b` from `off` on.
    pub fn from_bytes(b: &[u8], off: usize) -> (r: Self)
        requires
            off + 256 <= b@.len(),
        ensures
            inode_bytes(r) == b@.subrange(off as int, off + 256),
    {
        let len = b.len();
        let mut dblocks: [Option<LogicalBlockAddress>; 12] = [None; 12];
        let mut k: usize = 0;
        while k < 12
            invariant
                k <= 12,
                len == b@.len(),
                off + 256 <= len,
                forall|j: int| 0 <= j < k ==> lba_code(#[trigger] dblocks@[j]) == le_u64(b@, off + 32 + 8 * j),
            decreases 12 - k,
        {
            dblocks[k] = LogicalBlockAddress::new(read_u64(b, off + 32 + 8 * k));
            k = k + 1;
        }
        let r = Inode {
            magic: copy_out::<8>(b, off),
            ino: InodeNumber::new(read_u32(b, off + 8)),
            ftype: read_u32(b, off + 12),
            size: read_u64(b, off + 16),
            link_count: read_u64(b, off + 24),
            dblocks,
            iblock: LogicalBlockAddress::new(read_u64(b, off + 128)),
            diblock: LogicalBlockAddress::new(read_u64(b, off + 136)),
            _pad: copy_out::<112>(b, off + 144),
        };
        proof {
            let s = b@;
            let o = off as int;
            lemma_le_u32_bytes(s, o + 8);
            lemma_le_u32_bytes(s, o + 12);
            lemma_le_u64_bytes(s, o + 16);
            lemma_le_u64_bytes(s, o + 24);
            lemma_le_u64_bytes(s, o + 128);
            lemma_le_u64_bytes(s, o + 136);
            let wb = words_bytes(dblock_codes(r));
            assert forall|i: int| 0 <= i < 96 implies #[trigger] wb[i] == s[o + 32 + i] by {
                let j = i / 8;
                let t = i % 8;
                assert(0 <= j < 12 && 0 <= t < 8 && i == 8 * j + t);
                lemma_le_u64_bytes(s, o + 32 + 8 * j);
                assert(s.subrange(o + 32 + 8 * j, o + 32 + 8 * j + 8)[t] == s[o + 32 + i]);
            }
            assert(wb =~= s.subrange(o + 32, o + 128));
            assert(inode_bytes(r) =~= s.subrange(o, o + 256));
        }
        r
    }
}

impl InodeArray {
    /// The sixteen on-disk inodes that block `b` holds.
    pub fn from_block(b: &[u8; 4096]) -> (r: Self)
        ensures
            forall|k: int| 0 <= k < 16 ==> inode_bytes(#[trigger] r.inodes@[k]) == b@.subrange(256 * k, 256 * k + 256),
    {
        let mut r = InodeArray::default();
        let mut k: usize = 0;
        while k < 16
            invariant
                k <= 16,
                forall|j: int| 0 <= j < k ==> inode_bytes(#[trigger] r.inodes@[j]) == b@.subrange(256 * j, 256 * j + 256),
            decreases 16 - k,
        {
            r.inodes[k] = Inode::from_bytes(b.as_slice(), 256 * k);
            k = k + 1;
        }
        r
    }
}

/// The bytes of a block bitmap on disk: its words, in little-endian order.
pub open spec fn block_bitmap_bytes(b: BlockBitmap) -> Seq<u8> {
    words_bytes(b.words())
}

/// The bytes of an inode bitmap on disk: its words, in little-endian order.
pub open spec fn inode_bitmap_bytes(b: InodeBitmap) -> Seq<u8> {
    words_bytes(b.words())
}

/// The bytes of an inode array block: its sixteen inodes in order.
pub open spec fn inode_array_bytes(a: InodeArray) -> Seq<u8> {
    Seq::new(4096, |i: int| inode_bytes(a.inodes@[i / 256])[i % 256])
}

/// The four little-endian bytes of `v`.
fn u32_bytes(v: u32) -> (r: [u8; 4])
    ensures
        r@ == u32_le(v),
{
    let r = [
        (v & 0xffu32) as u8,
        ((v >> 8u32) & 0xffu32) as u8,
        ((v >> 16u32) & 0xffu32) as u8,
        ((v >> 24u32) & 0xffu32) as u8,
    ];
    assert(r@ =~= u32_le(v));
    r
}

/// Appends the bytes of `s` to `v`.
fn push_all(v: &mut Vec<u8>, s: &[u8])
    ensures
        final(v)@ == old(v)@ + s@,
{
    let n = s.len();
    let mut i: usize = 0;
    while i < n
        invariant
            i <= n,
            n == s@.len(),
            v@ == old(v)@ + s@.subrange(0, i as int),
        decreases n - i,
    {
        v.push(s[i]);
        i = i + 1;
        assert(s@.subrange(0, i as int) =~= s@.subrange(0, i - 1) + seq![s@[i - 1]]);
    }
    assert(s@.subrange(0, n as int) =~= s@);
}

/// Appends the words of `ws` to `v`, each in little-endian order.
fn push_words(v: &mut Vec<u8>, ws: &[u64])
    requires
        ws@.len() * 8 <= usize::MAX,
    ensures
        final(v)@ == old(v)@ + words_bytes(ws@),
{
    let n = ws.len();
    let mut i: usize = 0;
    while i < n
        invariant
            i <= n,
            n == ws@.len(),
            v@ == old(v)@ + words_bytes(ws@.subrange(0, i as int)),
        decreases n - i,
    {
        let b = u64_bytes(ws[i]);
        push_all(v, b.as_slice());
        proof {
            let a = ws@.subrange(0, i as int);
            let c = ws@.subrange(0, i + 1);
            assert forall|k: int| 0 <= k < c.len() * 8 implies #[trigger] words_bytes(c)[k] == (
            words_bytes(a) + u64_le(ws@[i as int]))[k] by {
                assert(k / 8 <= i) by (nonlinear_arith)
                    requires
                        0 <= k < (i + 1) * 8,
                ;
                if k < 8 * i {
                    assert(k / 8 < i) by (nonlinear_arith)
                        requires
                            0 <= k < 8 * i,
                    ;
                } else {
                    assert(k / 8 == i && k % 8 == k - 8 * i) by (nonlinear_arith)
                        requires
                            8 * i <= k < 8 * i + 8,
                    ;
                }
            }
            assert(words_bytes(c) =~= words_bytes(a) + u64_le(ws@[i as int]));
        }
        i = i + 1;
    }
    assert(ws@.subrange(0, n as int) =~= ws@);
}

/// The 4096 bytes of `v` as a block.
fn to_block(v: &Vec<u8>) -> (r: [u8; 4096])
    requires
        v@.len() == 4096,
    ensures
        r@ == v@,
{
    let mut r = [0u8; 4096];
    let mut i: usize = 0;
    while i < 4096
        invariant
            i <= 4096,
            v@.len() == 4096,
            r@.len() == 4096,
            forall|k: int| 0 <= k < i ==> r@[k] == v@[k],
        decreases 4096 - i,
    {
        r[i] = v[i];
        i = i + 1;
    }
    assert(r@ =~= v@);
    r
}

/// The words of `ws` read back from their bytes.
proof fn lemma_block_words_bytes(ws: Seq<u64>)
    requires
        ws.len() == 512,
    ensures
        block_words(words_bytes(ws)) == ws,
{
    assert forall|j: int| 0 <= j < 512 implies #[trigger] block_words(words_bytes(ws))[j] == ws[j] by {
        lemma_words_bytes(ws, j);
    }
    assert(block_words(words_bytes(ws)) =~= ws);
}

impl SuperBlock {
    /// The block that holds the superblock.
    pub fn into_block(&self) -> (r: [u8; 4096])
        ensures
            r@ == superblock_bytes(*self),
    {
        let mut v: Vec<u8> = Vec::new();
        push_all(&mut v, self.magic.as_slice());
        push_all(&mut v, u64_bytes(self.block_count).as_slice());
        push_all(&mut v, u64_bytes(self.block_count_inused).as_slice());
        push_all(&mut v, u64_bytes(self.inode_count).as_slice());
        push_all(&mut v, u64_bytes(self.inode_count_inused).as_slice());
        push_all(&mut v, u64_bytes(self.has_journal).as_slice());
        push_all(&mut v, self._pad.as_slice());
        assert(v@ =~= superblock_bytes(*self));
        to_block(&v)
    }
}

impl BlockBitmap {
    /// The block that holds the bitmap; it reads back as the same bitmap.
    pub fn into_block(&self) -> (r: [u8; 4096])
        ensures
            r@ == block_bitmap_bytes(*self),
            bits_of(block_words(r@)) == self@,
    {
        let w = self.to_words();
        let mut v: Vec<u8> = Vec::new();
        push_words(&mut v, w.as_slice());
        proof {
            self.lemma_words();
            lemma_block_words_bytes(w@);
            assert(v@ =~= words_bytes(w@));
        }
        to_block(&v)
    }
}

impl InodeBitmap {
    /// The block that holds the bitmap; it reads back as the same bitmap.
    pub fn into_block(&self) -> (r: [u8; 4096])
        ensures
            r@ == inode_bitmap_bytes(*self),
            bits_of(block_words(r@)) == self@,
    {
        let w = self.to_words();
        let mut v: Vec<u8> = Vec::new();
        push_words(&mut v, w.as_slice());
        proof {
            self.lemma_words();
            lemma_block_words_bytes(w@);
            assert(v@ =~= words_bytes(w@));
        }
        to_block(&v)
    }
}

impl Inode {
    /// Appends the 256 bytes of the inode to `v`.
    fn push_into(&self, v: &mut Vec<u8>)
        ensures
            final(v)@ == old(v)@ + inode_bytes(*self),
    {
        let mut codes = [0u64; 12];
        let mut k: usize = 0;
        while k < 12
            invariant
                k <= 12,
                codes@.len() == 12,
                forall|j: int| 0 <= j < k ==> codes@[j] == lba_code(#[trigger] self.dblocks@[j]),
            decreases 12 - k,
        {
            codes[k] = match self.dblocks[k] {
                Some(a) => a.into_u64(),
                None => 0,
            };
            k = k + 1;
        }
        assert(codes@ =~= dblock_codes(*self));
        let ino = match self.ino {
            Some(n) => n.into_u32(),
            None => 0,
        };
        let ib = match self.iblock {
            Some(a) => a.into_u64(),
            None => 0,
        };
        let db = match self.diblock {
            Some(a) => a.into_u64(),
            None => 0,
        };
        push_all(v, self.magic.as_slice());
        push_all(v, u32_bytes(ino).as_slice());
        push_all(v, u32_bytes(self.ftype).as_slice());
        push_all(v, u64_bytes(self.size).as_slice());
        push_all(v, u64_bytes(self.link_count).as_slice());
        push_words(v, codes.as_slice());
        push_all(v, u64_bytes(ib).as_slice());
        push_all(v, u64_bytes(db).as_slice());
        push_all(v, self._pad.as_slice());
        assert(v@ =~= old(v)@ + inode_bytes(*self));
    }
}

impl InodeArray {
    /// The block that holds the sixteen inodes; each reads back from its
    /// 256 bytes.
    pub fn into_block(&self) -> (r: [u8; 4096])
        ensures
            r@ == inode_array_bytes(*self),
            forall|k: int| 0 <= k < 16 ==> inode_bytes(#[trigger] self.inodes@[k]) == r@.subrange(256 * k, 256 * k + 256),
    {
        let mut v: Vec<u8> = Vec::new();
        let mut k: usize = 0;
        while k < 16
            invariant
                k <= 16,
                v@.len() == 256 * k,
                forall|i: int| 0 <= i < 256 * k ==> #[trigger] v@[i] == inode_bytes(self.inodes@[i / 256])[i % 256],
            decreases 16 - k,
        {
            let ghost before = v@;
            self.inodes[k].push_into(&mut v);
            proof {
                assert forall|i: int| 0 <= i < 256 * (k + 1) implies #[trigger] v@[i] == inode_bytes(self.inodes@[i / 256])[i % 256] by {
                    if i >= 256 * k {
                        assert(i / 256 == k && i % 256 == i - 256 * k) by (nonlinear_arith)
                            requires
                                256 * k <= i < 256 * k + 256,
                        ;
                    }
                }
            }
            k = k + 1;
        }
        let r = to_block(&v);
        proof {
            assert(r@ =~= inode_array_bytes(*self));
            assert forall|k: int| 0 <= k < 16 implies inode_bytes(#[trigger] self.inodes@[k]) == r@.subrange(256 * k, 256 * k + 256) by {
                assert forall|t: int| 0 <= t < 256 implies #[trigger] r@.subrange(256 * k, 256 * k + 256)[t] == inode_bytes(self.inodes@[k])[t] by {
                    assert((256 * k + t) / 256 == k && (256 * k + t) % 256 == t) by (nonlinear_arith)
                        requires
                            0 <= t < 256,
                    ;
                }
                assert(inode_bytes(self.inodes@[k]).len() == 256);
                assert(inode_bytes(self.inodes@[k]) =~= r@.subrange(256 * k, 256 * k + 256));
            }
        }
        r
    }
}

/// The 256 bytes of directory entry `e`: the inode number (0 for an unused
/// entry), the name's length and the 251 bytes of the name.
pub open spec fn dir_entry_bytes(e: DirectoryBlockEntry) -> Seq<u8> {
    u32_le(ino_code(e.inode)) + seq![e.name_len] + e.name@
}

/// The bytes of a directory block: its sixteen entries in order.
pub open spec fn directory_block_bytes(b: DirectoryBlock) -> Seq<u8> {
    Seq::new(4096, |i: int| dir_entry_bytes(b.entries@[i / 256])[i % 256])
}

impl DirectoryBlockEntry {
    /// Appends the 256 bytes of the entry to `v`.
    fn push_into(&self, v: &mut Vec<u8>)
        ensures
            final(v)@ == old(v)@ + dir_entry_bytes(*self),
    {
        let ino = match self.inode {
            Some(n) => n.into_u32(),
            None => 0,
        };
        push_all(v, u32_bytes(ino).as_slice());
        let l = [self.name_len];
        push_all(v, l.as_slice());
        push_all(v, self.name.as_slice());
        assert(l@ =~= seq![self.name_len]);
        assert(v@ =~= old(v)@ + dir_entry_bytes(*self));
    }

    /// The directory entry in the 256 bytes of `b` from `off` on.
    pub fn from_bytes(b: &[u8], off: usize) -> (r: Self)
        requires
            off + 256 <= b@.len(),
        ensures
            dir_entry_bytes(r) == b@.subrange(off as int, off + 256),
    {
        let len = b.len();
        let r = DirectoryBlockEntry {
            inode: InodeNumber::new(read_u32(b, off)),
            name_len: b[off + 4],
            name: copy_out::<251>(b, off + 5),
        };
        proof {
            lemma_le_u32_bytes(b@, off as int);
            assert(dir_entry_bytes(r) =~= b@.subrange(off as int, off + 256));
        }
        r
    }
}

impl DirectoryBlock {
    /// The block that holds the sixteen entries.
    pub fn into_block(&self) -> (r: [u8; 4096])
        ensures
            r@ == directory_block_bytes(*self),
    {
        let mut v: Vec<u8> = Vec::new();
        let mut k: usize = 0;
        while k < 16
            invariant
                k <= 16,
                v@.len() == 256 * k,
                forall|i: int| 0 <= i < 256 * k ==> #[trigger] v@[i] == dir_entry_bytes(self.entries@[i / 256])[i % 256],
            decreases 16 - k,
        {
            self.entries[k].push_into(&mut v);
            proof {
                assert forall|i: int| 0 <= i < 256 * (k + 1) implies #[trigger] v@[i] == dir_entry_bytes(self.entries@[i / 256])[i % 256] by {
                    if i >= 256 * k {
                        assert(i / 256 == k && i % 256 == i - 256 * k) by (nonlinear_arith)
                            requires
                                256 * k <= i < 256 * k + 256,
                        ;
                    }
                }
            }
            k = k + 1;
        }
        let r = to_block(&v);
        assert(r@ =~= directory_block_bytes(*self));
        r
    }

    /// The directory block that block `b` holds.
    pub fn from_block(b: &[u8; 4096]) -> (r: Self)
        ensures
            directory_block_bytes(r) == b@,
    {
        let mut r = DirectoryBlock::default();
        let mut k: usize = 0;
        while k < 16
            invariant
                k <= 16,
                forall|j: int| 0 <= j < k ==> dir_entry_bytes(#[trigger] r.entries@[j]) == b@.subrange(256 * j, 256 * j + 256),
            decreases 16 - k,
        {
            r.entries[k] = DirectoryBlockEntry::from_bytes(b.as_slice(), 256 * k);
            k = k + 1;
        }
        proof {
            assert forall|i: int| 0 <= i < 4096 implies #[trigger] directory_block_bytes(r)[i] == b@[i] by {
                let j = i / 256;
                let t = i % 256;
                assert(0 <= j < 16 && 0 <= t < 256 && i == 256 * j + t) by (nonlinear_arith)
                    requires
                        0 <= i < 4096,
                        j == i / 256,
                        t == i % 256,
                ;
                assert(dir_entry_bytes(r.entries@[j]) == b@.subrange(256 * j, 256 * j + 256));
            }
            assert(directory_block_bytes(r) =~= b@);
        }
        r
    }
}

/// Decoding the bytes of a directory block gives the block back.
pub proof fn lemma_directory_block_roundtrip(a: DirectoryBlock, b: DirectoryBlock)
    requires
        directory_block_bytes(a) == directory_block_bytes(b),
        forall|j: int| 0 <= j < 16 ==> ((#[trigger] a.entries@[j]).inode matches Some(x) ==> x@ != 0),
        forall|j: int| 0 <= j < 16 ==> ((#[trigger] b.entries@[j]).inode matches Some(x) ==> x@ != 0),
    ensures
        a == b,
{
    assert forall|j: int| 0 <= j < 16 implies #[trigger] a.entries@[j] == b.entries@[j] by {
        let ea = a.entries@[j];
        let eb = b.entries@[j];
        assert forall|t: int| 0 <= t < 256 implies #[trigger] dir_entry_bytes(ea)[t] == dir_entry_bytes(eb)[t] by {
            assert((256 * j + t) / 256 == j && (256 * j + t) % 256 == t && 0 <= 256 * j + t < 4096) by (nonlinear_arith)
                requires
                    0 <= t < 256,
                    0 <= j < 16,
            ;
            assert(directory_block_bytes(a)[256 * j + t] == dir_entry_bytes(ea)[t]);
            assert(directory_block_bytes(b)[256 * j + t] == dir_entry_bytes(eb)[t]);
        }
        assert(dir_entry_bytes(ea) =~= dir_entry_bytes(eb));
        assert(dir_entry_bytes(ea).subrange(0, 4) =~= u32_le(ino_code(ea.inode)));
        assert(dir_entry_bytes(eb).subrange(0, 4) =~= u32_le(ino_code(eb.inode)));
        lemma_u32_roundtrip(ino_code(ea.inode));
        lemma_u32_roundtrip(ino_code(eb.inode));
        assert(ino_code(ea.inode) == ino_code(eb.inode));
        match (ea.inode, eb.inode) {
            (Some(x), Some(y)) => { lemma_inode_number_eq(x, y); },
            _ => {},
        }
        assert(ea.name_len == dir_entry_bytes(ea)[4]);
        assert(ea.name@ =~= dir_entry_bytes(ea).subrange(5, 256));
        assert(eb.name@ =~= dir_entry_bytes(eb).subrange(5, 256));
        assert(ea.name@ == eb.name@);
        assert(ea.name =~= eb.name);
        assert(ea.inode == eb.inode);
        assert(ea.name_len == eb.name_len);
    }
    assert(a.entries@ =~= b.entries@);
    assert(a.entries =~= b.entries);
}

} // verus!
