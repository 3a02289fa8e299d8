//! Metadata journaling by write-ahead logging.
//!
//! A transaction collects metadata block writes. On commit it writes, into
//! the journal area: a `TxBegin` block that lists the destination of each
//! block, the blocks themselves, and a `TxEnd` block with the same
//! transaction id; then it sets the `commited` flag of the journal
//! superblock. Checkpointing copies the journaled blocks to their
//! destinations and clears the flag. Recovery, after a crash, checkpoints
//! again when the flag is set and the `TxBegin`/`TxEnd` pair matches, and
//! otherwise discards the journal.
//!
//! The journal area starts at block `j` of the disk: the journal superblock
//! at `j`, `TxBegin` at `j + 1`, the journaled blocks from `j + 2` on, and
//! `TxEnd` right after the last of them.
use crate::bytes::{le_u64, lemma_le_u64_bytes, lemma_u64_roundtrip, read_u64, u64_le, write_u64};
use crate::error::KernelError;
use crate::project5::ffs::disk_layout::{JournalSb, JournalTxBegin, JournalTxEnd};
use crate::project5::ffs::types::{lba_code, LogicalBlockAddress};
use core::marker::PhantomData;
use vstd::prelude::*;

verus! {

/// The bytes of `ws`, each word in little-endian order.
pub open spec fn words_bytes(ws: Seq<u64>) -> Seq<u8> {
    Seq::new((ws.len() * 8) as nat, |i: int| u64_le(ws[i / 8])[i % 8])
}

/// Word `j` of `words_bytes(ws)` reads back as `ws[j]`.
pub proof fn lemma_words_bytes(ws: Seq<u64>, j: int)
    requires
        0 <= j < ws.len(),
    ensures
        le_u64(words_bytes(ws), 8 * j) == ws[j],
{
    let b = words_bytes(ws);
    assert forall|t: int| 0 <= t < 8 implies #[trigger] b[8 * j + t] == u64_le(ws[j])[t] by {
        assert((8 * j + t) / 8 == j && (8 * j + t) % 8 == t) by (nonlinear_arith)
            requires
                0 <= t < 8,
        ;
        assert(8 * j + t < ws.len() * 8) by (nonlinear_arith)
            requires
                0 <= t < 8,
                0 <= j < ws.len(),
        ;
    }
    lemma_u64_roundtrip(ws[j]);
}

/// The bytes of a journal superblock.
pub open spec fn journal_sb_bytes(sb: JournalSb) -> Seq<u8> {
    sb.magic@ + u64_le(sb.commited) + u64_le(sb.tx_id) + sb._pad@
}

/// The words of a `TxBegin` block: the transaction id, then the code of each
/// of the 511 block addresses (0 for an unused slot).
pub open spec fn tx_begin_words(tb: JournalTxBegin) -> Seq<u64> {
    seq![tb.tx_id] + Seq::new(511, |i: int| lba_code(tb.lbas@[i]))
}

/// The bytes of a `TxBegin` block.
pub open spec fn tx_begin_bytes(tb: JournalTxBegin) -> Seq<u8> {
    words_bytes(tx_begin_words(tb))
}

/// The bytes of a `TxEnd` block.
pub open spec fn tx_end_bytes(te: JournalTxEnd) -> Seq<u8> {
    u64_le(te.tx_id) + te._pad@
}

/// Copies `src` into `dst` from `off` on.
fn copy_into(dst: &mut [u8; 4096], off: usize, src: &[u8])
    requires
        off + src@.len() <= 4096,
    ensures
        final(dst)@ == old(dst)@.subrange(0, off as int) + src@ + old(dst)@.subrange(
            off + src@.len(),
            4096,
        ),
{
    let mut i: usize = 0;
    while i < src.len()
        invariant
            i <= src@.len(),
            off + src@.len() <= 4096,
            dst@.len() == 4096,
            forall|k: int|
                0 <= k < 4096 ==> #[trigger] dst@[k] == if off <= k < off + i {
                    src@[k - off]
                } else {
                    old(dst)@[k]
                },
        decreases src@.len() - i,
    {
        dst[off + i] = src[i];
        i = i + 1;
    }
    assert(dst@ =~= old(dst)@.subrange(0, off as int) + src@ + old(dst)@.subrange(
        off + src@.len(),
        4096,
    ));
}

impl JournalSb {
    /// Writes this superblock to the first journal block, `j`;
    /// [`KernelError::IOError`], with nothing written, past the end of the
    /// disk.
    pub fn writeback(&self, disk: &mut Disk, j: LogicalBlockAddress) -> (r: Result<(), KernelError>)
        ensures
            j@ < old(disk)@.len() ==> r is Ok && final(disk)@ == old(disk)@.update(j@ as int, journal_sb_bytes(*self)),
            j@ >= old(disk)@.len() ==> r == Err::<(), KernelError>(KernelError::IOError) && final(disk)@
                == old(disk)@,
    {
        let b = self.into_block();
        disk.write_at(j, &b)
    }

    /// The block that holds this superblock.
    pub fn into_block(&self) -> (r: [u8; 4096])
        ensures
            r@ == journal_sb_bytes(*self),
    {
        let mut b = [0u8; 4096];
        copy_into(&mut b, 0, &self.magic);
        write_u64(&mut b, 8, self.commited);
        write_u64(&mut b, 16, self.tx_id);
        copy_into(&mut b, 24, &self._pad);
        assert(b@ =~= journal_sb_bytes(*self));
        b
    }

    /// The superblock that block `b` holds.
    pub fn from_block(b: &[u8; 4096]) -> (r: Self)
        ensures
            journal_sb_bytes(r) == b@,
            r.commited == le_u64(b@, 8),
            r.tx_id == le_u64(b@, 16),
    {
        let mut magic = [0u8; 8];
        let mut i: usize = 0;
        while i < 8
            invariant
                i <= 8,
                forall|k: int| 0 <= k < i ==> magic@[k] == b@[k],
            decreases 8 - i,
        {
            magic[i] = b[i];
            i = i + 1;
        }
        let mut pad = [0u8; 4072];
        let mut i: usize = 0;
        while i < 4072
            invariant
                i <= 4072,
                forall|k: int| 0 <= k < i ==> pad@[k] == b@[24 + k],
            decreases 4072 - i,
        {
            pad[i] = b[24 + i];
            i = i + 1;
        }
        let r = JournalSb { magic, commited: read_u64(b, 8), tx_id: read_u64(b, 16), _pad: pad };
        proof {
            lemma_le_u64_bytes(b@, 8);
            lemma_le_u64_bytes(b@, 16);
            assert(journal_sb_bytes(r) =~= b@);
        }
        r
    }
}

/// The on-disk code of an optional block address: 0 for none.
pub fn lba_code_exec(a: Option<LogicalBlockAddress>) -> (r: u64)
    ensures
        r == lba_code(a),
{
    match a {
        Some(l) => l.into_u64(),
        None => 0,
    }
}

impl JournalTxBegin {
    /// The `TxBegin` held in block `lba`; [`KernelError::IOError`] past the
    /// end of the disk.
    pub fn from_io(disk: &Disk, lba: LogicalBlockAddress) -> (r: Result<Self, KernelError>)
        ensures
            match r {
                Ok(tb) => lba@ < disk@.len() && tb.tx_id == le_u64(disk@[lba@ as int], 0) && forall|i: int|
                    0 <= i < 511 ==> lba_code(#[trigger] tb.lbas@[i]) == le_u64(disk@[lba@ as int], 8 + 8 * i),
                Err(e) => e == KernelError::IOError && lba@ >= disk@.len(),
            },
    {
        match disk.read_at(lba) {
            Ok(b) => Ok(JournalTxBegin::from_block(&b)),
            Err(e) => Err(e),
        }
    }

    /// The block that holds this `TxBegin`.
    pub fn into_block(&self) -> (r: [u8; 4096])
        ensures
            r@ == tx_begin_bytes(*self),
    {
        let ghost want = tx_begin_bytes(*self);
        let ghost words = tx_begin_words(*self);
        let mut b = [0u8; 4096];
        write_u64(&mut b, 0, self.tx_id);
        assert forall|k: int| 0 <= k < 8 implies #[trigger] b@[k] == want[k] by {
            assert(k / 8 == 0 && k % 8 == k);
        }
        let mut i: usize = 0;
        while i < 511
            invariant
                i <= 511,
                want == tx_begin_bytes(*self),
                words == tx_begin_words(*self),
                b@.len() == 4096,
                forall|k: int| 0 <= k < 8 + 8 * i ==> #[trigger] b@[k] == want[k],
            decreases 511 - i,
        {
            let off = 8 + 8 * i;
            let v = lba_code_exec(self.lbas[i]);
            let ghost before = b@;
            write_u64(&mut b, off, v);
            assert forall|k: int| 0 <= k < 8 + 8 * (i + 1) implies #[trigger] b@[k] == want[k] by {
                if k < off {
                    assert(b@[k] == before[k]);
                } else {
                    assert(k / 8 == i + 1 && k % 8 == k - off) by (nonlinear_arith)
                        requires
                            off == 8 + 8 * i,
                            off <= k < off + 8,
                    ;
                    assert(words[i + 1] == v);
                }
            }
            i = i + 1;
        }
        assert(b@ =~= want);
        b
    }

    /// The `TxBegin` that block `b` holds.
    pub fn from_block(b: &[u8; 4096]) -> (r: Self)
        ensures
            r.tx_id == le_u64(b@, 0),
            forall|i: int| 0 <= i < 511 ==> lba_code(#[trigger] r.lbas@[i]) == le_u64(b@, 8 + 8 * i),
    {
        let mut r = JournalTxBegin { tx_id: read_u64(b, 0), lbas: crate::project5::ffs::disk_layout::no_blocks::<511>() };
        let mut i: usize = 0;
        while i < 511
            invariant
                i <= 511,
                r.tx_id == le_u64(b@, 0),
                forall|k: int| 0 <= k < i ==> lba_code(#[trigger] r.lbas@[k]) == le_u64(b@, 8 + 8 * k),
            decreases 511 - i,
        {
            let v = read_u64(b, 8 + 8 * i);
            r.lbas[i] = LogicalBlockAddress::new(v);
            i = i + 1;
        }
        r
    }
}

/// Each slot of a `TxBegin` block reads back as the code of its address.
pub proof fn lemma_tx_begin_bytes(tb: JournalTxBegin, i: int)
    requires
        0 <= i < 511,
    ensures
        le_u64(tx_begin_bytes(tb), 0) == tb.tx_id,
        le_u64(tx_begin_bytes(tb), 8 + 8 * i) == lba_code(tb.lbas@[i]),
{
    lemma_words_bytes(tx_begin_words(tb), 0);
    lemma_words_bytes(tx_begin_words(tb), i + 1);
}

impl JournalTxEnd {
    /// The `TxEnd` held in block `lba`; [`KernelError::IOError`] past the
    /// end of the disk.
    pub fn from_io(disk: &Disk, lba: LogicalBlockAddress) -> (r: Result<Self, KernelError>)
        ensures
            match r {
                Ok(te) => lba@ < disk@.len() && tx_end_bytes(te) == disk@[lba@ as int],
                Err(e) => e == KernelError::IOError && lba@ >= disk@.len(),
            },
    {
        match disk.read_at(lba) {
            Ok(b) => Ok(JournalTxEnd::from_block(&b)),
            Err(e) => Err(e),
        }
    }

    /// The block that holds this `TxEnd`.
    pub fn into_block(&self) -> (r: [u8; 4096])
        ensures
            r@ == tx_end_bytes(*self),
    {
        let mut b = [0u8; 4096];
        write_u64(&mut b, 0, self.tx_id);
        copy_into(&mut b, 8, &self._pad);
        assert(b@ =~= tx_end_bytes(*self));
        b
    }

    /// The `TxEnd` that block `b` holds.
    pub fn from_block(b: &[u8; 4096]) -> (r: Self)
        ensures
            tx_end_bytes(r) == b@,
            r.tx_id == le_u64(b@, 0),
    {
        let mut pad = [0u8; 4088];
        let mut i: usize = 0;
        while i < 4088
            invariant
                i <= 4088,
                forall|k: int| 0 <= k < i ==> pad@[k] == b@[8 + k],
            decreases 4088 - i,
        {
            pad[i] = b[8 + i];
            i = i + 1;
        }
        let r = JournalTxEnd { tx_id: read_u64(b, 0), _pad: pad };
        proof {
            lemma_le_u64_bytes(b@, 0);
            assert(tx_end_bytes(r) =~= b@);
        }
        r
    }
}

/// A disk of 4 KiB blocks, by block number.
pub struct Disk {
    pub blocks: Vec<[u8; 4096]>,
}

impl View for Disk {
    type V = Seq<Seq<u8>>;

    open spec fn view(&self) -> Seq<Seq<u8>> {
        self.blocks@.map_values(|b: [u8; 4096]| b@)
    }
}

impl Disk {
    /// Block `lba` of the disk.
    pub fn read_block(&self, lba: usize) -> (r: [u8; 4096])
        requires
            lba < self@.len(),
        ensures
            r@ == self@[lba as int],
    {
        self.blocks[lba]
    }

    /// Writes `b` to block `lba`.
    pub fn write_block(&mut self, lba: usize, b: &[u8; 4096])
        requires
            lba < old(self)@.len(),
        ensures
            final(self)@ == old(self)@.update(lba as int, b@),
    {
        self.blocks.set(lba, *b);
        assert(self@ =~= old(self)@.update(lba as int, b@));
    }

    /// Block `lba` of the disk; [`KernelError::IOError`] past the end of
    /// the disk.
    pub fn read_at(&self, lba: LogicalBlockAddress) -> (r: Result<[u8; 4096], KernelError>)
        ensures
            match r {
                Ok(b) => lba@ < self@.len() && b@ == self@[lba@ as int],
                Err(e) => e == KernelError::IOError && lba@ >= self@.len(),
            },
    {
        let n = lba.into_u64();
        if n < self.blocks.len() as u64 {
            Ok(self.read_block(n as usize))
        } else {
            Err(KernelError::IOError)
        }
    }

    /// Writes `b` to block `lba`; [`KernelError::IOError`], with nothing
    /// written, past the end of the disk.
    pub fn write_at(&mut self, lba: LogicalBlockAddress, b: &[u8; 4096]) -> (r: Result<(), KernelError>)
        ensures
            lba@ < old(self)@.len() ==> r is Ok && final(self)@ == old(self)@.update(lba@ as int, b@),
            lba@ >= old(self)@.len() ==> r == Err::<(), KernelError>(KernelError::IOError) && final(self)@
                == old(self)@,
    {
        let n = lba.into_u64();
        if n < self.blocks.len() as u64 {
            self.write_block(n as usize, b);
            Ok(())
        } else {
            Err(KernelError::IOError)
        }
    }
}

/// The disk `d` after the block writes `ws`, in order: each is a block
/// number and the bytes written there.
pub open spec fn apply(d: Seq<Seq<u8>>, ws: Seq<(int, Seq<u8>)>) -> Seq<Seq<u8>>
    decreases ws.len(),
{
    if ws.len() == 0 {
        d
    } else {
        apply(d, ws.drop_last()).update(ws.last().0, ws.last().1)
    }
}

/// The index of the last write of `ws` to block `b`, or -1.
pub open spec fn last_write(ws: Seq<(int, Seq<u8>)>, b: int) -> int
    decreases ws.len(),
{
    if ws.len() == 0 {
        -1
    } else if ws.last().0 == b {
        ws.len() - 1
    } else {
        last_write(ws.drop_last(), b)
    }
}

/// One more write is one more update.
pub proof fn lemma_apply_push(d: Seq<Seq<u8>>, ws: Seq<(int, Seq<u8>)>, w: (int, Seq<u8>))
    ensures
        apply(d, ws.push(w)) == apply(d, ws).update(w.0, w.1),
{
    assert(ws.push(w).drop_last() =~= ws);
}

/// Whether every write of `ws` targets a block below `n`.
pub open spec fn in_range(ws: Seq<(int, Seq<u8>)>, n: int) -> bool {
    forall|i: int| 0 <= i < ws.len() ==> 0 <= #[trigger] ws[i].0 < n
}

/// The last write to a block is the one that shows; a block that no write
/// touches keeps its bytes; the disk keeps its size.
pub proof fn lemma_apply_at(d: Seq<Seq<u8>>, ws: Seq<(int, Seq<u8>)>, b: int)
    requires
        0 <= b < d.len(),
        in_range(ws, d.len() as int),
    ensures
        apply(d, ws).len() == d.len(),
        -1 <= last_write(ws, b) < ws.len(),
        last_write(ws, b) >= 0 ==> ws[last_write(ws, b)].0 == b,
        forall|k: int| last_write(ws, b) < k < ws.len() ==> ws[k].0 != b,
        forall|k: int| 0 <= k < ws.len() && ws[k].0 == b ==> k <= last_write(ws, b),
        apply(d, ws)[b] == if last_write(ws, b) >= 0 {
            ws[last_write(ws, b)].1
        } else {
            d[b]
        },
    decreases ws.len(),
{
    if ws.len() > 0 {
        let p = ws.drop_last();
        assert(in_range(p, d.len() as int)) by {
            assert forall|i: int| 0 <= i < p.len() implies 0 <= #[trigger] p[i].0 < d.len() by {
                assert(p[i] == ws[i]);
            }
        }
        lemma_apply_at(d, p, b);
        lemma_apply_len(d, p);
        if ws.last().0 != b {
            assert forall|k: int| last_write(ws, b) < k < ws.len() implies ws[k].0 != b by {
                if k < ws.len() - 1 {
                    assert(p[k] == ws[k]);
                }
            }
            assert forall|k: int| 0 <= k < ws.len() && ws[k].0 == b implies k <= last_write(ws, b) by {
                if k < ws.len() - 1 {
                    assert(p[k] == ws[k]);
                }
            }
        }
    }
}

/// Writes inside the disk keep its size.
pub proof fn lemma_apply_len(d: Seq<Seq<u8>>, ws: Seq<(int, Seq<u8>)>)
    requires
        in_range(ws, d.len() as int),
    ensures
        apply(d, ws).len() == d.len(),
    decreases ws.len(),
{
    if ws.len() > 0 {
        let p = ws.drop_last();
        assert(in_range(p, d.len() as int)) by {
            assert forall|i: int| 0 <= i < p.len() implies 0 <= #[trigger] p[i].0 < d.len() by {
                assert(p[i] == ws[i]);
            }
        }
        lemma_apply_len(d, p);
    }
}

/// Writing a prefix of `ws` and then all of `ws` leaves each block as
/// writing `ws` alone does.
pub proof fn lemma_apply_absorb(d: Seq<Seq<u8>>, ws: Seq<(int, Seq<u8>)>, m: int, b: int)
    requires
        0 <= m <= ws.len(),
        0 <= b < d.len(),
        in_range(ws, d.len() as int),
    ensures
        apply(apply(d, ws.take(m)), ws)[b] == apply(d, ws)[b],
{
    assert(in_range(ws.take(m), d.len() as int)) by {
        assert forall|i: int| 0 <= i < ws.take(m).len() implies 0 <= #[trigger] ws.take(m)[i].0 < d.len() by {
            assert(ws.take(m)[i] == ws[i]);
        }
    }
    lemma_apply_at(d, ws.take(m), b);
    lemma_apply_len(d, ws.take(m));
    lemma_apply_at(apply(d, ws.take(m)), ws, b);
    lemma_apply_at(d, ws, b);
    let p = last_write(ws.take(m), b);
    let q = last_write(ws, b);
    if p >= 0 {
        assert(ws.take(m)[p] == ws[p]);
        assert(ws[p].0 == b);
        if q < p {
            assert(ws[p].0 != b);
        }
    } else if q >= 0 {
    }
}

/// The last write to `b` is the one that shows.
pub proof fn lemma_apply_last(d: Seq<Seq<u8>>, ws: Seq<(int, Seq<u8>)>, p: int, b: int)
    requires
        0 <= b < d.len(),
        in_range(ws, d.len() as int),
        0 <= p < ws.len(),
        ws[p].0 == b,
        forall|k: int| p < k < ws.len() ==> ws[k].0 != b,
    ensures
        apply(d, ws)[b] == ws[p].1,
{
    lemma_apply_at(d, ws, b);
}

/// A block that no write touches keeps its bytes.
pub proof fn lemma_apply_none(d: Seq<Seq<u8>>, ws: Seq<(int, Seq<u8>)>, b: int)
    requires
        0 <= b < d.len(),
        in_range(ws, d.len() as int),
        forall|k: int| 0 <= k < ws.len() ==> ws[k].0 != b,
    ensures
        apply(d, ws)[b] == d[b],
{
    lemma_apply_at(d, ws, b);
}

/// The number of the journal area's blocks.
pub open spec fn journal_blocks() -> int {
    4098
}

/// Whether block `b` lies in the journal area that starts at `j`.
pub open spec fn in_journal(b: int, j: int) -> bool {
    j <= b < j + journal_blocks()
}

/// The destination of journal slot `i` in the `TxBegin` block `tb`.
pub open spec fn dest(tb: Seq<u8>, i: int) -> int {
    le_u64(tb, 8 + 8 * i) as int
}

/// The number of used slots from `i` on in the `TxBegin` block `tb`: the
/// slots up to the first unused one.
pub open spec fn used_from(tb: Seq<u8>, i: int) -> int
    decreases 511 - i,
{
    if i < 0 || i >= 511 {
        511
    } else if dest(tb, i) == 0 {
        i
    } else {
        used_from(tb, i + 1)
    }
}

/// The number of used slots of the `TxBegin` block `tb`.
pub open spec fn used_slots(tb: Seq<u8>) -> int {
    used_from(tb, 0)
}

/// The used slots of `tb` are those before the first unused one.
pub proof fn lemma_used_from(tb: Seq<u8>, i: int)
    requires
        0 <= i <= 511,
    ensures
        i <= used_from(tb, i) <= 511,
        forall|k: int| i <= k < used_from(tb, i) ==> dest(tb, k) != 0,
        used_from(tb, i) < 511 ==> dest(tb, used_from(tb, i)) == 0,
    decreases 511 - i,
{
    if i < 511 && dest(tb, i) != 0 {
        lemma_used_from(tb, i + 1);
    }
}

/// Copying journal slots `0..k` of the `TxBegin` block `tb`: each journal
/// block `j + 2 + i` goes to the destination of slot `i`, read as the disk
/// holds it at that point.
pub open spec fn replay(d: Seq<Seq<u8>>, j: int, tb: Seq<u8>, k: int) -> Seq<Seq<u8>>
    decreases k,
{
    if k <= 0 {
        d
    } else {
        let p = replay(d, j, tb, k - 1);
        p.update(dest(tb, k - 1), p[j + 2 + k - 1])
    }
}

/// The copies that replaying `k` slots makes, when no destination is a
/// journal block.
pub open spec fn replay_writes(d: Seq<Seq<u8>>, j: int, tb: Seq<u8>, k: int) -> Seq<(int, Seq<u8>)> {
    Seq::new(k as nat, |i: int| (dest(tb, i), d[j + 2 + i]))
}

/// When no destination lies in the journal area, replaying is writing each
/// journal block, as it was before, to its destination.
pub proof fn lemma_replay(d: Seq<Seq<u8>>, j: int, tb: Seq<u8>, k: int)
    requires
        0 <= k <= 511,
        0 <= j,
        j + journal_blocks() <= d.len(),
        forall|i: int| 0 <= i < k ==> 0 <= #[trigger] dest(tb, i) < d.len() && !in_journal(dest(tb, i), j),
    ensures
        replay(d, j, tb, k) == apply(d, replay_writes(d, j, tb, k)),
        in_range(replay_writes(d, j, tb, k), d.len() as int),
    decreases k,
{
    let ws = replay_writes(d, j, tb, k);
    assert(in_range(ws, d.len() as int));
    if k > 0 {
        lemma_replay(d, j, tb, k - 1);
        let prev = replay_writes(d, j, tb, k - 1);
        assert(ws.drop_last() =~= prev);
        let p = replay(d, j, tb, k - 1);
        lemma_apply_none(d, prev, j + 2 + k - 1);
        assert(p[j + 2 + k - 1] == d[j + 2 + k - 1]);
    }
}

/// Replaying keeps the size of the disk when every destination lies on it.
pub proof fn lemma_replay_len(d: Seq<Seq<u8>>, j: int, tb: Seq<u8>, k: int)
    requires
        0 <= k,
        forall|i: int| 0 <= i < k ==> 0 <= #[trigger] dest(tb, i) < d.len(),
    ensures
        replay(d, j, tb, k).len() == d.len(),
    decreases k,
{
    if k > 0 {
        lemma_replay_len(d, j, tb, k - 1);
    }
}

/// The journal superblock `sb` with its commit flag set to `c`.
pub open spec fn with_flag(sb: JournalSb, c: u64) -> JournalSb {
    JournalSb { commited: c, ..sb }
}

/// The journal superblock block `b` with its commit flag cleared.
pub open spec fn clear_flag(b: Seq<u8>) -> Seq<u8> {
    b.subrange(0, 8) + u64_le(0) + b.subrange(16, b.len() as int)
}

/// Whether some used slot of `tb` has a destination past the end of a disk
/// of `len` blocks.
pub open spec fn dest_past_end(tb: Seq<u8>, len: int) -> bool {
    exists|i: int| 0 <= i < used_slots(tb) && #[trigger] dest(tb, i) >= len
}

/// What checkpointing does to disk `d` when the journal superblock in
/// memory is `sb`: when the flag is set, each used slot of the `TxBegin`
/// block is copied to its destination and the superblock is written back
/// with the flag clear. `None` (an I/O error, with nothing written) when a
/// destination lies past the end of the disk.
pub open spec fn checkpoint_spec(d: Seq<Seq<u8>>, j: int, sb: JournalSb) -> Option<Seq<Seq<u8>>> {
    if sb.commited == 0 {
        Some(d)
    } else {
        let tb = d[j + 1];
        if dest_past_end(tb, d.len() as int) {
            None
        } else {
            Some(replay(d, j, tb, used_slots(tb)).update(j, journal_sb_bytes(with_flag(sb, 0))))
        }
    }
}

/// What recovery does to disk `d`: nothing when the flag of the journal
/// superblock on disk is clear; when it is set, the journal is checkpointed
/// if its `TxBegin` and `TxEnd` blocks carry the same transaction id and
/// discarded otherwise, and either way the flag is cleared. `None` (an I/O
/// error, with nothing written) when a destination lies past the end of the
/// disk.
pub open spec fn recover(d: Seq<Seq<u8>>, j: int) -> Option<Seq<Seq<u8>>> {
    if le_u64(d[j], 8) == 0 {
        Some(d)
    } else {
        let tb = d[j + 1];
        let n = used_slots(tb);
        if le_u64(d[j + 2 + n], 0) != le_u64(tb, 0) {
            Some(d.update(j, clear_flag(d[j])))
        } else if dest_past_end(tb, d.len() as int) {
            None
        } else {
            Some(replay(d, j, tb, n).update(j, clear_flag(d[j])))
        }
    }
}

/// The journal: its superblock, as held in memory.
pub struct Journal {
    pub sb: JournalSb,
}

impl Journal {
    /// Reads the journal superblock from block `j`.
    pub fn load(disk: &Disk, j: usize) -> (r: Journal)
        requires
            j < disk@.len(),
        ensures
            journal_sb_bytes(r.sb) == disk@[j as int],
    {
        let b = disk.read_block(j);
        Journal { sb: JournalSb::from_block(&b) }
    }

    /// Copies each used journal slot listed in the `TxBegin` block `tb_block`
    /// to its destination; an I/O error, with nothing written, when a
    /// destination lies past the end of the disk.
    fn replay_slots(disk: &mut Disk, j: usize, tb_block: &[u8; 4096]) -> (r: Result<(), KernelError>)
        requires
            j + journal_blocks() <= old(disk)@.len(),
        ensures
            dest_past_end(tb_block@, old(disk)@.len() as int) ==> r == Err::<(), KernelError>(
                KernelError::IOError,
            ) && final(disk)@ == old(disk)@,
            !dest_past_end(tb_block@, old(disk)@.len() as int) ==> r is Ok && final(disk)@ == replay(
                old(disk)@,
                j as int,
                tb_block@,
                used_slots(tb_block@),
            ),
    {
        let ghost tb = tb_block@;
        let ghost d0 = disk@;
        let len = disk.blocks.len();
        assert(len == d0.len());
        let begin = JournalTxBegin::from_block(tb_block);
        let mut n: usize = 0;
        while n < 511 && lba_code_exec(begin.lbas[n]) != 0
            invariant
                n <= 511,
                forall|k: int| 0 <= k < n ==> dest(tb, k) != 0,
                forall|i: int| 0 <= i < 511 ==> lba_code(#[trigger] begin.lbas@[i]) == le_u64(tb, 8 + 8 * i),
            decreases 511 - n,
        {
            n = n + 1;
        }
        proof {
            lemma_used_from(tb, 0);
            if n < 511 {
                assert(dest(tb, n as int) == 0);
            }
            if used_slots(tb) < n {
                assert(dest(tb, used_slots(tb)) != 0);
            }
            assert(used_slots(tb) == n);
        }
        let mut i: usize = 0;
        while i < n
            invariant
                i <= n <= 511,
                n == used_slots(tb),
                len == d0.len(),
                disk@ == d0,
                d0 == old(disk)@,
                tb == tb_block@,
                forall|k: int| 0 <= k < n ==> dest(tb, k) != 0,
                forall|k: int| 0 <= k < 511 ==> lba_code(#[trigger] begin.lbas@[k]) == le_u64(tb, 8 + 8 * k),
                forall|k: int| 0 <= k < i ==> #[trigger] dest(tb, k) < d0.len(),
            decreases n - i,
        {
            let dst = lba_code_exec(begin.lbas[i]);
            assert(dst == dest(tb, i as int));
            if dst >= len as u64 {
                assert(dest(tb, i as int) >= d0.len());
                assert(dest_past_end(tb, d0.len() as int));
                return Err(KernelError::IOError);
            }
            i = i + 1;
        }
        proof {
            lemma_replay_len(d0, j as int, tb, n as int);
        }
        let mut i: usize = 0;
        while i < n
            invariant
                i <= n <= 511,
                n == used_slots(tb),
                j + journal_blocks() <= d0.len(),
                forall|k: int| 0 <= k < 511 ==> lba_code(#[trigger] begin.lbas@[k]) == le_u64(tb, 8 + 8 * k),
                forall|k: int| 0 <= k < n ==> 0 < #[trigger] dest(tb, k) < d0.len(),
                disk@ == replay(d0, j as int, tb, i as int),
                len == d0.len(),
                tb == tb_block@,
                d0 == old(disk)@,
            decreases n - i,
        {
            proof {
                lemma_replay_len(d0, j as int, tb, i as int);
            }
            let code = lba_code_exec(begin.lbas[i]);
            assert(code == dest(tb, i as int));
            let dst = code as usize;
            let blk = disk.read_block(j + 2 + i);
            disk.write_block(dst, &blk);
            i = i + 1;
        }
        Ok(())
    }

    /// Checkpoints the journal: see [`checkpoint_spec`].
    pub fn checkpoint(&mut self, disk: &mut Disk, j: usize) -> (r: Result<(), KernelError>)
        requires
            j + journal_blocks() <= old(disk)@.len(),
        ensures
            match checkpoint_spec(old(disk)@, j as int, old(self).sb) {
                Some(d2) => r is Ok && final(disk)@ == d2 && final(self).sb == with_flag(old(self).sb, 0),
                None => r == Err::<(), KernelError>(KernelError::IOError) && final(disk)@ == old(disk)@
                    && final(self).sb == old(self).sb,
            },
    {
        let len = disk.blocks.len();
        assert(len == disk@.len());
        if self.sb.commited != 0 {
            let tb_block = disk.read_block(j + 1);
            match Self::replay_slots(disk, j, &tb_block) {
                Ok(()) => {},
                Err(e) => return Err(e),
            }
            proof {
                let d0 = old(disk)@;
                let tb = d0[j + 1];
                lemma_used_from(tb, 0);
                lemma_replay_len(d0, j as int, tb, used_slots(tb));
            }
            self.sb.commited = 0;
            let b = self.sb.into_block();
            disk.write_block(j, &b);
        }
        Ok(())
    }

    /// Recovers the journal after a crash: see [`recover`].
    pub fn recovery(&mut self, disk: &mut Disk, j: usize) -> (r: Result<(), KernelError>)
        requires
            j + journal_blocks() <= old(disk)@.len(),
            journal_sb_bytes(old(self).sb) == old(disk)@[j as int],
        ensures
            match recover(old(disk)@, j as int) {
                Some(d2) => r is Ok && final(disk)@ == d2 && journal_sb_bytes(final(self).sb) == d2[j as int],
                None => r == Err::<(), KernelError>(KernelError::IOError) && final(disk)@ == old(disk)@,
            },
    {
        let ghost d0 = disk@;
        let len = disk.blocks.len();
        assert(len == d0.len());
        proof {
            lemma_sb_flag(self.sb, d0[j as int]);
        }
        if self.sb.commited != 0 {
            let tb_block = disk.read_block(j + 1);
            let begin = JournalTxBegin::from_block(&tb_block);
            let mut n: usize = 0;
            while n < 511 && lba_code_exec(begin.lbas[n]) != 0
                invariant
                    n <= 511,
                    forall|k: int| 0 <= k < n ==> dest(tb_block@, k) != 0,
                    forall|i: int| 0 <= i < 511 ==> lba_code(#[trigger] begin.lbas@[i]) == le_u64(tb_block@, 8 + 8 * i),
                decreases 511 - n,
            {
                n = n + 1;
            }
            proof {
                let tb = tb_block@;
                lemma_used_from(tb, 0);
                if n < 511 {
                    assert(dest(tb, n as int) == 0);
                }
                if used_slots(tb) < n {
                    assert(dest(tb, used_slots(tb)) != 0);
                }
                assert(used_slots(tb) == n);
            }
            let te_block = disk.read_block(j + 2 + n);
            let end = JournalTxEnd::from_block(&te_block);
            if end.tx_id == begin.tx_id {
                match Self::replay_slots(disk, j, &tb_block) {
                    Ok(()) => {},
                    Err(e) => return Err(e),
                }
                proof {
                    let tb = d0[j + 1];
                    lemma_replay_len(d0, j as int, tb, used_slots(tb));
                }
            }
            self.sb.commited = 0;
            let b = self.sb.into_block();
            proof {
                lemma_sb_clear(old(self).sb, d0[j as int]);
            }
            disk.write_block(j, &b);
        }
        Ok(())
    }
}

/// The flag of a journal superblock is the word at byte 8 of its block.
pub proof fn lemma_sb_flag(sb: JournalSb, b: Seq<u8>)
    requires
        journal_sb_bytes(sb) == b,
    ensures
        le_u64(b, 8) == sb.commited,
        b.len() == 4096,
{
    let s = journal_sb_bytes(sb);
    assert(s.subrange(8, 16) =~= u64_le(sb.commited));
    lemma_u64_roundtrip(sb.commited);
    assert forall|t: int| 0 <= t < 8 implies #[trigger] s[8 + t] == u64_le(sb.commited)[t] by {}
}

/// Clearing the flag of the superblock in memory and writing it back writes
/// the block it came from with the flag cleared.
pub proof fn lemma_sb_clear(sb: JournalSb, b: Seq<u8>)
    requires
        journal_sb_bytes(sb) == b,
    ensures
        journal_sb_bytes(with_flag(sb, 0)) == clear_flag(b),
{
    assert(journal_sb_bytes(with_flag(sb, 0)) =~= clear_flag(b));
}

/// Marker of the first stage of a commit: writing the `TxBegin` block.
pub struct TxBegin {}

/// Marker of the second stage of a commit: writing the journaled blocks.
pub struct Block {}

/// Marker of the last stage of a commit: writing the `TxEnd` block and
/// setting the commit flag.
pub struct TxEnd {}

/// A transaction's writes as block numbers and bytes.
pub open spec fn tx_view(tx: Seq<(LogicalBlockAddress, [u8; 4096])>) -> Seq<(int, Seq<u8>)> {
    Seq::new(tx.len(), |i: int| (tx[i].0@ as int, tx[i].1@))
}

/// The `TxBegin` block of transaction `tx_id` that writes `tx`.
pub open spec fn tx_begin_image(tx_id: u64, tx: Seq<(int, Seq<u8>)>) -> Seq<u8> {
    words_bytes(seq![tx_id] + Seq::new(511, |i: int| if i < tx.len() { tx[i].0 as u64 } else { 0u64 }))
}

/// The `TxEnd` block of transaction `tx_id`.
pub open spec fn tx_end_image(tx_id: u64) -> Seq<u8> {
    u64_le(tx_id) + Seq::new(4088, |i: int| 0u8)
}

/// The journaled copies of the blocks of `tx`.
pub open spec fn data_writes(j: int, tx: Seq<(int, Seq<u8>)>) -> Seq<(int, Seq<u8>)> {
    Seq::new(tx.len(), |i: int| (j + 2 + i, tx[i].1))
}

/// The writes of a commit into the journal area: `TxBegin`, the journaled
/// blocks, `TxEnd`, and the superblock with the flag set.
pub open spec fn journal_writes(j: int, sb: JournalSb, tx_id: u64, tx: Seq<(int, Seq<u8>)>) -> Seq<(int, Seq<u8>)> {
    seq![(j + 1, tx_begin_image(tx_id, tx))] + data_writes(j, tx) + seq![
        (j + 2 + tx.len(), tx_end_image(tx_id)),
        (j, journal_sb_bytes(with_flag(sb, 1))),
    ]
}

/// All the writes of a committed and checkpointed transaction, in order:
/// those into the journal area, the blocks at their destinations, and the
/// superblock with the flag clear.
pub open spec fn commit_writes(j: int, sb: JournalSb, tx_id: u64, tx: Seq<(int, Seq<u8>)>) -> Seq<(int, Seq<u8>)> {
    journal_writes(j, sb, tx_id, tx) + tx + seq![(j, journal_sb_bytes(with_flag(sb, 0)))]
}

/// Writes `a` and then `b` is writing `a + b`.
pub proof fn lemma_apply_concat(d: Seq<Seq<u8>>, a: Seq<(int, Seq<u8>)>, b: Seq<(int, Seq<u8>)>)
    ensures
        apply(d, a + b) == apply(apply(d, a), b),
    decreases b.len(),
{
    if b.len() == 0 {
        assert(a + b =~= a);
    } else {
        lemma_apply_concat(d, a, b.drop_last());
        assert((a + b).drop_last() =~= a + b.drop_last());
    }
}

/// A writer of a transaction into the journal, in the stage that
/// `WriteTarget` names; the stages can only come in order.
pub struct JournalWriter<WriteTarget> {
    /// The blocks to write and their destinations.
    pub tx: Vec<(LogicalBlockAddress, [u8; 4096])>,
    /// The transaction id.
    pub tx_id: u64,
    pub _write_target: PhantomData<WriteTarget>,
}

impl JournalWriter<TxBegin> {
    /// A writer of transaction `tx_id`, which writes `tx`.
    pub fn new(tx: Vec<(LogicalBlockAddress, [u8; 4096])>, tx_id: u64) -> (r: Self)
        ensures
            r.tx@ == tx@,
            r.tx_id == tx_id,
    {
        JournalWriter { tx, tx_id, _write_target: PhantomData }
    }

    /// Writes the `TxBegin` block, which lists the destination of each
    /// block of the transaction.
    pub fn write_tx_begin(self, disk: &mut Disk, j: usize) -> (r: Result<JournalWriter<Block>, KernelError>)
        requires
            self.tx@.len() <= 511,
            j + journal_blocks() <= old(disk)@.len(),
        ensures
            r matches Ok(w) && w.tx@ == self.tx@ && w.tx_id == self.tx_id,
            final(disk)@ == old(disk)@.update(j + 1, tx_begin_image(self.tx_id, tx_view(self.tx@))),
    {
        let mut tb = JournalTxBegin { tx_id: self.tx_id, lbas: crate::project5::ffs::disk_layout::no_blocks::<511>() };
        let n = self.tx.len();
        let mut i: usize = 0;
        while i < n
            invariant
                i <= n <= 511,
                n == self.tx@.len(),
                tb.tx_id == self.tx_id,
                forall|k: int| 0 <= k < i ==> #[trigger] tb.lbas@[k] == Some(self.tx@[k].0),
                forall|k: int| i <= k < 511 ==> #[trigger] tb.lbas@[k] == None::<LogicalBlockAddress>,
            decreases n - i,
        {
            tb.lbas[i] = Some(self.tx[i].0);
            i = i + 1;
        }
        let b = tb.into_block();
        let len = disk.blocks.len();
        assert(len == disk@.len());
        assert(tx_begin_words(tb) =~= seq![self.tx_id] + Seq::new(511, |k: int| if k < tx_view(self.tx@).len() { tx_view(self.tx@)[k].0 as u64 } else { 0u64 }));
        disk.write_block(j + 1, &b);
        Ok(JournalWriter { tx: self.tx, tx_id: self.tx_id, _write_target: PhantomData })
    }
}

impl JournalWriter<Block> {
    /// Writes the blocks of the transaction into the journal, one after the
    /// other from block `j + 2` on.
    pub fn write_blocks(self, disk: &mut Disk, j: usize) -> (r: Result<JournalWriter<TxEnd>, KernelError>)
        requires
            self.tx@.len() <= 511,
            j + journal_blocks() <= old(disk)@.len(),
        ensures
            r matches Ok(w) && w.tx@ == self.tx@ && w.tx_id == self.tx_id,
            final(disk)@ == apply(old(disk)@, data_writes(j as int, tx_view(self.tx@))),
            final(disk)@.len() == old(disk)@.len(),
    {
        let n = self.tx.len();
        let len = disk.blocks.len();
        assert(len == disk@.len());
        let ghost ws = data_writes(j as int, tx_view(self.tx@));
        assert(in_range(ws, old(disk)@.len() as int));
        let mut i: usize = 0;
        while i < n
            invariant
                i <= n <= 511,
                n == self.tx@.len(),
                ws == data_writes(j as int, tx_view(self.tx@)),
                in_range(ws, old(disk)@.len() as int),
                j + journal_blocks() <= old(disk)@.len(),
                disk@ == apply(old(disk)@, ws.take(i as int)),
                disk@.len() == old(disk)@.len(),
                len == old(disk)@.len(),
            decreases n - i,
        {
            let blk = self.tx[i].1;
            proof {
                lemma_apply_push(old(disk)@, ws.take(i as int), ws[i as int]);
                assert(ws.take(i as int).push(ws[i as int]) =~= ws.take(i + 1));
            }
            disk.write_block(j + 2 + i, &blk);
            i = i + 1;
        }
        assert(ws.take(n as int) =~= ws);
        Ok(JournalWriter { tx: self.tx, tx_id: self.tx_id, _write_target: PhantomData })
    }
}

impl JournalWriter<TxEnd> {
    /// Writes the `TxEnd` block after the journaled blocks and marks the
    /// transaction committed in the journal superblock.
    pub fn write_tx_end(self, journal: &mut Journal, disk: &mut Disk, j: usize) -> (r: Result<(), KernelError>)
        requires
            self.tx@.len() <= 511,
            j + journal_blocks() <= old(disk)@.len(),
        ensures
            r is Ok,
            final(journal).sb == with_flag(old(journal).sb, 1),
            final(disk)@ == apply(
                old(disk)@,
                seq![
                    (j + 2 + self.tx@.len(), tx_end_image(self.tx_id)),
                    (j as int, journal_sb_bytes(with_flag(old(journal).sb, 1))),
                ],
            ),
    {
        let len = disk.blocks.len();
        assert(len == disk@.len());
        let te = JournalTxEnd { tx_id: self.tx_id, _pad: [0u8; 4088] };
        let b = te.into_block();
        assert(b@ =~= tx_end_image(self.tx_id));
        disk.write_block(j + 2 + self.tx.len(), &b);
        journal.sb.commited = 1;
        let sbb = journal.sb.into_block();
        disk.write_block(j, &sbb);
        proof {
            let ws = seq![
                (j + 2 + self.tx@.len(), tx_end_image(self.tx_id)),
                (j as int, journal_sb_bytes(with_flag(old(journal).sb, 1))),
            ];
            let e = Seq::<(int, Seq<u8>)>::empty();
            lemma_apply_push(old(disk)@, e, ws[0]);
            lemma_apply_push(old(disk)@, e.push(ws[0]), ws[1]);
            assert(e.push(ws[0]).push(ws[1]) =~= ws);
            assert(apply(old(disk)@, e) == old(disk)@);
        }
        Ok(())
    }
}

/// Whether every block of `tx` goes to a block of a disk of `len` blocks,
/// other than block 0, with 4096 bytes.
pub open spec fn tx_ok(tx: Seq<(int, Seq<u8>)>, len: int) -> bool {
    forall|i: int|
        0 <= i < tx.len() ==> 0 < #[trigger] tx[i].0 < len && tx[i].0 <= u64::MAX && tx[i].1.len() == 4096
}

/// Whether no block of `tx` goes into the journal area that starts at `j`.
pub open spec fn outside_journal(tx: Seq<(int, Seq<u8>)>, j: int) -> bool {
    forall|i: int| 0 <= i < tx.len() ==> !in_journal(#[trigger] tx[i].0, j)
}

/// What the journal area holds once a commit has written it.
pub proof fn lemma_journal_image(d: Seq<Seq<u8>>, j: int, sb: JournalSb, tx_id: u64, tx: Seq<(int, Seq<u8>)>)
    requires
        0 < j,
        j + journal_blocks() <= d.len(),
        tx.len() <= 511,
        tx_ok(tx, d.len() as int),
    ensures
        ({
            let jw = journal_writes(j, sb, tx_id, tx);
            let d1 = apply(d, jw);
            let tb = tx_begin_image(tx_id, tx);
            let n = tx.len() as int;
            &&& in_range(jw, d.len() as int)
            &&& jw.len() == n + 3
            &&& d1.len() == d.len()
            &&& d1[j + 1] == tb
            &&& used_slots(tb) == n
            &&& le_u64(tb, 0) == tx_id
            &&& forall|i: int| 0 <= i < n ==> #[trigger] dest(tb, i) == tx[i].0
            &&& forall|i: int| 0 <= i < n ==> #[trigger] d1[j + 2 + i] == tx[i].1
            &&& d1[j + 2 + n] == tx_end_image(tx_id)
            &&& le_u64(tx_end_image(tx_id), 0) == tx_id
            &&& d1[j] == journal_sb_bytes(with_flag(sb, 1))
            &&& forall|b: int| 0 <= b < d.len() && !in_journal(b, j) ==> #[trigger] d1[b] == d[b]
        }),
{
    let jw = journal_writes(j, sb, tx_id, tx);
    let n = tx.len() as int;
    let tb = tx_begin_image(tx_id, tx);
    let words = seq![tx_id] + Seq::new(511, |i: int| if i < tx.len() { tx[i].0 as u64 } else { 0u64 });
    assert forall|i: int| 0 <= i < jw.len() implies 0 <= #[trigger] jw[i].0 < d.len() by {
        if 1 <= i <= n {
            assert(jw[i] == (j + 2 + (i - 1), tx[i - 1].1));
        }
    }
    lemma_apply_len(d, jw);
    let d1 = apply(d, jw);
    lemma_apply_last(d, jw, 0, j + 1);
    lemma_words_bytes(words, 0);
    assert forall|i: int| 0 <= i < 511 implies #[trigger] dest(tb, i) == (if i < n { tx[i].0 } else { 0 }) by {
        lemma_words_bytes(words, i + 1);
        assert(8 * (i + 1) == 8 + 8 * i);
    }
    lemma_used_from(tb, 0);
    let u = used_slots(tb);
    if u < n {
        assert(dest(tb, u) == tx[u].0);
    } else if u > n {
        assert(dest(tb, n) != 0);
    }
    assert forall|i: int| 0 <= i < n implies #[trigger] d1[j + 2 + i] == tx[i].1 by {
        assert(jw[1 + i] == (j + 2 + i, tx[i].1));
        assert forall|k: int| 1 + i < k < jw.len() implies jw[k].0 != j + 2 + i by {
            if k <= n {
                assert(jw[k] == (j + 2 + (k - 1), tx[k - 1].1));
            }
        }
        lemma_apply_last(d, jw, 1 + i, j + 2 + i);
    }
    lemma_apply_last(d, jw, n + 1, j + 2 + n);
    lemma_apply_last(d, jw, n + 2, j);
    lemma_u64_roundtrip(tx_id);
    assert(tx_end_image(tx_id).subrange(0, 8) =~= u64_le(tx_id));
    assert forall|b: int| 0 <= b < d.len() && !in_journal(b, j) implies #[trigger] d1[b] == d[b] by {
        assert forall|k: int| 0 <= k < jw.len() implies jw[k].0 != b by {
            if 1 <= k <= n {
                assert(jw[k] == (j + 2 + (k - 1), tx[k - 1].1));
            }
        }
        lemma_apply_none(d, jw, b);
    }
}

/// When no block of the transaction goes into the journal area, the
/// checkpoint after a commit writes each block to its destination and
/// clears the flag: the disk then is the disk after all the writes of
/// [`commit_writes`].
pub proof fn lemma_checkpoint_after_commit(d: Seq<Seq<u8>>, j: int, sb: JournalSb, tx_id: u64, tx: Seq<(int, Seq<u8>)>)
    requires
        0 < j,
        j + journal_blocks() <= d.len(),
        tx.len() <= 511,
        tx_ok(tx, d.len() as int),
        outside_journal(tx, j),
    ensures
        checkpoint_spec(apply(d, journal_writes(j, sb, tx_id, tx)), j, with_flag(sb, 1))
            == Some(apply(d, commit_writes(j, sb, tx_id, tx))),
{
    lemma_journal_image(d, j, sb, tx_id, tx);
    let jw = journal_writes(j, sb, tx_id, tx);
    let d1 = apply(d, jw);
    let tb = d1[j + 1];
    let n = tx.len() as int;
    assert(!dest_past_end(tb, d1.len() as int));
    lemma_replay(d1, j, tb, n);
    assert(replay_writes(d1, j, tb, n) =~= tx);
    let sb0 = journal_sb_bytes(with_flag(with_flag(sb, 1), 0));
    assert(with_flag(with_flag(sb, 1), 0) == with_flag(sb, 0));
    lemma_apply_concat(d, jw, tx);
    lemma_apply_push(d, jw + tx, (j, sb0));
    assert(commit_writes(j, sb, tx_id, tx) =~= (jw + tx).push((j, sb0)));
}

/// A transaction under way: the metadata blocks it writes, in order, and its
/// id.
pub struct RunningTransaction {
    pub tx: Vec<(LogicalBlockAddress, [u8; 4096])>,
    pub tx_id: u64,
}

impl RunningTransaction {
    /// Begins a transaction: it takes the next transaction id of the
    /// journal (0 when there is no journal).
    pub fn begin(journal: &mut Option<Journal>) -> (r: Self)
        requires
            *old(journal) matches Some(jn) ==> jn.sb.tx_id < u64::MAX,
        ensures
            r.tx@.len() == 0,
            match *old(journal) {
                Some(jn) => r.tx_id == jn.sb.tx_id && *final(journal) == Some(
                    Journal { sb: JournalSb { tx_id: (jn.sb.tx_id + 1) as u64, ..jn.sb } },
                ),
                None => r.tx_id == 0 && *final(journal) == None::<Journal>,
            },
    {
        let tx_id = match journal {
            Some(jn) => {
                let id = jn.sb.tx_id;
                jn.sb.tx_id = id + 1;
                id
            },
            None => 0,
        };
        RunningTransaction { tx: Vec::new(), tx_id }
    }

    /// Adds the write of `data` to block `lba` to the transaction.
    pub fn write_meta(&mut self, lba: LogicalBlockAddress, data: [u8; 4096])
        ensures
            final(self).tx@ == old(self).tx@.push((lba, data)),
            final(self).tx_id == old(self).tx_id,
    {
        self.tx.push((lba, data));
    }

    /// Commits the transaction. Without a journal, each block is written to
    /// its destination. With one, the transaction is written into the
    /// journal, marked committed and checkpointed right away.
    /// [`KernelError::IOError`] when a destination lies past the end of the
    /// disk and [`KernelError::NoSpace`] when a journal transaction holds
    /// more than 511 blocks; then nothing is written.
    pub fn commit(self, journal: &mut Option<Journal>, disk: &mut Disk, j: usize) -> (r: Result<(), KernelError>)
        requires
            *old(journal) is Some ==> 0 < j && j + journal_blocks() <= old(disk)@.len(),
        ensures
            ({
                let tx = tx_view(self.tx@);
                let d = old(disk)@;
                if !tx_ok(tx, d.len() as int) {
                    r == Err::<(), KernelError>(KernelError::IOError) && final(disk)@ == d
                        && *final(journal) == *old(journal)
                } else {
                    match *old(journal) {
                        None => r is Ok && final(disk)@ == apply(d, tx) && *final(journal) == None::<Journal>,
                        Some(jn) => if tx.len() > 511 {
                            r == Err::<(), KernelError>(KernelError::NoSpace) && final(disk)@ == d
                                && *final(journal) == *old(journal)
                        } else {
                            &&& r is Ok
                            &&& Some(final(disk)@) == checkpoint_spec(
                                apply(d, journal_writes(j as int, jn.sb, self.tx_id, tx)),
                                j as int,
                                with_flag(jn.sb, 1),
                            )
                            &&& outside_journal(tx, j as int) ==> final(disk)@ == apply(
                                d,
                                commit_writes(j as int, jn.sb, self.tx_id, tx),
                            )
                            &&& *final(journal) == Some(Journal { sb: with_flag(jn.sb, 0) })
                        },
                    }
                }
            }),
    {
        let ghost tx = tx_view(self.tx@);
        let ghost d = disk@;
        let len = disk.blocks.len();
        assert(len == d.len());
        let n = self.tx.len();
        let mut i: usize = 0;
        while i < n
            invariant
                i <= n,
                n == self.tx@.len(),
                tx == tx_view(self.tx@),
                len == d.len(),
                d == old(disk)@,
                disk@ == d,
                forall|k: int| 0 <= k < i ==> 0 < #[trigger] tx[k].0 < len && tx[k].0 <= u64::MAX && tx[k].1.len() == 4096,
            decreases n - i,
        {
            let lba = self.tx[i].0.into_u64();
            if lba >= len as u64 {
                assert(!tx_ok(tx, d.len() as int)) by {
                    assert(tx[i as int].0 >= d.len());
                }
                return Err(KernelError::IOError);
            }
            i = i + 1;
        }
        assert(tx_ok(tx, d.len() as int));
        match journal {
            None => {
                let mut i: usize = 0;
                while i < n
                    invariant
                        i <= n,
                        n == self.tx@.len(),
                        tx == tx_view(self.tx@),
                        tx_ok(tx, d.len() as int),
                        disk@ == apply(d, tx.take(i as int)),
                        disk@.len() == d.len(),
                        len == d.len(),
                        d == old(disk)@,
                    decreases n - i,
                {
                    let (lba, blk) = self.tx[i];
                    let dst = lba.into_u64() as usize;
                    proof {
                        lemma_apply_push(d, tx.take(i as int), tx[i as int]);
                        assert(tx.take(i as int).push(tx[i as int]) =~= tx.take(i + 1));
                    }
                    disk.write_block(dst, &blk);
                    i = i + 1;
                }
                assert(tx.take(n as int) =~= tx);
                Ok(())
            },
            Some(jn) => {
                if n > 511 {
                    return Err(KernelError::NoSpace);
                }
                let ghost sb = jn.sb;
                let tx_id = self.tx_id;
                proof {
                    lemma_journal_image(d, j as int, sb, tx_id, tx);
                }
                let w = JournalWriter::new(self.tx, tx_id);
                let w = match w.write_tx_begin(disk, j) {
                    Ok(w) => w,
                    Err(e) => return Err(e),
                };
                let ghost d_a = disk@;
                let w = match w.write_blocks(disk, j) {
                    Ok(w) => w,
                    Err(e) => return Err(e),
                };
                let ghost d_b = disk@;
                match w.write_tx_end(jn, disk, j) {
                    Ok(()) => {},
                    Err(e) => return Err(e),
                }
                proof {
                    let jw = journal_writes(j as int, sb, tx_id, tx);
                    let first = seq![(j + 1, tx_begin_image(tx_id, tx))];
                    let last = seq![
                        (j + 2 + tx.len(), tx_end_image(tx_id)),
                        (j as int, journal_sb_bytes(with_flag(sb, 1))),
                    ];
                    let e = Seq::<(int, Seq<u8>)>::empty();
                    lemma_apply_push(d, e, first[0]);
                    assert(e.push(first[0]) =~= first);
                    assert(d_a == apply(d, first));
                    lemma_apply_concat(d, first, data_writes(j as int, tx));
                    lemma_apply_concat(d, first + data_writes(j as int, tx), last);
                    assert(jw =~= first + data_writes(j as int, tx) + last);
                    assert(disk@ == apply(d, jw));
                }
                let ckpt = jn.checkpoint(disk, j);
                proof {
                    lemma_journal_image(d, j as int, sb, tx_id, tx);
                    if outside_journal(tx, j as int) {
                        lemma_checkpoint_after_commit(d, j as int, sb, tx_id, tx);
                    }
                    assert(with_flag(with_flag(sb, 1), 0) == with_flag(sb, 0));
                }
                ckpt
            },
        }
    }
}

/// The common requirements of the crash consistency lemmas.
pub open spec fn commit_setting(d: Seq<Seq<u8>>, j: int, tx: Seq<(int, Seq<u8>)>) -> bool {
    &&& 0 < j
    &&& j + journal_blocks() <= d.len()
    &&& le_u64(d[j], 8) == 0
    &&& tx.len() <= 511
    &&& tx_ok(tx, d.len() as int)
    &&& outside_journal(tx, j)
}

/// What recovery must leave behind after `k` of the commit's writes: the
/// blocks outside the journal area as before the commit, or as after it.
pub open spec fn recovered_as(
    d: Seq<Seq<u8>>,
    j: int,
    sb: JournalSb,
    tx_id: u64,
    tx: Seq<(int, Seq<u8>)>,
    k: int,
) -> bool {
    let w = commit_writes(j, sb, tx_id, tx);
    &&& recover(apply(d, w.take(k)), j) is Some
    &&& recover(apply(d, w.take(k)), j)->Some_0.len() == d.len()
    &&& forall|b: int|
        0 <= b < d.len() && !in_journal(b, j) ==> #[trigger] recover(apply(d, w.take(k)), j)->Some_0[b]
            == if k < tx.len() + 3 {
            d[b]
        } else {
            apply(d, w)[b]
        }
}

/// The writes of a commit all land on the disk.
proof fn lemma_commit_in_range(d: Seq<Seq<u8>>, j: int, sb: JournalSb, tx_id: u64, tx: Seq<(int, Seq<u8>)>, k: int)
    requires
        commit_setting(d, j, tx),
        0 <= k <= commit_writes(j, sb, tx_id, tx).len(),
    ensures
        in_range(commit_writes(j, sb, tx_id, tx), d.len() as int),
        in_range(commit_writes(j, sb, tx_id, tx).take(k), d.len() as int),
        in_range(journal_writes(j, sb, tx_id, tx), d.len() as int),
        in_range(tx, d.len() as int),
        commit_writes(j, sb, tx_id, tx).len() == 2 * tx.len() + 4,
{
    let n = tx.len() as int;
    let jw = journal_writes(j, sb, tx_id, tx);
    let w = commit_writes(j, sb, tx_id, tx);
    lemma_journal_image(d, j, sb, tx_id, tx);
    assert forall|i: int| 0 <= i < w.len() implies 0 <= #[trigger] w[i].0 < d.len() by {
        if i < n + 3 {
            assert(w[i] == jw[i]);
        } else if i < 2 * n + 3 {
            assert(w[i] == tx[i - n - 3]);
        }
    }
    let wk = w.take(k);
    assert forall|i: int| 0 <= i < wk.len() implies 0 <= #[trigger] wk[i].0 < d.len() by {
        assert(wk[i] == w[i]);
    }
}

/// Before the commit flag is written, recovery finds it clear and leaves
/// the disk alone; the commit has written only journal blocks.
proof fn lemma_crash_before_flag(d: Seq<Seq<u8>>, j: int, sb: JournalSb, tx_id: u64, tx: Seq<(int, Seq<u8>)>, k: int)
    requires
        commit_setting(d, j, tx),
        0 <= k < tx.len() + 3,
    ensures
        recovered_as(d, j, sb, tx_id, tx, k),
{
    let n = tx.len() as int;
    let jw = journal_writes(j, sb, tx_id, tx);
    let w = commit_writes(j, sb, tx_id, tx);
    lemma_commit_in_range(d, j, sb, tx_id, tx, k);
    let wk = w.take(k);
    lemma_apply_len(d, wk);
    let dk = apply(d, wk);
    assert forall|i: int| 0 <= i < wk.len() implies in_journal(#[trigger] wk[i].0, j) && wk[i].0 != j by {
        assert(wk[i] == jw[i]);
        if 1 <= i <= n {
            assert(jw[i] == (j + 2 + (i - 1), tx[i - 1].1));
        }
    }
    lemma_apply_none(d, wk, j);
    assert forall|b: int| 0 <= b < d.len() && !in_journal(b, j) implies #[trigger] dk[b] == d[b] by {
        lemma_apply_none(d, wk, b);
    }
}

/// The disk after the journal writes of a commit and the first `m` copies
/// of its checkpoint: the journal area as the commit wrote it.
proof fn lemma_partial_checkpoint(d: Seq<Seq<u8>>, j: int, sb: JournalSb, tx_id: u64, tx: Seq<(int, Seq<u8>)>, m: int)
    requires
        commit_setting(d, j, tx),
        0 <= m <= tx.len(),
    ensures
        ({
            let dk = apply(apply(d, journal_writes(j, sb, tx_id, tx)), tx.take(m));
            let n = tx.len() as int;
            &&& dk.len() == d.len()
            &&& dk[j] == journal_sb_bytes(with_flag(sb, 1))
            &&& dk[j + 1] == tx_begin_image(tx_id, tx)
            &&& dk[j + 2 + n] == tx_end_image(tx_id)
            &&& forall|i: int| 0 <= i < n ==> #[trigger] dk[j + 2 + i] == tx[i].1
        }),
{
    let n = tx.len() as int;
    lemma_commit_in_range(d, j, sb, tx_id, tx, 0);
    lemma_journal_image(d, j, sb, tx_id, tx);
    let d1 = apply(d, journal_writes(j, sb, tx_id, tx));
    let p = tx.take(m);
    assert(in_range(p, d.len() as int)) by {
        assert forall|i: int| 0 <= i < p.len() implies 0 <= #[trigger] p[i].0 < d.len() by {
            assert(p[i] == tx[i]);
        }
    }
    lemma_apply_len(d1, p);
    assert forall|x: int| in_journal(x, j) && x < d.len() implies #[trigger] apply(d1, p)[x] == d1[x] by {
        assert forall|i: int| 0 <= i < p.len() implies p[i].0 != x by {
            assert(p[i] == tx[i]);
        }
        lemma_apply_none(d1, p, x);
    }
    let dk = apply(d1, p);
    assert(dk[j] == d1[j]);
    assert(dk[j + 1] == d1[j + 1]);
    assert(dk[j + 2 + n] == d1[j + 2 + n]);
    assert forall|i: int| 0 <= i < n implies #[trigger] dk[j + 2 + i] == tx[i].1 by {
        assert(dk[j + 2 + i] == d1[j + 2 + i]);
    }
}

/// Recovery of a disk whose journal area holds a whole committed
/// transaction copies the transaction to its destinations and clears the
/// flag.
proof fn lemma_recover_committed(dk: Seq<Seq<u8>>, j: int, sb: JournalSb, tx_id: u64, tx: Seq<(int, Seq<u8>)>)
    requires
        0 < j,
        j + journal_blocks() <= dk.len(),
        tx.len() <= 511,
        tx_ok(tx, dk.len() as int),
        outside_journal(tx, j),
        dk[j] == journal_sb_bytes(with_flag(sb, 1)),
        dk[j + 1] == tx_begin_image(tx_id, tx),
        dk[j + 2 + tx.len()] == tx_end_image(tx_id),
        forall|i: int| 0 <= i < tx.len() ==> #[trigger] dk[j + 2 + i] == tx[i].1,
    ensures
        recover(dk, j) == Some(apply(dk, tx).update(j, clear_flag(dk[j]))),
{
    let n = tx.len() as int;
    let tb = dk[j + 1];
    lemma_journal_image(dk, j, sb, tx_id, tx);
    lemma_sb_flag(with_flag(sb, 1), dk[j]);
    assert forall|i: int| 0 <= i < n implies 0 <= #[trigger] dest(tb, i) < dk.len() && !in_journal(dest(tb, i), j) by {
        assert(dest(tb, i) == tx[i].0);
    }
    assert(!dest_past_end(tb, dk.len() as int));
    lemma_replay(dk, j, tb, n);
    assert(replay_writes(dk, j, tb, n) =~= tx);
}

/// Once the flag is written and before it is cleared again, recovery finds
/// the whole transaction in the journal and copies it to its destinations,
/// over whatever part of it the checkpoint had already copied.
proof fn lemma_crash_after_flag(d: Seq<Seq<u8>>, j: int, sb: JournalSb, tx_id: u64, tx: Seq<(int, Seq<u8>)>, k: int)
    requires
        commit_setting(d, j, tx),
        tx.len() + 3 <= k < 2 * tx.len() + 4,
    ensures
        recovered_as(d, j, sb, tx_id, tx, k),
{
    let n = tx.len() as int;
    let jw = journal_writes(j, sb, tx_id, tx);
    let sb0 = (j, journal_sb_bytes(with_flag(sb, 0)));
    let w = commit_writes(j, sb, tx_id, tx);
    lemma_commit_in_range(d, j, sb, tx_id, tx, k);
    let d1 = apply(d, jw);
    lemma_apply_len(d, jw);
    let m = k - (n + 3);
    let wk = w.take(k);
    assert(wk =~= jw + tx.take(m));
    lemma_apply_concat(d, jw, tx.take(m));
    let dk = apply(d1, tx.take(m));
    lemma_partial_checkpoint(d, j, sb, tx_id, tx, m);
    lemma_recover_committed(dk, j, sb, tx_id, tx);
    let r = apply(dk, tx).update(j, clear_flag(dk[j]));
    lemma_apply_len(dk, tx);
    lemma_apply_concat(d, jw, tx);
    lemma_apply_push(d, jw + tx, sb0);
    assert(w =~= (jw + tx).push(sb0));
    assert(apply(d, jw + tx) == apply(d1, tx));
    assert(in_range(jw + tx, d.len() as int)) by {
        assert forall|i: int| 0 <= i < (jw + tx).len() implies 0 <= #[trigger] (jw + tx)[i].0 < d.len() by {
            assert((jw + tx)[i] == w[i]);
        }
    }
    lemma_apply_len(d, jw + tx);
    assert(apply(d, w) == apply(d1, tx).update(j, sb0.1));
    assert forall|b: int| 0 <= b < d.len() && !in_journal(b, j) implies #[trigger] r[b] == apply(d, w)[b] by {
        assert(b != j);
        assert(r[b] == apply(dk, tx)[b]);
        lemma_apply_absorb(d1, tx, m, b);
        assert(apply(d, w)[b] == apply(d1, tx)[b]);
    }
}

/// After the last write, the flag is clear again and recovery leaves the
/// committed disk alone.
proof fn lemma_crash_done(d: Seq<Seq<u8>>, j: int, sb: JournalSb, tx_id: u64, tx: Seq<(int, Seq<u8>)>)
    requires
        commit_setting(d, j, tx),
    ensures
        recovered_as(d, j, sb, tx_id, tx, 2 * tx.len() as int + 4),
{
    let n = tx.len() as int;
    let jw = journal_writes(j, sb, tx_id, tx);
    let sb0 = (j, journal_sb_bytes(with_flag(sb, 0)));
    let w = commit_writes(j, sb, tx_id, tx);
    lemma_commit_in_range(d, j, sb, tx_id, tx, w.len() as int);
    lemma_journal_image(d, j, sb, tx_id, tx);
    assert(w.take(w.len() as int) =~= w);
    lemma_apply_concat(d, jw, tx);
    lemma_apply_push(d, jw + tx, sb0);
    assert(w =~= (jw + tx).push(sb0));
    lemma_apply_len(d, w);
    lemma_apply_last(d, w, w.len() - 1, j);
    lemma_sb_flag(with_flag(sb, 0), apply(d, w)[j]);
}

/// Crash consistency of the journal. A commit makes the block writes of
/// [`commit_writes`], one at a time; say the first `k` of them reach the
/// disk before a crash. Recovery then succeeds, and every block outside the
/// journal area is as it was before the commit when the commit flag had not
/// been written yet (`k < n + 3` for a transaction of `n` blocks), and as
/// the whole commit leaves it once the flag had been written.
pub proof fn lemma_crash_recovery(
    d: Seq<Seq<u8>>,
    j: int,
    sb: JournalSb,
    tx_id: u64,
    tx: Seq<(int, Seq<u8>)>,
    k: int,
)
    requires
        0 < j,
        j + journal_blocks() <= d.len(),
        le_u64(d[j], 8) == 0,
        tx.len() <= 511,
        tx_ok(tx, d.len() as int),
        outside_journal(tx, j),
        0 <= k <= commit_writes(j, sb, tx_id, tx).len(),
    ensures
        recovered_as(d, j, sb, tx_id, tx, k),
{
    lemma_commit_in_range(d, j, sb, tx_id, tx, k);
    if k < tx.len() + 3 {
        lemma_crash_before_flag(d, j, sb, tx_id, tx, k);
    } else if k < 2 * tx.len() + 4 {
        lemma_crash_after_flag(d, j, sb, tx_id, tx, k);
    } else {
        lemma_crash_done(d, j, sb, tx_id, tx);
    }
}

/// Recovery is idempotent: recovering the disk that a recovery left behind
/// changes nothing more.
pub proof fn lemma_recover_idempotent(d: Seq<Seq<u8>>, j: int)
    requires
        0 <= j,
        j + journal_blocks() <= d.len(),
        d[j].len() == 4096,
    ensures
        recover(d, j) matches Some(r) ==> recover(r, j) == Some(r),
{
    if let Some(r) = recover(d, j) {
        if le_u64(d[j], 8) != 0 {
            let tb = d[j + 1];
            let n = used_slots(tb);
            lemma_used_from(tb, 0);
            if le_u64(d[j + 2 + n], 0) == le_u64(tb, 0) {
                lemma_replay_len(d, j, tb, n);
            }
            let c = clear_flag(d[j]);
            assert(c.subrange(8, 16) =~= u64_le(0));
            lemma_u64_roundtrip(0);
            assert forall|t: int| 0 <= t < 8 implies #[trigger] c[8 + t] == u64_le(0)[t] by {}
            assert(le_u64(r[j], 8) == 0);
        }
    }
}

/// Recovery keeps the number of blocks of the disk.
pub proof fn lemma_recover_len(d: Seq<Seq<u8>>, j: int)
    requires
        0 <= j,
        j + journal_blocks() <= d.len(),
    ensures
        recover(d, j) matches Some(r) ==> r.len() == d.len(),
{
    if let Some(r) = recover(d, j) {
        if le_u64(d[j], 8) != 0 {
            let tb = d[j + 1];
            let n = used_slots(tb);
            lemma_used_from(tb, 0);
            if le_u64(d[j + 2 + n], 0) == le_u64(tb, 0) {
                lemma_replay_len(d, j, tb, n);
            }
        }
    }
}

} // verus!
