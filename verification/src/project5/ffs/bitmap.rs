//! Allocation bitmaps of the file system.
//!
//! A bitmap block is 4 KiB of 512 little-endian words; bit `pos % 64` of word
//! `pos / 64` tells whether block (or inode) number `pos` of the group is in
//! use (`1`) or free (`0`).
use vstd::prelude::*;

verus! {

/// The number of words in a bitmap block.
pub const BITMAP_WORDS: usize = 512;

/// The number of bits in a bitmap block.
pub const BITMAP_BITS: usize = 32768;

/// Bit `off` of `w`.
pub open spec fn bit_of(w: u64, off: u64) -> bool {
    (w >> off) & 1u64 == 1u64
}

/// The bits of a bitmap made of `words`.
pub open spec fn bits_of(words: Seq<u64>) -> Seq<bool> {
    Seq::new(BITMAP_BITS as nat, |i: int| bit_of(words[i / 64], (i % 64) as u64))
}

/// Setting bit `off` of `w` sets that bit and keeps the others.
pub proof fn lemma_set_bit(w: u64, off: u64)
    requires
        off < 64,
    ensures
        bit_of(w | (1u64 << off), off),
        forall|j: u64| j < 64 && j != off ==> bit_of(w | (1u64 << off), j) == bit_of(w, j),
        (w & (1u64 << off) == 0u64) == !bit_of(w, off),
{
    assert(bit_of(w | (1u64 << off), off)) by (bit_vector)
        requires
            off < 64,
    ;
    assert(forall|j: u64| j < 64 && j != off ==> bit_of(w | (1u64 << off), j) == bit_of(w, j))
        by (bit_vector)
        requires
            off < 64,
    ;
    assert((w & (1u64 << off) == 0u64) == !bit_of(w, off)) by (bit_vector)
        requires
            off < 64,
    ;
}

/// Clearing bit `off` of `w` clears that bit and keeps the others.
pub proof fn lemma_clear_bit(w: u64, off: u64)
    requires
        off < 64,
    ensures
        !bit_of(w & !(1u64 << off), off),
        forall|j: u64| j < 64 && j != off ==> bit_of(w & !(1u64 << off), j) == bit_of(w, j),
        (w & (1u64 << off) != 0u64) == bit_of(w, off),
{
    assert(!bit_of(w & !(1u64 << off), off)) by (bit_vector)
        requires
            off < 64,
    ;
    assert(forall|j: u64| j < 64 && j != off ==> bit_of(w & !(1u64 << off), j) == bit_of(w, j))
        by (bit_vector)
        requires
            off < 64,
    ;
    assert((w & (1u64 << off) != 0u64) == bit_of(w, off)) by (bit_vector)
        requires
            off < 64,
    ;
}

/// Replacing word `wi` of a bitmap changes the bits of that word only.
pub proof fn lemma_update_word(words: Seq<u64>, wi: int, nw: u64, pos: int, b: bool)
    requires
        words.len() == BITMAP_WORDS,
        0 <= pos < BITMAP_BITS,
        wi == pos / 64,
        bit_of(nw, (pos % 64) as u64) == b,
        forall|j: u64| j < 64 && j != (pos % 64) as u64 ==> bit_of(nw, j) == bit_of(words[wi], j),
    ensures
        bits_of(words.update(wi, nw)) == bits_of(words).update(pos, b),
{
    let nwords = words.update(wi, nw);
    assert forall|i: int| 0 <= i < BITMAP_BITS implies #[trigger] bits_of(nwords)[i] == bits_of(
        words,
    ).update(pos, b)[i] by {
        if i / 64 == wi {
            assert(nwords[i / 64] == nw);
            if i != pos {
                assert((i % 64) as u64 != (pos % 64) as u64);
            }
        } else {
            assert(nwords[i / 64] == words[i / 64]);
            assert(i != pos);
        }
    }
    assert(bits_of(nwords) =~= bits_of(words).update(pos, b));
}

/// Whether position `pos` of the bitmap words `bits` is allocated.
pub fn bits_is_allocated(bits: &[u64; 512], pos: usize) -> (r: bool)
    requires
        pos < BITMAP_BITS,
    ensures
        r == bits_of(bits@)[pos as int],
{
    let (w, off) = (pos / 64, pos % 64);
    proof {
        lemma_set_bit(bits@[w as int], off as u64);
    }
    bits[w] & (1u64 << (off as u64)) != 0
}

/// Sets the bit of `pos` if it is clear; tells whether it was.
pub fn bits_try_allocate(bits: &mut [u64; 512], pos: usize) -> (r: bool)
    requires
        pos < BITMAP_BITS,
    ensures
        r == !bits_of(old(bits)@)[pos as int],
        bits_of(final(bits)@) == bits_of(old(bits)@).update(pos as int, true),
{
    let (w, off) = (pos / 64, pos % 64);
    let word = bits[w];
    proof {
        lemma_set_bit(word, off as u64);
    }
    if word & (1u64 << (off as u64)) == 0 {
        let nw = word | (1u64 << (off as u64));
        proof {
            lemma_update_word(bits@, w as int, nw, pos as int, true);
        }
        bits[w] = nw;
        true
    } else {
        proof {
            assert(bits_of(bits@) =~= bits_of(bits@).update(pos as int, true));
        }
        false
    }
}

/// Clears the bit of `pos` if it is set; tells whether it was.
pub fn bits_deallocate(bits: &mut [u64; 512], pos: usize) -> (r: bool)
    requires
        pos < BITMAP_BITS,
    ensures
        r == bits_of(old(bits)@)[pos as int],
        bits_of(final(bits)@) == bits_of(old(bits)@).update(pos as int, false),
{
    let (w, off) = (pos / 64, pos % 64);
    let word = bits[w];
    proof {
        lemma_clear_bit(word, off as u64);
    }
    if word & (1u64 << (off as u64)) != 0 {
        let nw = word & !(1u64 << (off as u64));
        proof {
            lemma_update_word(bits@, w as int, nw, pos as int, false);
        }
        bits[w] = nw;
        true
    } else {
        proof {
            assert(bits_of(bits@) =~= bits_of(bits@).update(pos as int, false));
        }
        false
    }
}

/// A bitmap whose words are all zero has every position free.
pub proof fn lemma_zero_bits(bits: [u64; 512])
    requires
        forall|i: int| 0 <= i < BITMAP_WORDS ==> bits@[i] == 0u64,
    ensures
        forall|i: int| 0 <= i < BITMAP_BITS ==> !#[trigger] bits_of(bits@)[i],
{
    assert forall|i: int| 0 <= i < BITMAP_BITS implies !#[trigger] bits_of(bits@)[i] by {
        assert(bits@[i / 64] == 0u64);
        let off = (i % 64) as u64;
        assert(!bit_of(0u64, off)) by (bit_vector)
            requires
                off < 64,
        ;
    }
}

} // verus!
