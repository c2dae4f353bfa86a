//! Word-level bit primitives: testing and setting single bits in a flat
//! sequence of 64-bit words, and counting set bits. These are the four
//! primitive operations the packed grid is built from.

use vstd::prelude::*;

verus! {

/// True when bit `j` of word `w` is set (`j` counted from the least
/// significant bit).
pub open spec fn word_bit(w: u64, j: u64) -> bool {
    j < 64 && (w >> j) & 1u64 == 1u64
}

/// Number of set bits of `w` among bit positions `[0, j)`.
pub open spec fn pcount(w: u64, j: int) -> nat
    decreases j,
{
    if j <= 0 {
        0
    } else {
        pcount(w, j - 1) + if word_bit(w, (j - 1) as u64) {
            1nat
        } else {
            0nat
        }
    }
}

/// Bit `i` of a flat bit sequence stored in 64-bit words: bit `i` lives in
/// word `i / 64` at position `i % 64`. Out-of-range positions read as false.
pub open spec fn seq_bit(words: Seq<u64>, i: int) -> bool {
    0 <= i < 64 * words.len() && word_bit(words[i / 64], (i % 64) as u64)
}

/// Returns `w` with bit `j` set and every other bit unchanged.
pub fn set_word_bit(w: u64, j: usize) -> (r: u64)
    requires
        j < 64,
    ensures
        forall|j2: u64| word_bit(r, j2) == (j2 == j || word_bit(w, j2)),
{
    let r = w | (1u64 << (j as u64));
    proof {
        let ju = j as u64;
        assert forall|j2: u64| word_bit(r, j2) == (j2 == ju || word_bit(w, j2)) by {
            assert(word_bit(w | (1u64 << ju), j2) == (j2 == ju || word_bit(w, j2)))
                by (bit_vector)
                requires
                    ju < 64,
            ;
        }
    }
    r
}

/// Whether bit `j` of `w` is set.
pub fn test_word_bit(w: u64, j: usize) -> (r: bool)
    requires
        j < 64,
    ensures
        r == word_bit(w, j as u64),
{
    (w >> (j as u64)) & 1u64 == 1u64
}

/// Number of set bits in `w`.
pub fn popcount(w: u64) -> (r: usize)
    ensures
        r == pcount(w, 64),
        r <= 64,
{
    let mut r: usize = 0;
    let mut j: usize = 0;
    while j < 64
        invariant
            j <= 64,
            r == pcount(w, j as int),
            r <= j,
        decreases 64 - j,
    {
        if (w >> (j as u64)) & 1u64 == 1u64 {
            r = r + 1;
        }
        j = j + 1;
    }
    r
}

/// `pcount` never exceeds the number of positions counted.
pub proof fn lemma_pcount_bound(w: u64, j: int)
    ensures
        pcount(w, j) <= if j <= 0 {
            0
        } else {
            j as nat
        },
    decreases j,
{
    if j > 0 {
        lemma_pcount_bound(w, j - 1);
    }
}

} // verus!
