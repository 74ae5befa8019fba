//! Single-word bit operations and their basic facts.
//!
//! A word is a `u64`; all bit positions within a word are below [`BITS`].

use vstd::prelude::*;
use vstd::std_specs::bits::axiom_u64_trailing_zeros;
use vstd::std_specs::bits::u64_trailing_zeros;

verus! {

/// Number of bits stored in one word.
pub const BITS: usize = 64;

/// True when bit `j` of word `w` is set (meaningful for `j < 64`).
pub open spec fn wbit(w: u64, j: nat) -> bool {
    (w >> (j as u64)) & 1u64 == 1u64
}

/// Word `w` with bit `j` set.
pub open spec fn with_bit(w: u64, j: nat) -> u64 {
    w | (1u64 << (j as u64))
}

/// Word `w` with bit `j` cleared.
pub open spec fn without_bit(w: u64, j: nat) -> u64 {
    w & !(1u64 << (j as u64))
}

/// Setting bit `j` sets exactly bit `j` and leaves every other bit alone;
/// the result is never the zero word.
pub proof fn lemma_with_bit(w: u64, j: nat)
    requires
        j < 64,
    ensures
        wbit(with_bit(w, j), j),
        forall|k: nat| k < 64 && k != j ==> wbit(with_bit(w, j), k) == wbit(w, k),
        with_bit(w, j) != 0,
        !wbit(w, j) || with_bit(w, j) == w,
{
    let jj = j as u64;
    assert((w | (1u64 << jj)) >> jj & 1u64 == 1u64) by (bit_vector)
        requires jj < 64,
    ;
    assert(forall|k: u64|
        k < 64 && k != jj ==> ((w | (1u64 << jj)) >> k) & 1u64 == (w >> k) & 1u64)
        by (bit_vector)
        requires jj < 64,
    ;
    assert((w | (1u64 << jj)) != 0) by (bit_vector)
        requires jj < 64,
    ;
    assert((w >> jj) & 1u64 == 1u64 ==> (w | (1u64 << jj)) == w) by (bit_vector)
        requires jj < 64,
    ;
    assert forall|k: nat| k < 64 && k != j implies
        wbit(with_bit(w, j), k) == wbit(w, k) by {
        let kk = k as u64;
        assert(((w | (1u64 << jj)) >> kk) & 1u64 == (w >> kk) & 1u64);
    }
}

/// Clearing bit `j` clears exactly bit `j` and leaves every other bit alone.
pub proof fn lemma_without_bit(w: u64, j: nat)
    requires
        j < 64,
    ensures
        !wbit(without_bit(w, j), j),
        forall|k: nat| k < 64 && k != j ==> wbit(without_bit(w, j), k) == wbit(w, k),
{
    let jj = j as u64;
    assert((w & !(1u64 << jj)) >> jj & 1u64 != 1u64) by (bit_vector)
        requires jj < 64,
    ;
    assert(forall|k: u64|
        k < 64 && k != jj ==> ((w & !(1u64 << jj)) >> k) & 1u64 == (w >> k) & 1u64)
        by (bit_vector)
        requires jj < 64,
    ;
    assert forall|k: nat| k < 64 && k != j implies
        wbit(without_bit(w, j), k) == wbit(w, k) by {
        let kk = k as u64;
        assert(((w & !(1u64 << jj)) >> kk) & 1u64 == (w >> kk) & 1u64);
    }
}

/// A word is zero exactly when none of its 64 bits is set.
pub proof fn lemma_word_zero(w: u64)
    ensures
        (w == 0) <==> (forall|k: nat| k < 64 ==> !wbit(w, k)),
{
    if w == 0 {
        assert(forall|k: u64| k < 64 ==> (0u64 >> k) & 1u64 != 1u64) by (bit_vector);
        assert forall|k: nat| k < 64 implies !wbit(w, k) by {
            let kk = k as u64;
            assert((0u64 >> kk) & 1u64 != 1u64);
        }
    } else {
        let t = u64_trailing_zeros(w);
        axiom_u64_trailing_zeros(w);
        assert(t < 64);
        assert(wbit(w, t as nat));
    }
}

/// The trailing-zero count of a non-zero word names its lowest set bit.
pub proof fn lemma_trailing_zeros(w: u64)
    requires
        w != 0,
    ensures
        u64_trailing_zeros(w) < 64,
        wbit(w, u64_trailing_zeros(w) as nat),
        forall|k: nat| k < u64_trailing_zeros(w) ==> !wbit(w, k),
{
    axiom_u64_trailing_zeros(w);
    let t = u64_trailing_zeros(w);
    assert forall|k: nat| k < t implies !wbit(w, k) by {
        let kk = k as u64;
        assert((w >> kk) & 1u64 == 0u64);
        assert((w >> kk) & 1u64 != 1u64) by (bit_vector)
            requires (w >> kk) & 1u64 == 0u64,
        ;
    }
}

/// Number of set bits in a word.
pub open spec fn word_count(w: u64) -> nat
    decreases w,
{
    if w == 0 {
        0
    } else {
        ((w % 2) + word_count(w / 2)) as nat
    }
}

/// Clearing a set bit lowers the word's set-bit count by exactly one.
pub proof fn lemma_without_bit_count(w: u64, j: nat)
    requires
        j < 64,
        wbit(w, j),
    ensures
        word_count(without_bit(w, j)) + 1 == word_count(w),
    decreases j,
{
    let jj = j as u64;
    if j == 0 {
        assert(w % 2 == 1 && (w & !1u64) % 2 == 0 && (w & !1u64) / 2 == w / 2 && w != 0
            && (w & !1u64) == ((w & !(1u64 << 0u64)))) by (bit_vector)
            requires (w >> 0u64) & 1u64 == 1u64,
        ;
        if without_bit(w, j) == 0 {
            assert(word_count(w) == 1 + word_count(w / 2));
        }
    } else {
        let v = w / 2;
        let kk = (j - 1) as u64;
        assert((w >> jj) & 1u64 == ((w / 2) >> kk) & 1u64
            && (w & !(1u64 << jj)) / 2 == (w / 2) & !(1u64 << kk)
            && (w & !(1u64 << jj)) % 2 == w % 2
            && ((w & !(1u64 << jj)) == 0 ==> (w / 2) & !(1u64 << kk) == 0))
            by (bit_vector)
            requires 1 <= jj < 64 && jj == kk + 1,
        ;
        lemma_without_bit_count(v, (j - 1) as nat);
        assert(word_count(without_bit(w, j)) ==
            (without_bit(w, j) % 2 + word_count(without_bit(w, j) / 2)) as nat || without_bit(w, j) == 0);
        if without_bit(w, j) == 0 {
            assert(word_count(without_bit(v, (j - 1) as nat)) == 0);
            assert(word_count(v) == 1);
            assert(w % 2 == 0);
            assert(word_count(w) == word_count(v));
        }
    }
}

} // verus!
