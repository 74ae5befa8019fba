//! Draining enumeration over a hierarchical bit set.
//!
//! A [`Drain`] cursor yields every set position of a [`BitSet`] in strictly
//! ascending order, clearing each position as it is produced and repairing
//! the summary bits of every word it empties, so that the hierarchy is left
//! entirely zero once the cursor is exhausted.

use vstd::prelude::*;
use vstd::arithmetic::div_mod::lemma_fundamental_div_mod;
use vstd::arithmetic::div_mod::lemma_fundamental_div_mod_converse;
use vstd::arithmetic::div_mod::lemma_div_denominator;
use vstd::arithmetic::mul::lemma_mul_inequality;
use vstd::arithmetic::mul::lemma_mul_strict_inequality;
use vstd::arithmetic::mul::lemma_mul_is_distributive_add_other_way;
use crate::bits::wbit;
use crate::bits::lemma_word_zero;
use crate::bits::lemma_trailing_zeros;
use crate::bit_set::BitSet;
use crate::bit_set::layer_bit;
use crate::bit_set::all_zero;
use crate::layout::pow64;
use crate::layout::lemma_pow64_pos;
use crate::layout::lemma_pow64_mono;
use crate::layout::lemma_pow64_le_cap;

verus! {

/// A stateful cursor that drains a [`BitSet`]: each step yields the
/// smallest remaining set position and clears it.
///
/// The cursor holds no reference; each [`next`] call takes the set it was
/// created from.  `depth` is the layer the cursor stands at (the layer
/// count once the set is exhausted), `index` the base position of the
/// subtree it stands in.
///
/// [`next`]: Drain::next
pub struct Drain {
    /// Base position of the subtree the cursor stands in.
    pub index: usize,
    /// The layer the cursor examines next; the layer count once exhausted.
    pub depth: usize,
    /// Number of per-layer steps taken so far, a cost diagnostic.
    pub op_count: usize,
}

impl Drain {
    /// The word index the cursor's position occupies at its current depth.
    pub open spec fn word_index(self, s: BitSet) -> int {
        ((self.index as nat) / pow64(self.depth as nat + 1)) as int
    }

    /// The word the cursor currently stands on.
    pub open spec fn cursor_word(self, s: BitSet) -> u64 {
        s.layer(self.depth as int)[self.word_index(s)]
    }

    /// The invariant tying a cursor to the hierarchy it walks: the set is
    /// well formed with intact summaries; an exhausted cursor stands over
    /// an all-zero hierarchy; a live cursor stands, aligned, on the base
    /// of a subtree at its depth, every set position is at or above that
    /// base, and the cursor's word is non-zero unless the cursor is still
    /// at its freshly created state (topmost layer, index 0).
    pub open spec fn inv(self, s: BitSet) -> bool {
        &&& s.wf()
        &&& s.summary_ok()
        &&& if self.depth as int >= s.num_layers() {
            &&& self.depth as int == s.num_layers()
            &&& forall|k: int| 0 <= k < s.num_layers() ==> all_zero(#[trigger] s.layer(k))
        } else {
            &&& self.index < s.cap
            &&& (self.index as nat) % pow64(self.depth as nat) == 0
            &&& (self.depth == 0 ==> (self.index as nat) % 64 == 0)
            &&& (forall|q: nat| s.contains(q) ==> q >= self.index)
            &&& ((self.depth as int == s.num_layers() - 1 && self.index == 0) || self.cursor_word(
                s,
            ) != 0)
        }
    }
}

impl BitSet {
    /// Create a draining cursor over this set.
    ///
    /// Starting from an intact hierarchy, repeated [`Drain::next`] calls
    /// yield exactly the set positions in strictly ascending order and
    /// leave the hierarchy empty.
    pub fn drain(&mut self) -> (r: Drain)
        requires
            old(self).wf(),
            old(self).summary_ok(),
        ensures
            *final(self) == *old(self),
            r.inv(*old(self)),
            r.op_count == 0,
    {
        let len = self.layers.len();
        let depth = if len == 0 {
            0
        } else {
            len - 1
        };
        proof {
            if self.layers.len() > 0 {
                lemma_pow64_le_cap(self.cap as nat);
                lemma_pow64_pos(depth as nat);
            }
        }
        Drain { index: 0, depth, op_count: 0 }
    }
}

/// The summary pairs up to layer `m` are intact: for every layer `k` with
/// `1 <= k <= m`, each bit of layer `k` says exactly whether the word below
/// it is non-zero.
pub open spec fn summary_upto(s: BitSet, m: int) -> bool {
    forall|k: int, b: nat|
        1 <= k < s.num_layers() && k <= m && b < 64 * s.layer(k).len() ==> ((#[trigger] layer_bit(
            s.layer(k),
            b,
        )) <==> (b < s.layer(k - 1).len() && s.layer(k - 1)[b as int] != 0))
}

/// An intact hierarchy has intact summaries up to every layer.
pub proof fn lemma_summary_upto(s: BitSet, m: int)
    requires
        s.summary_ok(),
    ensures
        summary_upto(s, m),
{
}

/// A set position is always below the capacity.
pub proof fn lemma_contains_cap(s: BitSet, q: nat)
    requires
        s.wf(),
        s.contains(q),
    ensures
        q < s.cap,
{
    if q >= s.cap as nat {
        assert(!layer_bit(s.layer(0), q));
    }
}

/// Any position within reach of layer `k` word `w` divides down to `w`.
proof fn lemma_div_in_range(q: nat, w: int, unit: nat)
    requires
        unit >= 1,
        w * unit <= q < (w + 1) * unit,
    ensures
        q / unit == w,
{
    lemma_mul_is_distributive_add_other_way(unit as int, w, 1);
    lemma_fundamental_div_mod_converse(q as int, unit as int, w, q - w * unit);
}

/// Below a zero word lies an empty subtree: no position it covers is set.
pub proof fn lemma_subtree_empty(s: BitSet, k: int, w: int)
    requires
        s.wf(),
        summary_upto(s, k),
        0 <= k < s.num_layers(),
        0 <= w < s.layer(k).len(),
        s.layer(k)[w] == 0,
    ensures
        forall|q: nat|
            s.contains(q) && w * pow64(k as nat + 1) <= q ==> q >= (w + 1) * pow64(k as nat + 1),
    decreases k,
{
    let unit = pow64(k as nat + 1);
    lemma_pow64_pos(k as nat + 1);
    lemma_pow64_pos(k as nat);
    assert forall|q: nat|
        s.contains(q) && w * unit <= q && q < (w + 1) * unit implies false by {
        lemma_contains_cap(s, q);
        lemma_div_in_range(q, w, unit);
        if k == 0 {
            vstd::arithmetic::div_mod::lemma_div_basics(q as int);
            assert(q / pow64(0nat) == q);
            assert(q / 64 == w) by {
                assert(pow64(1nat) == 64);
            }
            lemma_word_zero(0u64);
            assert(!layer_bit(s.layer(0), q));
        } else {
            let v = q / pow64(k as nat);
            crate::bit_set::lemma_position_word(s, k, q);
            crate::bit_set::lemma_position_word(s, k - 1, q);
            assert(v / 64 == q / unit) by {
                lemma_div_denominator(q as int, pow64(k as nat) as int, 64);
                assert(64 * pow64(k as nat) == pow64(k as nat + 1));
            }
            assert(v / 64 == w);
            lemma_word_zero(0u64);
            assert(!layer_bit(s.layer(k), v));
            assert(v < 64 * s.layer(k).len());
            assert(v < s.layer(k - 1).len() && s.layer(k - 1)[v as int] == 0 ==> false) by {
                if v < s.layer(k - 1).len() && s.layer(k - 1)[v as int] == 0 {
                    lemma_subtree_empty(s, k - 1, v as int);
                    assert(v * pow64(k as nat) <= q < (v + 1) * pow64(k as nat)) by {
                        lemma_fundamental_div_mod(q as int, pow64(k as nat) as int);
                        lemma_mul_is_distributive_add_other_way(pow64(k as nat) as int, v as int, 1);
                    }
                }
            }
            assert(v < s.layer(k - 1).len()) by {
                assert((q / pow64((k - 1) as nat)) / 64 == v) by {
                    lemma_div_denominator(q as int, pow64((k - 1) as nat) as int, 64);
                    assert(64 * pow64((k - 1) as nat) == pow64(k as nat));
                }
            }
            assert(s.layer(k - 1)[v as int] != 0 ==> layer_bit(s.layer(k), v));
        }
    }
}

/// Below a non-zero word lies a non-empty subtree: some position it covers
/// is set.
pub proof fn lemma_subtree_nonempty(s: BitSet, k: int, w: int)
    requires
        s.wf(),
        summary_upto(s, k),
        0 <= k < s.num_layers(),
        0 <= w < s.layer(k).len(),
        s.layer(k)[w] != 0,
    ensures
        exists|q: nat|
            s.contains(q) && w * pow64(k as nat + 1) <= q < (w + 1) * pow64(k as nat + 1),
    decreases k,
{
    let unit = pow64(k as nat + 1);
    lemma_pow64_pos(k as nat + 1);
    lemma_pow64_pos(k as nat);
    lemma_word_zero(s.layer(k)[w]);
    let j = choose|j: nat| j < 64 && wbit(s.layer(k)[w], j);
    let b = 64 * w + j;
    assert(b / 64 == w && b % 64 == j) by {
        lemma_fundamental_div_mod_converse(b as int, 64, w, j as int);
    }
    assert(layer_bit(s.layer(k), (b as nat)));
    assert((b as nat) < 64 * s.layer(k).len()) by {
        lemma_mul_strict_inequality(w, s.layer(k).len() as int, 64);
    }
    if k == 0 {
        let q = b as nat;
        assert(s.contains(q));
        assert(w * pow64(1nat) <= q < (w + 1) * pow64(1nat)) by {
            assert(pow64(1nat) == 64);
            lemma_mul_is_distributive_add_other_way(64, w, 1);
        }
    } else {
        assert(b < s.layer(k - 1).len() && s.layer(k - 1)[b as int] != 0);
        lemma_subtree_nonempty(s, k - 1, b as int);
        let q = choose|q: nat|
            s.contains(q) && b * pow64(k as nat) <= q < (b + 1) * pow64(k as nat);
        assert(w * unit <= q < (w + 1) * unit) by {
            let u = pow64(k as nat) as int;
            assert(b * u == 64 * w * u + j * u) by {
                lemma_mul_is_distributive_add_other_way(u, 64 * w, j as int);
            }
            assert((b + 1) * u == 64 * w * u + (j + 1) * u) by {
                lemma_mul_is_distributive_add_other_way(u, 64 * w, j as int + 1);
            }
            assert(64 * w * u == w * (64 * u)) by {
                vstd::arithmetic::mul::lemma_mul_is_associative(64, w, u);
                vstd::arithmetic::mul::lemma_mul_is_commutative(64, w);
                vstd::arithmetic::mul::lemma_mul_is_associative(w, 64, u);
            }
            assert(64 * u == unit);
            assert(j * u >= 0) by {
                vstd::arithmetic::mul::lemma_mul_nonnegative(j as int, u);
            }
            assert((j + 1) * u <= 64 * u) by {
                lemma_mul_inequality(j as int + 1, 64, u);
            }
            assert((w + 1) * unit == w * unit + unit) by {
                lemma_mul_is_distributive_add_other_way(unit as int, w, 1);
            }
        }
    }
}

/// When the topmost word is zero, the whole hierarchy is empty: nothing is
/// set and every word of every layer is zero.
pub proof fn lemma_empty_structure(s: BitSet)
    requires
        s.wf(),
        summary_upto(s, s.num_layers() - 1),
        s.num_layers() >= 1,
        s.layer(s.num_layers() - 1).len() == 1,
        s.layer(s.num_layers() - 1)[0] == 0,
    ensures
        forall|q: nat| !s.contains(q),
        forall|k: int| 0 <= k < s.num_layers() ==> all_zero(#[trigger] s.layer(k)),
{
    let top = s.num_layers() - 1;
    lemma_subtree_empty(s, top, 0);
    lemma_pow64_pos(top as nat + 1);
    assert forall|q: nat| !s.contains(q) by {
        if s.contains(q) {
            lemma_contains_cap(s, q);
            crate::bit_set::lemma_position_word(s, top, q);
            let v = q / pow64(top as nat);
            assert(v / 64 < 1);
            assert(q < pow64(top as nat + 1)) by {
                lemma_div_denominator(q as int, pow64(top as nat) as int, 64);
                assert(64 * pow64(top as nat) == pow64(top as nat + 1));
                assert(q / pow64(top as nat + 1) == 0);
                lemma_fundamental_div_mod(q as int, pow64(top as nat + 1) as int);
            }
            assert(0 * pow64(top as nat + 1) <= q);
            assert(q >= 1 * pow64(top as nat + 1));
        }
    }
    assert forall|k: int| 0 <= k < s.num_layers() implies all_zero(#[trigger] s.layer(k)) by {
        assert forall|i: int| 0 <= i < s.layer(k).len() implies s.layer(k)[i] == 0 by {
            if s.layer(k)[i] != 0 {
                lemma_subtree_nonempty(s, k, i);
            }
        }
    }
}


/// A non-empty hierarchy's topmost layer holds exactly one word.
pub proof fn lemma_top_len(s: BitSet)
    requires
        s.wf(),
        s.num_layers() >= 1,
    ensures
        s.cap > 0,
        s.layer(s.num_layers() - 1).len() == 1,
{
    crate::layout::lemma_layout_from_shape(crate::layout::ceil_div64(s.cap as nat));
}

/// Landing on the lowest set bit of a word: given that no set position lies
/// below the word's own reach, the bit's subtree base is the new lower
/// bound for every set position, the subtree below the bit is non-empty
/// (at layer 0: the bit itself is the smallest set position), and the base
/// indexes back to the same word.
proof fn lemma_land(s: BitSet, d: int, woff: int, t: nat)
    requires
        s.wf(),
        summary_upto(s, d),
        0 <= d < s.num_layers(),
        0 <= woff < s.layer(d).len(),
        t < 64,
        wbit(s.layer(d)[woff], t),
        forall|j: nat| j < t ==> !wbit(s.layer(d)[woff], j),
        forall|p: nat| s.contains(p) ==> p >= woff * pow64(d as nat + 1),
    ensures
        64 * woff + t < 64 * s.layer(d).len(),
        ((64 * woff + t) * pow64(d as nat)) < s.cap,
        forall|p: nat| s.contains(p) ==> p >= (64 * woff + t) * pow64(d as nat),
        ((64 * woff + t) * pow64(d as nat)) as nat % pow64(d as nat) == 0,
        ((64 * woff + t) * pow64(d as nat)) as nat / pow64(d as nat) == 64 * woff + t,
        ((64 * woff + t) * pow64(d as nat)) as nat / pow64(d as nat + 1) == woff,
        d == 0 ==> s.contains((64 * woff + t) as nat) && pow64(0nat) == 1,
        d >= 1 ==> 64 * woff + t < s.layer(d - 1).len() && s.layer(d - 1)[64 * woff + t] != 0,
{
    let unit = pow64(d as nat) as int;
    let bigunit = pow64(d as nat + 1) as int;
    lemma_pow64_pos(d as nat);
    assert(bigunit == 64 * unit);
    let vb = 64 * woff + t;
    let ni = vb * unit;
    assert(vb / 64 == woff && vb % 64 == t as int) by {
        lemma_fundamental_div_mod_converse(vb, 64, woff, t as int);
    }
    assert(vb < 64 * s.layer(d).len()) by {
        lemma_mul_strict_inequality(woff, s.layer(d).len() as int, 64);
    }
    assert(layer_bit(s.layer(d), vb as nat));

    // The base indexes back: ni lies in the word's own reach.
    assert(ni == woff * bigunit + t * unit) by {
        lemma_mul_is_distributive_add_other_way(unit, 64 * woff, t as int);
        vstd::arithmetic::mul::lemma_mul_is_associative(64, woff, unit);
        vstd::arithmetic::mul::lemma_mul_is_commutative(64, woff);
        vstd::arithmetic::mul::lemma_mul_is_associative(woff, 64, unit);
    }
    assert(0 <= t * unit && (t + 1) * unit <= bigunit) by {
        vstd::arithmetic::mul::lemma_mul_nonnegative(t as int, unit);
        lemma_mul_inequality(t as int + 1, 64, unit);
    }
    assert(t * unit < bigunit) by {
        lemma_mul_is_distributive_add_other_way(unit, t as int, 1);
    }
    assert(woff * bigunit <= ni < (woff + 1) * bigunit) by {
        lemma_mul_is_distributive_add_other_way(bigunit, woff, 1);
    }
    lemma_pow64_pos(d as nat + 1);
    lemma_div_in_range(ni as nat, woff, bigunit as nat);
    assert(ni as nat % pow64(d as nat) == 0) by {
        vstd::arithmetic::div_mod::lemma_mod_multiples_basic(vb, unit);
    }
    assert(ni as nat / pow64(d as nat) == vb) by {
        vstd::arithmetic::div_mod::lemma_div_multiples_vanish(vb, unit);
    }

    // The subtree at the bit is non-empty, placing the base below the
    // capacity.
    if d >= 1 {
        assert(vb < s.layer(d - 1).len() && s.layer(d - 1)[vb] != 0);
        lemma_subtree_nonempty(s, d - 1, vb);
        let p0 = choose|p0: nat|
            s.contains(p0) && vb * pow64((d - 1) as nat + 1) <= p0 < (vb + 1) * pow64(
                (d - 1) as nat + 1,
            );
        lemma_contains_cap(s, p0);
        assert(ni < s.cap);
    } else {
        vstd::arithmetic::mul::lemma_mul_basics(vb);
        assert(ni == vb);
        assert(s.contains(vb as nat));
        lemma_contains_cap(s, vb as nat);
    }

    // Every set position is at or above the base: anything between the
    // word's reach and the base would light a lower bit of this word.
    assert forall|p: nat| s.contains(p) && p < ni implies false by {
        lemma_contains_cap(s, p);
        let vq = p / pow64(d as nat);
        assert(vq >= 64 * woff) by {
            assert(woff * bigunit == unit * (64 * woff)) by {
                vstd::arithmetic::mul::lemma_mul_is_associative(woff, 64, unit);
                vstd::arithmetic::mul::lemma_mul_is_commutative(woff, 64);
                vstd::arithmetic::mul::lemma_mul_is_commutative(64 * woff, unit);
            }
            vstd::arithmetic::div_mod::lemma_div_multiples_vanish(64 * woff, unit);
            vstd::arithmetic::div_mod::lemma_div_is_ordered(woff * bigunit, p as int, unit);
        }
        assert(vq < vb) by {
            assert(p < unit * vb) by {
                vstd::arithmetic::mul::lemma_mul_is_commutative(vb, unit);
            }
            vstd::arithmetic::div_mod::lemma_multiply_divide_lt(p as int, unit, vb);
        }
        assert(vq / 64 == woff && vq % 64 == vq - 64 * woff) by {
            lemma_fundamental_div_mod_converse(vq as int, 64, woff, vq - 64 * woff);
        }
        assert(!wbit(s.layer(d)[woff], (vq % 64) as nat));
        assert(!layer_bit(s.layer(d), vq));
        if d == 0 {
            vstd::arithmetic::div_mod::lemma_div_basics(p as int);
            assert(vq == p);
        } else {
            crate::bit_set::lemma_position_word(s, d, p);
            assert(vq < s.layer(d - 1).len()) by {
                lemma_div_denominator(p as int, pow64((d - 1) as nat) as int, 64);
                assert(64 * pow64((d - 1) as nat) == pow64(d as nat));
                crate::bit_set::lemma_position_word(s, d - 1, p);
            }
            assert(s.layer(d - 1)[vq as int] == 0);
            lemma_subtree_empty(s, d - 1, vq as int);
            assert(vq * pow64(d as nat) <= p < (vq + 1) * pow64(d as nat)) by {
                lemma_fundamental_div_mod(p as int, unit);
                lemma_mul_is_distributive_add_other_way(unit, vq as int, 1);
            }
        }
    }
}


/// Mid-repair state: the yielded position `q` has been cleared from layer
/// 0 and the stale summary bits of the emptied words have been cleared up
/// to (not including) layer `d2`.  All summary pairs are intact except the
/// one of layer `d2` at the bit over the chain's emptied word, and every
/// still-set position lies beyond the whole subtree of that word.
pub open spec fn repair_inv(s: BitSet, pre: BitSet, q: nat, d2: int) -> bool {
    &&& s.wf()
    &&& s.cap == pre.cap
    &&& s.num_layers() == pre.num_layers()
    &&& forall|k: int|
        0 <= k < s.num_layers() ==> (#[trigger] s.layer(k)).len() == pre.layer(k).len()
    &&& s.layer(0) == crate::bit_set::clear_in_layer(pre.layer(0), q)
    &&& 1 <= d2 <= s.num_layers()
    &&& q < pre.cap
    &&& forall|k: int, b: nat|
        1 <= k < s.num_layers() && b < 64 * s.layer(k).len() && !(k == d2 && b == q / pow64(
            d2 as nat,
        )) ==> ((#[trigger] layer_bit(s.layer(k), b)) <==> (b < s.layer(k - 1).len() && s.layer(
            k - 1,
        )[b as int] != 0))
    &&& q / pow64(d2 as nat) < s.layer(d2 - 1).len()
    &&& s.layer(d2 - 1)[(q / pow64(d2 as nat)) as int] == 0
    &&& forall|p: nat|
        s.contains(p) ==> p >= (q / pow64(d2 as nat)) * pow64(d2 as nat) + pow64(d2 as nat)
}

/// Clearing one layer-0 bit: membership loses exactly that position.  When
/// the word keeps other bits the summaries are still intact; when the word
/// becomes empty, the repair state is entered at layer 1.
proof fn lemma_after_clear(pre: BitSet, post: BitSet, q: nat)
    requires
        pre.wf(),
        pre.summary_ok(),
        pre.contains(q),
        post.cap == pre.cap,
        post.num_layers() == pre.num_layers(),
        forall|k: int| 1 <= k < pre.num_layers() ==> #[trigger] post.layer(k) == pre.layer(k),
        post.layer(0) == crate::bit_set::clear_in_layer(pre.layer(0), q),
    ensures
        post.wf(),
        forall|k: int|
            0 <= k < post.num_layers() ==> (#[trigger] post.layer(k)).len() == pre.layer(k).len(),
        forall|p: nat| post.contains(p) == (p != q && pre.contains(p)),
        post.layer(0)[(q / 64) as int] == crate::bits::without_bit(
            pre.layer(0)[(q / 64) as int],
            q % 64,
        ),
        post.layer(0)[(q / 64) as int] != 0 ==> post.summary_ok(),
        (post.layer(0)[(q / 64) as int] == 0 && post.num_layers() >= 1 && (forall|p: nat|
            pre.contains(p) ==> p >= q)) ==> repair_inv(post, pre, q, 1),
{
    lemma_contains_cap(pre, q);
    crate::bit_set::lemma_position_word(pre, 0, q);
    vstd::arithmetic::div_mod::lemma_div_basics(q as int);
    lemma_pow64_pos(0);
    assert(q / pow64(0nat) == q);
    crate::bit_set::lemma_set_clear_test(pre.layer(0), q, q);
    assert(post.layer(0).len() == pre.layer(0).len());
    assert forall|p: nat| post.contains(p) == (p != q && pre.contains(p)) by {
        if p < 64 * pre.layer(0).len() {
            crate::bit_set::lemma_set_clear_test(pre.layer(0), q, p);
        }
    }
    assert forall|b: nat|
        post.cap as nat <= b < 64 * post.layer(0).len() && post.num_layers() > 0 implies !(
    #[trigger] layer_bit(post.layer(0), b)) by {
        crate::bit_set::lemma_set_clear_test(pre.layer(0), q, b);
    }
    assert(post.wf());

    let woff = (q / 64) as int;
    assert(forall|b: nat|
        b < 64 * post.layer(0).len() && b / 64 != q / 64 ==> (#[trigger] layer_bit(
            post.layer(0),
            b,
        )) == layer_bit(pre.layer(0), b)) by {
        assert forall|b: nat|
            b < 64 * post.layer(0).len() && b / 64 != q / 64 implies (#[trigger] layer_bit(
            post.layer(0),
            b,
        )) == layer_bit(pre.layer(0), b) by {
            crate::bit_set::lemma_set_clear_test(pre.layer(0), q, b);
        }
    }
    assert(forall|j: int|
        0 <= j < post.layer(0).len() && j != woff ==> post.layer(0)[j] == pre.layer(0)[j]);

    if post.layer(0)[woff] != 0 {
        // Pair 1 still holds at the changed word: non-zero before and
        // after; everything else is untouched.
        assert forall|k: int, b: nat|
            1 <= k < post.num_layers() && b < 64 * post.layer(k).len() implies ((
        #[trigger] layer_bit(post.layer(k), b)) <==> (b < post.layer(k - 1).len() && post.layer(
            k - 1,
        )[b as int] != 0)) by {
            assert(layer_bit(post.layer(k), b) == layer_bit(pre.layer(k), b));
            if k == 1 && b < post.layer(0).len() {
                if b as int == woff {
                    assert(pre.layer(0)[woff] != 0) by {
                        assert(layer_bit(pre.layer(0), q));
                        lemma_word_zero(pre.layer(0)[woff]);
                    }
                } else {
                    assert(post.layer(0)[b as int] == pre.layer(0)[b as int]);
                }
            }
        }
    }

    if post.layer(0)[woff] == 0 && post.num_layers() >= 1 && (forall|p: nat|
        pre.contains(p) ==> p >= q) {
        lemma_pow64_pos(1);
        assert(pow64(1nat) == 64);
        assert(q / pow64(1nat) == q / 64);
        assert forall|k: int, b: nat|
            1 <= k < post.num_layers() && b < 64 * post.layer(k).len() && !(k == 1 && b == q
                / 64) implies ((#[trigger] layer_bit(post.layer(k), b)) <==> (b < post.layer(
            k - 1,
        ).len() && post.layer(k - 1)[b as int] != 0)) by {
            assert(layer_bit(post.layer(k), b) == layer_bit(pre.layer(k), b));
            if k == 1 && b < post.layer(0).len() {
                assert(post.layer(0)[b as int] == pre.layer(0)[b as int]);
            }
        }
        assert forall|p: nat|
            post.contains(p) implies p >= (q / 64) * 64 + 64 by {
            assert(p != q && pre.contains(p));
            assert(p >= q);
            lemma_contains_cap(pre, p);
            assert(p / 64 != q / 64 || p % 64 != q % 64) by {
                vstd::arithmetic::div_mod::lemma_fundamental_div_mod(p as int, 64);
                vstd::arithmetic::div_mod::lemma_fundamental_div_mod(q as int, 64);
            }
            if p / 64 == q / 64 {
                assert(layer_bit(post.layer(0), p));
                assert(post.layer(0)[(p / 64) as int] == 0);
                lemma_word_zero(0u64);
            }
            assert(p / 64 != q / 64);
            assert(p / 64 > q / 64) by {
                vstd::arithmetic::div_mod::lemma_div_is_ordered(q as int, p as int, 64);
            }
            assert(p >= (q / 64) * 64 + 64) by {
                vstd::arithmetic::div_mod::lemma_fundamental_div_mod(p as int, 64);
                lemma_mul_inequality(q as int / 64 + 1, p as int / 64, 64);
                vstd::arithmetic::mul::lemma_mul_is_commutative(p as int / 64, 64);
                lemma_mul_is_distributive_add_other_way(64, q as int / 64, 1);
            }
        }
        assert(repair_inv(post, pre, q, 1));
    }
}


/// One upward repair step: clearing the stale summary bit of layer `d2`
/// either leaves its word non-zero (all summaries are whole again) or
/// empties it (the repair state moves up one layer).
proof fn lemma_repair_step(s: BitSet, post: BitSet, pre: BitSet, q: nat, d2: int)
    requires
        repair_inv(s, pre, q, d2),
        d2 < s.num_layers(),
        post.cap == s.cap,
        post.num_layers() == s.num_layers(),
        forall|k: int|
            0 <= k < s.num_layers() && k != d2 ==> #[trigger] post.layer(k) == s.layer(k),
        post.layer(d2) == crate::bit_set::clear_in_layer(s.layer(d2), q / pow64(d2 as nat)),
    ensures
        forall|k: int|
            0 <= k < post.num_layers() ==> (#[trigger] post.layer(k)).len() == pre.layer(k).len(),
        post.layer(0) == crate::bit_set::clear_in_layer(pre.layer(0), q),
        post.wf(),
        forall|p: nat| post.contains(p) == s.contains(p),
        post.layer(d2)[(q / pow64(d2 as nat + 1)) as int] == crate::bits::without_bit(
            s.layer(d2)[(q / pow64(d2 as nat + 1)) as int],
            (q / pow64(d2 as nat)) % 64,
        ),
        post.layer(d2)[(q / pow64(d2 as nat + 1)) as int] == 0 && d2 + 1 <= s.num_layers()
            ==> repair_inv(post, pre, q, d2 + 1),
        post.layer(d2)[(q / pow64(d2 as nat + 1)) as int] != 0 ==> post.summary_ok() && (
        forall|p: nat|
            post.contains(p) ==> p >= (q / pow64(d2 as nat)) * pow64(d2 as nat) + pow64(
                d2 as nat,
            )) && q / pow64(d2 as nat + 1) < post.layer(d2).len(),
{
    let x = q / pow64(d2 as nat);
    let w2 = q / pow64(d2 as nat + 1);
    lemma_pow64_pos(d2 as nat);
    lemma_pow64_pos(d2 as nat + 1);
    crate::bit_set::lemma_position_word(s, d2, q);
    crate::bit_set::lemma_position_word(s, d2 - 1, q);
    assert(x / 64 == w2) by {
        lemma_div_denominator(q as int, pow64(d2 as nat) as int, 64);
        assert(64 * pow64(d2 as nat) == pow64(d2 as nat + 1));
    }
    assert(x < s.layer(d2 - 1).len());
    assert(x < 64 * s.layer(d2).len());
    assert(w2 < s.layer(d2).len());
    crate::bit_set::lemma_set_clear_test(s.layer(d2), x, x);
    assert(post.layer(d2).len() == s.layer(d2).len());
    assert(post.layer(d2)[w2 as int] == crate::bits::without_bit(
        s.layer(d2)[w2 as int],
        x % 64,
    ));

    // Only word w2 of layer d2 changed, and only bit x of the layer.
    assert(forall|j: int|
        0 <= j < post.layer(d2).len() && j != w2 ==> post.layer(d2)[j] == s.layer(d2)[j]);
    assert forall|b: nat|
        b < 64 * post.layer(d2).len() && b != x implies (#[trigger] layer_bit(post.layer(d2), b))
        == layer_bit(s.layer(d2), b) by {
        crate::bit_set::lemma_set_clear_test(s.layer(d2), x, b);
    }
    assert(!layer_bit(post.layer(d2), x));

    // Membership is a layer-0 affair and layer 0 is untouched here.
    assert(forall|p: nat| post.contains(p) == s.contains(p));
    assert forall|b: nat|
        post.cap as nat <= b < 64 * post.layer(0).len() && post.num_layers() > 0 implies !(
    #[trigger] layer_bit(post.layer(0), b)) by {
        assert(post.layer(0) == s.layer(0));
    }
    assert(post.wf());

    let nw = post.layer(d2)[w2 as int];
    if nw == 0 {
        // The word is empty now: its own summary bit one layer up is the
        // only stale pair left.
        lemma_pow64_pos(d2 as nat + 1);
        assert forall|k: int, b: nat|
            1 <= k < post.num_layers() && b < 64 * post.layer(k).len() && !(k == d2 + 1 && b == q
                / pow64((d2 + 1) as nat)) implies ((#[trigger] layer_bit(post.layer(k), b)) <==> (
        b < post.layer(k - 1).len() && post.layer(k - 1)[b as int] != 0)) by {
            if k == d2 {
                if b == x {
                    assert(!layer_bit(post.layer(d2), x));
                    assert(post.layer(d2 - 1)[x as int] == 0);
                } else {
                    assert(layer_bit(post.layer(k), b) == layer_bit(s.layer(k), b));
                    assert(post.layer(k - 1) == s.layer(k - 1));
                }
            } else if k == d2 + 1 {
                assert(layer_bit(post.layer(k), b) == layer_bit(s.layer(k), b));
                assert(b != w2);
                if b < post.layer(d2).len() {
                    assert(post.layer(d2)[b as int] == s.layer(d2)[b as int]);
                }
            } else {
                assert(layer_bit(post.layer(k), b) == layer_bit(s.layer(k), b));
                assert(post.layer(k - 1) == s.layer(k - 1));
            }
        }
        // Every remaining position clears the emptied word's whole reach.
        assert(summary_upto(post, d2));
        assert forall|p: nat|
            post.contains(p) implies p >= (q / pow64((d2 + 1) as nat)) * pow64((d2 + 1) as nat)
            + pow64((d2 + 1) as nat) by {
            lemma_contains_cap(post, p);
            assert(p >= x * pow64(d2 as nat) + pow64(d2 as nat));
            assert(w2 * pow64((d2 + 1) as nat) <= x * pow64(d2 as nat)) by {
                vstd::arithmetic::div_mod::lemma_fundamental_div_mod(x as int, 64);
                assert(x >= 64 * w2);
                assert(x * pow64(d2 as nat) >= (64 * (w2 as int)) * pow64(d2 as nat)) by {
                    lemma_mul_inequality(64 * (w2 as int), x as int, pow64(d2 as nat) as int);
                }
                assert((64 * (w2 as int)) * pow64(d2 as nat) == w2 * pow64((d2 + 1) as nat)) by {
                    assert(pow64((d2 + 1) as nat) == 64 * pow64(d2 as nat));
                    vstd::arithmetic::mul::lemma_mul_is_associative(64, w2 as int, pow64(d2 as nat) as int);
                    vstd::arithmetic::mul::lemma_mul_is_commutative(64, w2 as int);
                    vstd::arithmetic::mul::lemma_mul_is_associative(w2 as int, 64, pow64(d2 as nat) as int);
                }
            }
            lemma_subtree_empty(post, d2, w2 as int);
            assert(p >= (w2 + 1) * pow64((d2 + 1) as nat));
            assert((w2 + 1) * pow64((d2 + 1) as nat) == w2 * pow64((d2 + 1) as nat) + pow64(
                (d2 + 1) as nat,
            )) by {
                lemma_mul_is_distributive_add_other_way(pow64((d2 + 1) as nat) as int, w2 as int, 1);
            }
        }
        crate::bit_set::lemma_position_word(s, d2, q);
        assert(q / pow64((d2 + 1) as nat) == w2) by {
            assert((d2 + 1) as nat == d2 as nat + 1);
        }
        assert(repair_inv(post, pre, q, d2 + 1));
    } else {
        // The word keeps other set bits: all summary pairs are whole again.
        assert forall|k: int, b: nat|
            1 <= k < post.num_layers() && b < 64 * post.layer(k).len() implies ((
        #[trigger] layer_bit(post.layer(k), b)) <==> (b < post.layer(k - 1).len() && post.layer(
            k - 1,
        )[b as int] != 0)) by {
            if k == d2 {
                if b == x {
                    assert(!layer_bit(post.layer(d2), x));
                    assert(post.layer(d2 - 1)[x as int] == 0);
                } else {
                    assert(layer_bit(post.layer(k), b) == layer_bit(s.layer(k), b));
                    assert(post.layer(k - 1) == s.layer(k - 1));
                }
            } else if k == d2 + 1 {
                assert(layer_bit(post.layer(k), b) == layer_bit(s.layer(k), b));
                if b < post.layer(d2).len() {
                    if b == w2 {
                        if s.layer(d2)[w2 as int] == 0 {
                            lemma_clear_bit_of_zero(x % 64);
                            assert(false);
                        }
                        assert(s.layer(d2)[w2 as int] != 0);
                    } else {
                        assert(post.layer(d2)[b as int] == s.layer(d2)[b as int]);
                    }
                }
            } else {
                assert(layer_bit(post.layer(k), b) == layer_bit(s.layer(k), b));
                assert(post.layer(k - 1) == s.layer(k - 1));
            }
        }
    }
}


/// Clearing a bit of the zero word leaves the zero word.
proof fn lemma_clear_bit_of_zero(j: nat)
    requires
        j < 64,
    ensures
        crate::bits::without_bit(0u64, j) == 0u64,
{
    crate::bits::lemma_without_bit(0u64, j);
    lemma_word_zero(0u64);
    assert forall|i: nat| i < 64 implies !wbit(crate::bits::without_bit(0u64, j), i) by {
        if i != j {
            assert(wbit(crate::bits::without_bit(0u64, j), i) == wbit(0u64, i));
        }
    }
    lemma_word_zero(crate::bits::without_bit(0u64, j));
}


/// Membership is decided by layer 0 alone: after clearing position `q`
/// there, exactly `q` has left the set, whatever happened to the summary
/// layers.
proof fn lemma_clear_contains(pre: BitSet, cur: BitSet, q: nat)
    requires
        pre.wf(),
        q < pre.cap,
        cur.num_layers() == pre.num_layers(),
        cur.layer(0).len() == pre.layer(0).len(),
        cur.layer(0) == crate::bit_set::clear_in_layer(pre.layer(0), q),
    ensures
        forall|p: nat| cur.contains(p) == (p != q && pre.contains(p)),
{
    crate::bit_set::lemma_cap_cover(pre);
    assert forall|p: nat| cur.contains(p) == (p != q && pre.contains(p)) by {
        if p < 64 * pre.layer(0).len() {
            crate::bit_set::lemma_set_clear_test(pre.layer(0), q, p);
        }
    }
}

/// Compute 64 to the `k`th power as a machine word.
fn pow64_exec(k: usize) -> (r: usize)
    requires
        pow64(k as nat) <= usize::MAX as nat,
    ensures
        r as nat == pow64(k as nat),
        r >= 1,
{
    proof {
        lemma_pow64_pos(k as nat);
    }
    let mut r: usize = 1;
    let mut i: usize = 0;
    while i < k
        invariant
            i <= k,
            r as nat == pow64(i as nat),
            pow64(k as nat) <= usize::MAX as nat,
        decreases k - i,
    {
        proof {
            lemma_pow64_mono(i as nat + 1, k as nat);
            lemma_pow64_pos(i as nat);
        }
        r = r * 64;
        i = i + 1;
    }
    r
}

impl Drain {
    /// How far the cursor still is from standing on a known non-zero word:
    /// a termination measure for the walk.
    pub open spec fn walk_rank(self, s: BitSet) -> int {
        if self.depth as int >= s.num_layers() {
            0
        } else if self.cursor_word(s) != 0 {
            0
        } else {
            1
        }
    }

    /// Advance the cursor: yield the smallest remaining set position and
    /// clear it, or report the set exhausted.
    ///
    /// `None` is returned exactly when no position is set, and then the
    /// set is untouched (its layers all zero).  Otherwise the result is
    /// the smallest set position `q`; `q` is cleared from layer 0, and the
    /// summary bit of every word the clearing emptied is cleared on the
    /// way up, so the summary invariant holds again when the call returns.
    #[verifier::loop_isolation(false)]
    #[verifier::rlimit(60)]
    pub fn next(&mut self, set: &mut BitSet) -> (r: Option<usize>)
        requires
            old(self).inv(*old(set)),
        ensures
            final(self).inv(*final(set)),
            final(set).cap == old(set).cap,
            final(set).num_layers() == old(set).num_layers(),
            forall|k: int|
                0 <= k < final(set).num_layers() ==> (#[trigger] final(set).layer(k)).len() == old(
                    set,
                ).layer(k).len(),
            match r {
                Option::None => {
                    &&& *final(set) == *old(set)
                    &&& forall|p: nat| !old(set).contains(p)
                },
                Option::Some(q) => {
                    &&& old(set).contains(q as nat)
                    &&& forall|p: nat| old(set).contains(p) ==> p >= q as nat
                    &&& final(set).layer(0) == crate::bit_set::clear_in_layer(
                        old(set).layer(0),
                        q as nat,
                    )
                    &&& forall|p: nat|
                        final(set).contains(p) == (p != q as nat && old(set).contains(p))
                },
            },
    {
        while self.depth < set.layers.len()
            invariant
                self.inv(*set),
                *set == *old(set),
            decreases self.walk_rank(*set), self.depth,
        {
            self.op_count = if self.op_count < usize::MAX {
                self.op_count + 1
            } else {
                self.op_count
            };
            let d = self.depth;
            proof {
                assert(set.cap > 0);
                lemma_pow64_le_cap(set.cap as nat);
                lemma_pow64_mono(d as nat, (set.layers.len() - 1) as nat);
            }
            let unit = pow64_exec(d);
            let vpos = self.index / unit;
            let woff = vpos / 64;
            proof {
                crate::bit_set::lemma_position_word(*set, d as int, self.index as nat);
                lemma_div_denominator(self.index as int, pow64(d as nat) as int, 64);
                assert(64 * pow64(d as nat) == pow64(d as nat + 1));
                assert(woff as nat == self.index as nat / pow64(d as nat + 1));
                assert(woff < set.layer(d as int).len());
            }
            let w = set.layers[d].word(woff);
            if w == 0 {
                proof {
                    assert(w == self.cursor_word(*set));
                    assert(d as int == set.num_layers() - 1 && self.index == 0);
                    lemma_top_len(*set);
                    assert(woff == 0);
                    lemma_summary_upto(*set, set.num_layers() - 1);
                    lemma_empty_structure(*set);
                }
                self.depth = d + 1;
                continue;
            }
            let trail = w.trailing_zeros() as usize;
            proof {
                lemma_trailing_zeros(w);
                assert(wbit(set.layer(d as int)[woff as int], trail as nat));
            }
            if d > 0 {
                proof {
                    lemma_summary_upto(*set, d as int);
                    assert(self.index as nat >= (woff as int) * pow64(d as nat + 1)) by {
                        lemma_fundamental_div_mod(self.index as int, pow64(d as nat + 1) as int);
                    }
                    lemma_land(*set, d as int, woff as int, trail as nat);
                    assert((64 * (woff as int) + trail) * pow64(d as nat) >= 64 * (woff as int)
                        + trail) by {
                        lemma_pow64_pos(d as nat);
                        lemma_mul_inequality(1, pow64(d as nat) as int, 64 * (woff as int) + trail);
                        vstd::arithmetic::mul::lemma_mul_is_commutative(
                            64 * (woff as int) + trail,
                            pow64(d as nat) as int,
                        );
                    }
                }
                let vb = woff * 64 + trail;
                let ni = vb * unit;
                proof {
                    let u1 = pow64((d - 1) as nat) as int;
                    assert(pow64(d as nat) == 64 * u1);
                    assert(ni as int == (vb as int * 64) * u1) by {
                        vstd::arithmetic::mul::lemma_mul_is_associative(vb as int, 64, u1);
                    }
                    assert((ni as nat) % pow64((d - 1) as nat) == 0) by {
                        vstd::arithmetic::div_mod::lemma_mod_multiples_basic(vb as int * 64, u1);
                    }
                    assert((ni as nat) % 64 == 0) by {
                        assert(ni as int == (vb as int * u1) * 64) by {
                            vstd::arithmetic::mul::lemma_mul_is_associative(vb as int, u1, 64);
                            vstd::arithmetic::mul::lemma_mul_is_commutative(64, u1);
                        }
                        vstd::arithmetic::div_mod::lemma_mod_multiples_basic(vb as int * u1, 64);
                    }
                }
                self.index = ni;
                self.depth = d - 1;
                continue;
            }
            // Layer 0: the lowest set bit of this word is the smallest
            // remaining position.
            proof {
                assert(unit == 1);
                vstd::arithmetic::div_mod::lemma_div_basics(self.index as int);
                assert(vpos == self.index);
                assert(self.index as nat == 64 * (woff as nat)) by {
                    lemma_fundamental_div_mod(self.index as int, 64);
                }
                assert(self.index as nat >= (woff as int) * pow64(0nat + 1)) by {
                    vstd::arithmetic::mul::lemma_mul_is_commutative(woff as int, 64);
                }
                lemma_summary_upto(*set, 0);
                lemma_land(*set, 0, woff as int, trail as nat);
                assert(64 * (woff as int) + trail == self.index + trail);
                assert((64 * (woff as int) + trail) * pow64(0nat) == 64 * (woff as int) + trail)
                    by {
                    vstd::arithmetic::mul::lemma_mul_basics(64 * (woff as int) + trail);
                }
                assert(set.contains((self.index + trail) as nat));
                assert(forall|p: nat| set.contains(p) ==> p >= self.index + trail);
            }
            let q = self.index + trail;
            let ghost pre_set = *set;
            let nw = w & !(1u64 << (trail as u64));
            proof {
                lemma_fundamental_div_mod_converse(q as int, 64, woff as int, trail as int);
                assert(q as nat / 64 == woff as nat && q as nat % 64 == trail as nat);
            }
            set.layers[0].set_word(woff, nw);
            proof {
                assert forall|k: int|
                    0 <= k < set.num_layers() && k != 0 implies #[trigger] set.layer(k)
                    == pre_set.layer(k) by {
                    assert(set.layers@[k] == pre_set.layers@[k]);
                }
                assert(set.layer(0) == crate::bit_set::clear_in_layer(pre_set.layer(0), q as nat));
                lemma_after_clear(pre_set, *set, q as nat);
            }
            if nw != 0 {
                proof {
                    assert(set.layer(0)[(q as nat / 64) as int] == nw);
                    assert(set.summary_ok());
                    assert(self.cursor_word(*set) == nw);
                }
                return Some(q);
            }
            // The word is empty now: clear stale summary bits upward until
            // a layer with other set bits (or the top) is reached.
            let mut depth2: usize = 1;
            while depth2 < set.layers.len()
                invariant
                    repair_inv(*set, pre_set, q as nat, depth2 as int),
                    1 <= depth2,
                    pre_set == *old(set),
                    q < pre_set.cap,
                decreases set.layers.len() - depth2,
            {
                self.op_count = if self.op_count < usize::MAX {
                    self.op_count + 1
                } else {
                    self.op_count
                };
                proof {
                    assert(set.cap > 0);
                    lemma_pow64_le_cap(set.cap as nat);
                    lemma_pow64_mono(depth2 as nat, (set.layers.len() - 1) as nat);
                }
                let unit2 = pow64_exec(depth2);
                let v2 = q / unit2;
                let w2off = v2 / 64;
                proof {
                    crate::bit_set::lemma_position_word(*set, depth2 as int, q as nat);
                    lemma_div_denominator(q as int, pow64(depth2 as nat) as int, 64);
                    assert(64 * pow64(depth2 as nat) == pow64(depth2 as nat + 1));
                    assert(w2off as nat == q as nat / pow64(depth2 as nat + 1));
                    assert(w2off < set.layer(depth2 as int).len());
                }
                let off2 = v2 % 64;
                let w2 = set.layers[depth2].word(w2off);
                let nw2 = w2 & !(1u64 << (off2 as u64));
                let ghost before = *set;
                set.layers[depth2].set_word(w2off, nw2);
                proof {
                    assert forall|k: int|
                        0 <= k < set.num_layers() && k != depth2 implies #[trigger] set.layer(k)
                        == before.layer(k) by {
                        assert(set.layers@[k] == before.layers@[k]);
                    }
                    assert(set.layer(depth2 as int) == crate::bit_set::clear_in_layer(
                        before.layer(depth2 as int),
                        q as nat / pow64(depth2 as nat),
                    ));
                    lemma_repair_step(before, *set, pre_set, q as nat, depth2 as int);
                }
                if nw2 == 0 {
                    depth2 = depth2 + 1;
                    continue;
                }
                // Other bits remain here: stand on the lowest one.
                let t2 = nw2.trailing_zeros() as usize;
                proof {
                    assert(set.layer(depth2 as int)[w2off as int] == nw2);
                    assert(set.summary_ok());
                    lemma_trailing_zeros(nw2);
                    lemma_summary_upto(*set, depth2 as int);
                    let x = q as nat / pow64(depth2 as nat);
                    let u = pow64(depth2 as nat) as int;
                    assert forall|p: nat|
                        set.contains(p) implies p >= (w2off as int) * pow64(depth2 as nat + 1) by {
                        assert(p >= x * u + u);
                        assert(x >= 64 * (w2off as int)) by {
                            lemma_fundamental_div_mod(x as int, 64);
                        }
                        assert(x * u >= (64 * (w2off as int)) * u) by {
                            lemma_mul_inequality(64 * (w2off as int), x as int, u);
                        }
                        assert((64 * (w2off as int)) * u == (w2off as int) * (64 * u)) by {
                            vstd::arithmetic::mul::lemma_mul_is_associative(64, w2off as int, u);
                            vstd::arithmetic::mul::lemma_mul_is_commutative(64, w2off as int);
                            vstd::arithmetic::mul::lemma_mul_is_associative(w2off as int, 64, u);
                        }
                    }
                    lemma_land(*set, depth2 as int, w2off as int, t2 as nat);
                    assert((64 * (w2off as int) + t2) * pow64(depth2 as nat) >= 64 * (w2off as int)
                        + t2) by {
                        lemma_pow64_pos(depth2 as nat);
                        lemma_mul_inequality(
                            1,
                            pow64(depth2 as nat) as int,
                            64 * (w2off as int) + t2,
                        );
                        vstd::arithmetic::mul::lemma_mul_is_commutative(
                            64 * (w2off as int) + t2,
                            pow64(depth2 as nat) as int,
                        );
                    }
                    assert(pre_set.wf());
                    lemma_clear_contains(pre_set, *set, q as nat);
                    assert(pre_set.contains(q as nat));
                    assert(forall|p: nat| pre_set.contains(p) ==> p >= q as nat);
                    assert(set.layer(0) == crate::bit_set::clear_in_layer(
                        pre_set.layer(0),
                        q as nat,
                    ));
                }
                let vb2 = w2off * 64 + t2;
                let ni2 = vb2 * unit2;
                self.depth = depth2;
                self.index = ni2;
                return Some(q);
            }
            // The clearing emptied every layer up to the top: the set is
            // now completely empty.
            proof {
                assert(depth2 as int == set.num_layers());
                assert(set.summary_ok());
                lemma_top_len(*set);
                crate::bit_set::lemma_position_word(*set, depth2 as int - 1, q as nat);
                lemma_div_denominator(q as int, pow64((depth2 - 1) as nat) as int, 64);
                assert(64 * pow64((depth2 - 1) as nat) == pow64(depth2 as nat));
                assert(q as nat / pow64(depth2 as nat) == 0);
                assert(set.layer(set.num_layers() - 1)[0] == 0);
                lemma_summary_upto(*set, set.num_layers() - 1);
                lemma_empty_structure(*set);
                lemma_clear_contains(pre_set, *set, q as nat);
            }
            self.depth = set.layers.len();
            return Some(q);
        }
        proof {
            assert forall|p: nat| !set.contains(p) by {
                if set.contains(p) {
                    crate::bit_set::lemma_position_word(*set, 0, p);
                    lemma_contains_cap(*set, p);
                    lemma_pow64_pos(0);
                    vstd::arithmetic::div_mod::lemma_div_basics(p as int);
                    assert(set.layer(0)[((p / pow64(0nat)) / 64) as int] == 0);
                    lemma_word_zero(0u64);
                }
            }
        }
        None
    }
}


/// Total number of set bits in a layer.
pub open spec fn layer_count(s: Seq<u64>) -> nat
    decreases s.len(),
{
    if s.len() == 0 {
        0
    } else {
        crate::bits::word_count(s[0]) + layer_count(s.subrange(1, s.len() as int))
    }
}

/// Replacing one word changes the layer's set-bit count by the words'
/// difference.
proof fn lemma_layer_count_update(s: Seq<u64>, i: int, w: u64)
    requires
        0 <= i < s.len(),
    ensures
        layer_count(s.update(i, w)) + crate::bits::word_count(s[i]) == layer_count(s)
            + crate::bits::word_count(w),
    decreases s.len(),
{
    let t = s.update(i, w);
    if i == 0 {
        assert(t.subrange(1, s.len() as int) =~= s.subrange(1, s.len() as int));
    } else {
        assert(t[0] == s[0]);
        assert(t.subrange(1, s.len() as int) =~= s.subrange(1, s.len() as int).update(i - 1, w));
        lemma_layer_count_update(s.subrange(1, s.len() as int), i - 1, w);
    }
}

/// Clearing a set bit lowers the layer's set-bit count by exactly one.
proof fn lemma_clear_count(s: Seq<u64>, q: nat)
    requires
        q / 64 < s.len(),
        layer_bit(s, q),
    ensures
        layer_count(crate::bit_set::clear_in_layer(s, q)) + 1 == layer_count(s),
{
    crate::bits::lemma_without_bit_count(s[(q / 64) as int], q % 64);
    lemma_layer_count_update(
        s,
        (q / 64) as int,
        crate::bits::without_bit(s[(q / 64) as int], q % 64),
    );
}

/// The set-bit count of layer 0, the measure a drain runs down.
pub open spec fn count0(s: BitSet) -> nat {
    if s.num_layers() == 0 {
        0
    } else {
        layer_count(s.layer(0))
    }
}

/// A hierarchy with intact summaries and no set position is all zero.
proof fn lemma_all_clear(s: BitSet)
    requires
        s.wf(),
        s.summary_ok(),
        forall|p: nat| !s.contains(p),
    ensures
        forall|k: int| 0 <= k < s.num_layers() ==> all_zero(#[trigger] s.layer(k)),
{
    assert forall|k: int| 0 <= k < s.num_layers() implies all_zero(#[trigger] s.layer(k)) by {
        assert forall|i: int| 0 <= i < s.layer(k).len() implies s.layer(k)[i] == 0 by {
            if s.layer(k)[i] != 0 {
                if k == 0 {
                    lemma_word_zero(s.layer(0)[i]);
                    let j = choose|j: nat| j < 64 && wbit(s.layer(0)[i], j);
                    let q = 64 * (i as nat) + j;
                    lemma_fundamental_div_mod_converse(q as int, 64, i, j as int);
                    assert(layer_bit(s.layer(0), q));
                    assert(q < 64 * s.layer(0).len()) by {
                        lemma_mul_strict_inequality(i, s.layer(0).len() as int, 64);
                    }
                    assert(s.contains(q));
                } else {
                    lemma_summary_upto(s, k);
                    lemma_subtree_nonempty(s, k, i);
                }
            }
        }
    }
}

impl BitSet {
    /// Drain the whole set: produce every set position in strictly
    /// ascending order, clearing each one.
    ///
    /// The result holds exactly the positions that were set, in ascending
    /// order; afterwards nothing is set and every word of every layer is
    /// zero.
    #[verifier::loop_isolation(false)]
    pub fn drain_all(&mut self) -> (r: Vec<usize>)
        requires
            old(self).wf(),
            old(self).summary_ok(),
        ensures
            final(self).wf(),
            final(self).summary_ok(),
            final(self).cap == old(self).cap,
            final(self).num_layers() == old(self).num_layers(),
            forall|i: int, j: int| 0 <= i < j < r@.len() ==> r@[i] < r@[j],
            forall|i: int| 0 <= i < r@.len() ==> old(self).contains(r@[i] as nat),
            forall|p: nat|
                old(self).contains(p) ==> exists|i: int|
                    0 <= i < r@.len() && #[trigger] r@[i] as nat == p,
            forall|p: nat| !final(self).contains(p),
            forall|k: int| 0 <= k < final(self).num_layers() ==> all_zero(#[trigger] final(self).layer(k)),
    {
        let mut cursor = self.drain();
        let mut out: Vec<usize> = Vec::new();
        loop
            invariant
                cursor.inv(*self),
                self.cap == old(self).cap,
                self.num_layers() == old(self).num_layers(),
                forall|i: int, j: int| 0 <= i < j < out@.len() ==> out@[i] < out@[j],
                forall|i: int| 0 <= i < out@.len() ==> old(self).contains(out@[i] as nat),
                forall|p: nat| self.contains(p) ==> old(self).contains(p),
                forall|p: nat|
                    old(self).contains(p) ==> self.contains(p) || exists|i: int|
                        0 <= i < out@.len() && #[trigger] out@[i] as nat == p,
                forall|p: nat, i: int|
                    #[trigger] self.contains(p) && 0 <= i < out@.len() ==> #[trigger] out@[i]
                        < p,
            decreases count0(*self),
        {
            let ghost prev = *self;
            let ghost prev_out = out@;
            let step = cursor.next(self);
            match step {
                Option::None => {
                    proof {
                        lemma_all_clear(*self);
                    }
                    return out;
                },
                Option::Some(q) => {
                    proof {
                        lemma_contains_cap(prev, q as nat);
                        crate::bit_set::lemma_position_word(prev, 0, q as nat);
                        lemma_pow64_pos(0);
                        vstd::arithmetic::div_mod::lemma_div_basics(q as int);
                        lemma_clear_count(prev.layer(0), q as nat);
                    }
                    out.push(q);
                    proof {
                        assert forall|p: nat|
                            old(self).contains(p) implies self.contains(p) || exists|i: int|
                            0 <= i < out@.len() && #[trigger] out@[i] as nat == p by {
                            if !self.contains(p) {
                                if p == q as nat {
                                    assert(out@[out@.len() - 1] as nat == p);
                                } else {
                                    assert(!prev.contains(p) || p == q as nat || self.contains(p));
                                    let i = choose|i: int|
                                        0 <= i < prev_out.len() && #[trigger] prev_out[i] as nat
                                            == p;
                                    assert(out@[i] as nat == p);
                                }
                            }
                        }
                    }
                },
            }
        }
    }
}

} // verus!
