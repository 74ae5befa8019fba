//! The hierarchical bit set.
//!
//! A [`BitSet`] maps a flat position space onto layered word storage:
//! layer 0 holds one membership bit per position, and every coarser layer
//! holds one summary bit per word of the layer below.  [`AtomicBitSet`] is
//! the mark-only view of the same hierarchy: it exposes nothing but `set`,
//! and converts to and from the local view in constant time.

use vstd::prelude::*;
use vstd::arithmetic::div_mod::lemma_fundamental_div_mod;
use vstd::arithmetic::div_mod::lemma_div_denominator;
use vstd::arithmetic::div_mod::lemma_div_is_ordered;
use crate::bits::wbit;
use crate::bits::with_bit;
use crate::bits::without_bit;
use crate::bits::lemma_with_bit;
use crate::bits::lemma_without_bit;
use crate::bits::lemma_word_zero;
use crate::layer::Layer;
use crate::layout::layouts;
use crate::layout::pow64;
use crate::layout::lemma_pow64_pos;
use crate::layout::lemma_layout_from_shape;
use crate::layout::lemma_round_bits_ceil;
use crate::layout::lemma_div64_bound;
use crate::layout::lemma_layout_from_mono;
use crate::layout::ceil_div64;
use crate::layout::spec_round_capacity_up;
use crate::layout::lemma_round_capacity_up_properties;
use crate::layout::lemma_next_pow2;
use crate::layout::round_capacity_up;
use crate::layout::bit_set_layout;

verus! {

/// True when bit `b` of a layer (word `b / 64`, offset `b % 64`) is set.
pub open spec fn layer_bit(s: Seq<u64>, b: nat) -> bool {
    wbit(s[(b / 64) as int], b % 64)
}

/// The layer `s` with bit `b` set.
pub open spec fn set_in_layer(s: Seq<u64>, b: nat) -> Seq<u64> {
    s.update((b / 64) as int, with_bit(s[(b / 64) as int], b % 64))
}

/// The layer `s` with bit `b` cleared.
pub open spec fn clear_in_layer(s: Seq<u64>, b: nat) -> Seq<u64> {
    s.update((b / 64) as int, without_bit(s[(b / 64) as int], b % 64))
}

/// True when every word of the layer is zero.
pub open spec fn all_zero(s: Seq<u64>) -> bool {
    forall|i: int| 0 <= i < s.len() ==> s[i] == 0
}

/// Setting a bit sets exactly that bit; clearing clears exactly that bit.
///
/// This is the single-layer heart of set/clear/test consistency: after
/// setting position `p`, testing `p` finds it set; after clearing `p`,
/// testing `p` finds it clear; no other position changes either way.
pub proof fn lemma_set_clear_test(s: Seq<u64>, p: nat, q: nat)
    requires
        p < 64 * s.len(),
        q < 64 * s.len(),
    ensures
        layer_bit(set_in_layer(s, p), q) == (q == p || layer_bit(s, q)),
        layer_bit(clear_in_layer(s, p), q) == (q != p && layer_bit(s, q)),
        set_in_layer(s, p).len() == s.len(),
        clear_in_layer(s, p).len() == s.len(),
{
    lemma_div64_bound(p, s.len() as nat);
    lemma_div64_bound(q, s.len() as nat);
    lemma_fundamental_div_mod(p as int, 64);
    lemma_fundamental_div_mod(q as int, 64);
    lemma_with_bit(s[(p / 64) as int], p % 64);
    lemma_without_bit(s[(p / 64) as int], p % 64);
    if q / 64 == p / 64 {
        assert(q == p <==> q % 64 == p % 64);
    }
}

/// A sparse, layered bit set with exclusive (plain-word) mutation.
///
/// The set is created empty with capacity 0 and grows by explicit
/// [`reserve`] calls; positions in `[0, capacity)` can be set, cleared,
/// tested and drained.
///
/// [`reserve`]: BitSet::reserve
pub struct BitSet {
    /// Layers of bits, finest first.
    pub layers: Vec<Layer>,
    /// The capacity of the bit set in number of bits it can store.
    pub cap: usize,
}

impl BitSet {
    /// The words of layer `k`.
    pub open spec fn layer(self, k: int) -> Seq<u64> {
        self.layers@[k]@
    }

    /// The number of layers.
    pub open spec fn num_layers(self) -> int {
        self.layers@.len() as int
    }

    /// Structural well-formedness: the capacity is 0 or a power of two of
    /// at least 16 within the machine limit, the layer count and the layer
    /// sizes match the layout for the capacity, and no layer-0 bit at or
    /// above the capacity is set.
    pub open spec fn wf(self) -> bool {
        &&& self.cap as nat == spec_round_capacity_up(self.cap as nat)
        &&& self.cap as nat <= (usize::MAX as nat + 1) / 2
        &&& self.layers@.len() == layouts(self.cap as nat).len()
        &&& forall|k: int|
            0 <= k < self.num_layers() ==> (#[trigger] self.layer(k)).len() == layouts(
                self.cap as nat,
            )[k]
        &&& forall|b: nat|
            self.cap as nat <= b < 64 * self.layer(0).len() && self.num_layers() > 0
                ==> !(#[trigger] layer_bit(self.layer(0), b))
    }

    /// Position `p` is a member of the set: its layer-0 bit is set.
    pub open spec fn contains(self, p: nat) -> bool {
        self.num_layers() > 0 && p < 64 * self.layer(0).len() && layer_bit(self.layer(0), p)
    }

    /// The summary invariant: every bit of a coarser layer says exactly
    /// whether the corresponding word of the layer below is non-zero, and
    /// summary bits beyond the words of the layer below are zero.
    ///
    /// Set and reserve preserve this; an unchecked clear of one of two
    /// positions sharing a summary bit does not (see [`clear`]).
    ///
    /// [`clear`]: BitSet::clear
    pub open spec fn summary_ok(self) -> bool {
        forall|k: int, b: nat|
            1 <= k < self.num_layers() && b < 64 * self.layer(k).len() ==> ((#[trigger] layer_bit(
                self.layer(k),
                b,
            )) <==> (b < self.layer(k - 1).len() && self.layer(k - 1)[b as int] != 0))
    }

    /// Construct a new, empty bit set with capacity 0.
    pub fn new() -> (r: BitSet)
        ensures
            r.wf(),
            r.summary_ok(),
            r.cap == 0,
            r.num_layers() == 0,
            forall|q: nat| !r.contains(q),
    {
        BitSet { layers: Vec::new(), cap: 0 }
    }

    /// Get the current capacity of the bit set.
    pub fn capacity(&self) -> (r: usize)
        ensures
            r == self.cap,
    {
        self.cap
    }

    /// Set the given bit.
    ///
    /// At every layer the corresponding bit is set: bit `position` at
    /// layer 0, and at each coarser layer `k` the summary bit
    /// `position / 64^k` for the word updated below it.
    pub fn set(&mut self, position: usize)
        requires
            old(self).wf(),
            position < old(self).cap,
        ensures
            final(self).wf(),
            final(self).cap == old(self).cap,
            final(self).num_layers() == old(self).num_layers(),
            forall|k: int|
                0 <= k < final(self).num_layers() ==> #[trigger] final(self).layer(k)
                    == set_in_layer(old(self).layer(k), position as nat / pow64(k as nat)),
            final(self).contains(position as nat),
            forall|q: nat|
                q < old(self).cap && q != position ==> final(self).contains(q) == old(
                    self,
                ).contains(q),
            old(self).summary_ok() ==> final(self).summary_ok(),
    {
        proof {
            lemma_cap_cover(*self);
            lemma_pow64_pos(0);
            assert(pow64(0nat) == 1);
            vstd::arithmetic::div_mod::lemma_div_basics(position as int);
        }
        let ghost pre = *self;
        let mut pos = position;
        let mut k: usize = 0;
        while k < self.layers.len()
            invariant
                pre.wf(),
                position < pre.cap,
                self.cap == pre.cap,
                self.num_layers() == pre.num_layers(),
                k <= self.num_layers(),
                pos as nat == position as nat / pow64(k as nat),
                k < self.num_layers() ==> (pos as nat) < 64 * layouts(pre.cap as nat)[k as int],
                forall|j: int|
                    0 <= j < k ==> #[trigger] self.layer(j) == set_in_layer(
                        pre.layer(j),
                        position as nat / pow64(j as nat),
                    ),
                forall|j: int| k <= j < self.num_layers() ==> #[trigger] self.layer(j) == pre.layer(j),
            decreases self.num_layers() - k,
        {
            let slot = pos / 64;
            let offset = pos % 64;
            proof {
                lemma_div64_bound(pos as nat, layouts(pre.cap as nat)[k as int]);
                assert(self.layer(k as int).len() == layouts(pre.cap as nat)[k as int]);
            }
            let ghost prev_state = *self;
            self.layers[k].set(slot, offset);
            proof {
                assert(self.layer(k as int) == set_in_layer(
                    pre.layer(k as int),
                    position as nat / pow64(k as nat),
                ));
                assert forall|j: int|
                    0 <= j < self.num_layers() && j != k implies #[trigger] self.layer(j)
                    == prev_state.layer(j) by {
                    assert(self.layers@[j] == prev_state.layers@[j]);
                }
                lemma_step_down(position as nat, k as nat);
                if k + 1 < self.layers.len() {
                    lemma_layout_step(pre.cap as nat, k as int);
                }
                lemma_div64_bound(pos as nat, layouts(pre.cap as nat)[k as int]);
            }
            pos = slot;
            k = k + 1;
        }
        proof {
            lemma_set_effect(pre, *self, position as nat);
        }
    }

    /// Clear the given bit.
    ///
    /// At every layer the corresponding bit is cleared, without checking
    /// whether sibling bits below a shared summary bit are still set: when
    /// two set positions share a summary bit and only one of them is
    /// cleared, the summary bit is cleared anyway, and a later drain can
    /// skip the position that is still set.  Callers that intend to drain
    /// afterwards must only clear positions that collide with no other set
    /// position at any layer.
    pub fn clear(&mut self, position: usize)
        requires
            old(self).wf(),
            position < old(self).cap,
        ensures
            final(self).wf(),
            final(self).cap == old(self).cap,
            final(self).num_layers() == old(self).num_layers(),
            forall|k: int|
                0 <= k < final(self).num_layers() ==> #[trigger] final(self).layer(k)
                    == clear_in_layer(old(self).layer(k), position as nat / pow64(k as nat)),
            !final(self).contains(position as nat),
            forall|q: nat|
                q < old(self).cap && q != position ==> final(self).contains(q) == old(
                    self,
                ).contains(q),
    {
        proof {
            lemma_cap_cover(*self);
            lemma_pow64_pos(0);
            assert(pow64(0nat) == 1);
            vstd::arithmetic::div_mod::lemma_div_basics(position as int);
        }
        let ghost pre = *self;
        let mut pos = position;
        let mut k: usize = 0;
        while k < self.layers.len()
            invariant
                pre.wf(),
                position < pre.cap,
                self.cap == pre.cap,
                self.num_layers() == pre.num_layers(),
                k <= self.num_layers(),
                pos as nat == position as nat / pow64(k as nat),
                k < self.num_layers() ==> (pos as nat) < 64 * layouts(pre.cap as nat)[k as int],
                forall|j: int|
                    0 <= j < k ==> #[trigger] self.layer(j) == clear_in_layer(
                        pre.layer(j),
                        position as nat / pow64(j as nat),
                    ),
                forall|j: int| k <= j < self.num_layers() ==> #[trigger] self.layer(j) == pre.layer(j),
            decreases self.num_layers() - k,
        {
            let slot = pos / 64;
            let offset = pos % 64;
            proof {
                lemma_div64_bound(pos as nat, layouts(pre.cap as nat)[k as int]);
                assert(self.layer(k as int).len() == layouts(pre.cap as nat)[k as int]);
            }
            let ghost prev_state = *self;
            self.layers[k].clear(slot, offset);
            proof {
                assert(self.layer(k as int) == clear_in_layer(
                    pre.layer(k as int),
                    position as nat / pow64(k as nat),
                ));
                assert forall|j: int|
                    0 <= j < self.num_layers() && j != k implies #[trigger] self.layer(j)
                    == prev_state.layer(j) by {
                    assert(self.layers@[j] == prev_state.layers@[j]);
                }
                lemma_step_down(position as nat, k as nat);
                if k + 1 < self.layers.len() {
                    lemma_layout_step(pre.cap as nat, k as int);
                }
                lemma_div64_bound(pos as nat, layouts(pre.cap as nat)[k as int]);
            }
            pos = slot;
            k = k + 1;
        }
        proof {
            lemma_clear_effect(pre, *self, position as nat);
        }
    }


    /// Construct a new, empty bit set with at least the given capacity
    /// (rounded up to the next valid capacity).
    pub fn with_capacity(capacity: usize) -> (r: BitSet)
        requires
            capacity as nat <= (usize::MAX as nat + 1) / 4,
        ensures
            r.wf(),
            r.summary_ok(),
            r.cap as nat == spec_round_capacity_up(capacity as nat),
            forall|q: nat| !r.contains(q),
            forall|k: int| 0 <= k < r.num_layers() ==> all_zero(#[trigger] r.layer(k)),
    {
        let mut this = BitSet::new();
        this.reserve(capacity);
        this
    }

    /// Reserve enough space to store the given number of positions.
    ///
    /// A request at or below the current capacity changes nothing; a larger
    /// request grows the capacity to `round_capacity_up(cap)`, extending
    /// every existing layer in place and allocating the newly needed
    /// coarser layers zeroed.  Already-set bits are never cleared and
    /// newly gained positions start clear.
    ///
    /// Growing does not write summary bits into newly allocated coarser
    /// layers, so a reserve that adds layers over already-set content
    /// leaves the summary invariant to the caller (grow before setting, or
    /// grow an empty set); a reserve that keeps the layer count preserves
    /// it.
    pub fn reserve(&mut self, cap: usize)
        requires
            old(self).wf(),
            cap as nat <= (usize::MAX as nat + 1) / 4,
        ensures
            final(self).wf(),
            final(self).cap as nat == if cap <= old(self).cap {
                old(self).cap as nat
            } else {
                spec_round_capacity_up(cap as nat)
            },
            old(self).cap <= final(self).cap,
            cap <= final(self).cap,
            forall|q: nat| q < old(self).cap ==> final(self).contains(q) == old(self).contains(q),
            forall|q: nat| q >= old(self).cap ==> !final(self).contains(q),
            old(self).summary_ok() && final(self).num_layers() == old(self).num_layers()
                ==> final(self).summary_ok(),
            (forall|k: int| 0 <= k < old(self).num_layers() ==> all_zero(#[trigger] old(self).layer(k)))
                ==> final(self).summary_ok() && (forall|k: int|
                0 <= k < final(self).num_layers() ==> all_zero(#[trigger] final(self).layer(k))),
            cap <= old(self).cap ==> *final(self) == *old(self),
    {
        if self.cap >= cap {
            proof {
                if forall|k: int|
                    0 <= k < self.num_layers() ==> all_zero(#[trigger] self.layer(k)) {
                    lemma_all_zero_summary(*self);
                }
            }
            return;
        }
        proof {
            lemma_round_capacity_up_properties(cap as nat);
            lemma_next_pow2(cap as nat);
            assert(usize::MAX >= 0xffff_ffffusize);
        }
        let newcap = round_capacity_up(cap);
        let layout = bit_set_layout(newcap);
        let ghost pre = *self;
        proof {
            if pre.cap > 0 {
                lemma_div_is_ordered(pre.cap as int + 63, newcap as int + 63, 64);
                lemma_layout_from_mono(ceil_div64(pre.cap as nat), ceil_div64(newcap as nat));
            }
            assert(pre.num_layers() <= layouts(newcap as nat).len());
        }
        let mut k: usize = 0;
        while k < layout.len()
            invariant
                pre.wf(),
                pre.cap < cap,
                self.cap == pre.cap,
                newcap as nat == spec_round_capacity_up(cap as nat),
                pre.cap < newcap,
                layout@.len() == layouts(newcap as nat).len(),
                forall|j: int| 0 <= j < layout@.len() ==> layout@[j].cap as nat == layouts(newcap as nat)[j],
                pre.num_layers() <= layout@.len(),
                forall|j: int|
                    0 <= j < pre.num_layers() ==> layouts(pre.cap as nat)[j] <= layouts(newcap as nat)[j],
                k <= layout@.len(),
                self.num_layers() == if k <= pre.num_layers() {
                    pre.num_layers()
                } else {
                    k as int
                },
                forall|j: int|
                    0 <= j < k && j < self.num_layers() ==> (#[trigger] self.layer(j)).len()
                        == layouts(newcap as nat)[j],
                forall|j: int, i: int|
                    0 <= j < k && j < pre.num_layers() && 0 <= i < pre.layer(j).len()
                        ==> #[trigger] self.layer(j)[i] == pre.layer(j)[i],
                forall|j: int, i: int|
                    0 <= j < k && j < pre.num_layers() && pre.layer(j).len() <= i
                        < self.layer(j).len() ==> #[trigger] self.layer(j)[i] == 0,
                forall|j: int, i: int|
                    pre.num_layers() <= j < k && 0 <= i < self.layer(j).len()
                        ==> #[trigger] self.layer(j)[i] == 0,
                forall|j: int|
                    k <= j < pre.num_layers() ==> #[trigger] self.layer(j) == pre.layer(j),
            decreases layout@.len() - k,
        {
            let want = layout[k].cap;
            let ghost prev_state = *self;
            if k < self.layers.len() {
                proof {
                    assert(self.layer(k as int) == pre.layer(k as int));
                    assert(pre.layer(k as int).len() == layouts(pre.cap as nat)[k as int]);
                }
                self.layers[k].grow(want);
                proof {
                    assert forall|j: int|
                        0 <= j < self.num_layers() && j != k implies #[trigger] self.layer(j)
                        == prev_state.layer(j) by {
                        assert(self.layers@[j] == prev_state.layers@[j]);
                    }
                }
            } else {
                self.layers.push(Layer::with_capacity(want));
                proof {
                    assert forall|j: int|
                        0 <= j < self.num_layers() && j != k implies #[trigger] self.layer(j)
                        == prev_state.layer(j) by {
                        assert(self.layers@[j] == prev_state.layers@[j]);
                    }
                }
            }
            k = k + 1;
        }
        let ghost grown = *self;
        self.cap = newcap;
        proof {
            assert forall|j: int| 0 <= j < self.num_layers() implies #[trigger] self.layer(j)
                == grown.layer(j) by {
                assert(self.layers@[j] == grown.layers@[j]);
            }
            lemma_reserve_effect(pre, *self, cap as nat);
        }
    }

    /// Test if the given position is set.  Only layer 0 is consulted.
    pub fn test(&self, position: usize) -> (r: bool)
        requires
            self.wf(),
            position < self.cap,
        ensures
            r == self.contains(position as nat),
    {
        proof {
            lemma_cap_cover(*self);
            lemma_div64_bound(position as nat, layouts(self.cap as nat)[0]);
            lemma_pow64_pos(0);
        }
        let slot = position / 64;
        let offset = position % 64;
        self.layers[0].test(slot, offset)
    }

    /// Test if the bit set is empty: no position below the capacity is
    /// set.  Only layer 0 is consulted.
    pub fn is_empty(&self) -> (r: bool)
        requires
            self.wf(),
        ensures
            r <==> (forall|q: nat| q < self.cap ==> !self.contains(q)),
    {
        proof {
            lemma_cap_cover(*self);
        }
        if self.layers.len() == 0 {
            return true;
        }
        let mut i: usize = 0;
        let n = self.layers[0].len();
        while i < n
            invariant
                self.wf(),
                self.num_layers() > 0,
                n == self.layer(0).len(),
                i <= n,
                self.cap as nat <= 64 * self.layer(0).len(),
                forall|j: int| 0 <= j < i ==> self.layer(0)[j] == 0,
            decreases n - i,
        {
            let w = self.layers[0].word(i);
            if w != 0 {
                proof {
                    lemma_word_zero(w);
                    let j = choose|j: nat| j < 64 && wbit(w, j);
                    let q = 64 * (i as nat) + j;
                    lemma_fundamental_div_mod(q as int, 64);
                    assert(q / 64 == i as nat && q % 64 == j);
                    assert(layer_bit(self.layer(0), q));
                    assert(q < 64 * self.layer(0).len()) by {
                        vstd::arithmetic::mul::lemma_mul_strict_inequality(
                            i as int,
                            self.layer(0).len() as int,
                            64,
                        );
                    }
                    assert(q < self.cap) by {
                        if q >= self.cap as nat {
                            assert(!layer_bit(self.layer(0), q));
                        }
                    }
                    assert(self.contains(q));
                }
                return false;
            }
            i = i + 1;
        }
        proof {
            assert forall|q: nat| q < self.cap implies !self.contains(q) by {
                if self.contains(q) {
                    lemma_div64_bound(q, self.layer(0).len() as nat);
                    assert(self.layer(0)[(q / 64) as int] == 0);
                    lemma_word_zero(0u64);
                }
            }
        }
        true
    }

    /// A copy of the raw words of every layer, finest layer first.
    pub fn layers(&self) -> (r: Vec<Vec<u64>>)
        ensures
            r@.len() == self.num_layers(),
            forall|k: int| 0 <= k < r@.len() ==> #[trigger] r@[k]@ == self.layer(k),
    {
        let mut r: Vec<Vec<u64>> = Vec::new();
        let mut k: usize = 0;
        while k < self.layers.len()
            invariant
                k <= self.num_layers(),
                r@.len() == k,
                forall|j: int| 0 <= j < k ==> #[trigger] r@[j]@ == self.layer(j),
            decreases self.num_layers() - k,
        {
            r.push(self.layers[k].to_vec());
            k = k + 1;
        }
        r
    }
}


/// Assemble the per-layer growth facts of `reserve` into the membership,
/// well-formedness and summary conclusions.
proof fn lemma_reserve_effect(pre: BitSet, post: BitSet, cap: nat)
    requires
        pre.wf(),
        pre.cap < cap,
        cap <= (usize::MAX as nat + 1) / 4,
        post.cap as nat == spec_round_capacity_up(cap),
        post.num_layers() == layouts(post.cap as nat).len(),
        pre.num_layers() <= post.num_layers(),
        forall|j: int|
            0 <= j < post.num_layers() ==> (#[trigger] post.layer(j)).len() == layouts(
                post.cap as nat,
            )[j],
        forall|j: int, i: int|
            0 <= j < pre.num_layers() && 0 <= i < pre.layer(j).len() ==> #[trigger] post.layer(j)[i] == pre.layer(j)[i],
        forall|j: int, i: int|
            0 <= j < pre.num_layers() && pre.layer(j).len() <= i < post.layer(j).len() ==> #[trigger] post.layer(j)[i] == 0,
        forall|j: int, i: int|
            pre.num_layers() <= j < post.num_layers() && 0 <= i < post.layer(j).len() ==> #[trigger] post.layer(j)[i] == 0,
    ensures
        post.wf(),
        pre.cap < post.cap,
        forall|q: nat| q < pre.cap ==> post.contains(q) == pre.contains(q),
        forall|q: nat| q >= pre.cap ==> !post.contains(q),
        pre.summary_ok() && pre.num_layers() == post.num_layers() ==> post.summary_ok(),
        (forall|k: int| 0 <= k < pre.num_layers() ==> all_zero(#[trigger] pre.layer(k)))
            ==> post.summary_ok() && (forall|k: int|
            0 <= k < post.num_layers() ==> all_zero(#[trigger] post.layer(k))),
{
    lemma_round_capacity_up_properties(cap);
    lemma_next_pow2(cap);
    lemma_cap_cover(pre);
    assert(usize::MAX >= 0xffff_ffffusize);
    assert(post.cap as nat == spec_round_capacity_up(post.cap as nat));
    assert(post.cap as nat <= (usize::MAX as nat + 1) / 2);
    lemma_cap_cover_post(post);
    if pre.cap > 0 {
        lemma_div_is_ordered(pre.cap as int + 63, post.cap as int + 63, 64);
        lemma_layout_from_mono(ceil_div64(pre.cap as nat), ceil_div64(post.cap as nat));
    }
    assert(pre.num_layers() <= post.num_layers());
    assert(forall|j: int|
        0 <= j < pre.num_layers() ==> pre.layer(j).len() <= (#[trigger] post.layer(j)).len());

    // Bits over preserved words are preserved; bits over new words are 0.
    assert forall|k: int, b: nat|
        0 <= k < post.num_layers() && b < 64 * post.layer(k).len() implies (#[trigger] layer_bit(
        post.layer(k),
        b,
    )) == (k < pre.num_layers() && b < 64 * pre.layer(k).len() && layer_bit(pre.layer(k), b)) by {
        lemma_div64_bound(b, post.layer(k).len() as nat);
        if k < pre.num_layers() && b < 64 * pre.layer(k).len() {
            lemma_div64_bound(b, pre.layer(k).len() as nat);
            assert(post.layer(k)[(b / 64) as int] == pre.layer(k)[(b / 64) as int]);
        } else {
            if k < pre.num_layers() {
                assert(b / 64 >= pre.layer(k).len()) by {
                    if b / 64 < pre.layer(k).len() {
                        lemma_fundamental_div_mod(b as int, 64);
                    }
                }
            }
            assert(post.layer(k)[(b / 64) as int] == 0);
            lemma_word_zero(0u64);
            assert(!wbit(0u64, b % 64));
        }
    }

    // Well-formedness: range bits above the new capacity are clear.
    assert forall|b: nat|
        post.cap as nat <= b < 64 * post.layer(0).len() && post.num_layers() > 0 implies !(
    #[trigger] layer_bit(post.layer(0), b)) by {
        if 0 < pre.num_layers() && b < 64 * pre.layer(0).len() {
            assert(b >= pre.cap as nat);
            assert(!layer_bit(pre.layer(0), b));
        }
    }
    assert(post.wf());

    // Membership below the old capacity is untouched; above it, clear.
    assert forall|q: nat| q < pre.cap implies post.contains(q) == pre.contains(q) by {
        assert(q < 64 * pre.layer(0).len());
        assert(64 * pre.layer(0).len() <= 64 * post.layer(0).len());
    }
    assert forall|q: nat| q >= pre.cap implies !post.contains(q) by {
        if post.num_layers() > 0 && q < 64 * post.layer(0).len() {
            if 0 < pre.num_layers() && q < 64 * pre.layer(0).len() {
                assert(!layer_bit(pre.layer(0), q));
            }
        }
    }

    // Summary preservation when the layer count is unchanged.
    if pre.summary_ok() && pre.num_layers() == post.num_layers() {
        assert forall|k: int, b: nat|
            1 <= k < post.num_layers() && b < 64 * post.layer(k).len() implies ((
        #[trigger] layer_bit(post.layer(k), b)) <==> (b < post.layer(k - 1).len() && post.layer(
            k - 1,
        )[b as int] != 0)) by {
            if b < 64 * pre.layer(k).len() {
                assert(layer_bit(post.layer(k), b) == layer_bit(pre.layer(k), b));
                if b < pre.layer(k - 1).len() {
                    assert(post.layer(k - 1)[b as int] == pre.layer(k - 1)[b as int]);
                } else {
                    assert(!layer_bit(pre.layer(k), b));
                    if b < post.layer(k - 1).len() {
                        assert(post.layer(k - 1)[b as int] == 0);
                    }
                }
            } else {
                assert(!layer_bit(post.layer(k), b));
                lemma_layout_step_pre(pre, k - 1);
                assert(b >= pre.layer(k - 1).len());
                if b < post.layer(k - 1).len() {
                    assert(post.layer(k - 1)[b as int] == 0);
                }
            }
        }
    }

    // From an all-zero set, everything stays zero and the summary holds.
    if forall|k: int| 0 <= k < pre.num_layers() ==> all_zero(#[trigger] pre.layer(k)) {
        assert forall|k: int| 0 <= k < post.num_layers() implies all_zero(
            #[trigger] post.layer(k),
        ) by {
            assert forall|i: int| 0 <= i < post.layer(k).len() implies post.layer(k)[i] == 0 by {
                if k < pre.num_layers() && i < pre.layer(k).len() {
                    assert(all_zero(pre.layer(k)));
                }
            }
        }
        lemma_all_zero_summary(post);
    }
}

/// A well-formed post-state's capacity is covered by its layer 0.
proof fn lemma_cap_cover_post(s: BitSet)
    requires
        s.cap as nat == spec_round_capacity_up(s.cap as nat),
        s.layers@.len() == layouts(s.cap as nat).len(),
        forall|k: int|
            0 <= k < s.num_layers() ==> (#[trigger] s.layer(k)).len() == layouts(s.cap as nat)[k],
    ensures
        s.cap > 0 ==> s.num_layers() >= 1,
        s.cap > 0 ==> s.cap as nat <= 64 * s.layer(0).len(),
{
    if s.cap > 0 {
        lemma_round_bits_ceil(s.cap as nat);
        lemma_layout_from_shape(ceil_div64(s.cap as nat));
        assert(layouts(s.cap as nat)[0] == ceil_div64(s.cap as nat));
    }
}

/// One step of the layout chain stated on a well-formed set's own layers.
proof fn lemma_layout_step_pre(s: BitSet, k: int)
    requires
        s.wf(),
        0 <= k,
        k + 1 < s.num_layers(),
    ensures
        64 * s.layer(k + 1).len() >= s.layer(k).len(),
{
    lemma_layout_step(s.cap as nat, k);
}


/// A hierarchy whose layers are all zero satisfies the summary invariant.
proof fn lemma_all_zero_summary(s: BitSet)
    requires
        forall|k: int| 0 <= k < s.num_layers() ==> all_zero(#[trigger] s.layer(k)),
    ensures
        s.summary_ok(),
{
    assert forall|k: int, b: nat|
        1 <= k < s.num_layers() && b < 64 * s.layer(k).len() implies ((#[trigger] layer_bit(
        s.layer(k),
        b,
    )) <==> (b < s.layer(k - 1).len() && s.layer(k - 1)[b as int] != 0)) by {
        lemma_div64_bound(b, s.layer(k).len() as nat);
        assert(s.layer(k)[(b / 64) as int] == 0);
        lemma_word_zero(0u64);
        if b < s.layer(k - 1).len() {
            assert(s.layer(k - 1)[b as int] == 0);
        }
    }
}

/// Updating one word of a layer leaves every other word unchanged.
proof fn lemma_update_other(s: Seq<u64>, j: nat, v: u64, i: nat)
    requires
        j < s.len(),
        i < s.len(),
        i != j,
    ensures
        s.update(j as int, v)[i as int] == s[i as int],
{
}


impl BitSet {
    /// Convert in place into an [`AtomicBitSet`].
    ///
    /// The two views share one representation, so the conversion moves the
    /// storage in constant time and copies no words; the capacity and every
    /// bit of every layer are exactly preserved.
    pub fn into_atomic(self) -> (r: AtomicBitSet)
        ensures
            r.inner == self,
    {
        AtomicBitSet { inner: self }
    }
}

impl Default for BitSet {
    fn default() -> (r: BitSet)
        ensures
            r.wf(),
            r.summary_ok(),
            r.cap == 0,
            r.num_layers() == 0,
            forall|q: nat| !r.contains(q),
    {
        BitSet::new()
    }
}

/// The mark-only view of a hierarchical bit set.
///
/// It is the same hierarchy as [`BitSet`] but exposes only `set`: producers
/// may raise bits, and one consumer later converts back to the local view
/// to clear, test or drain.  The capability split is the two types; the
/// conversions move the shared storage in constant time.
pub struct AtomicBitSet {
    /// The shared hierarchy.
    pub inner: BitSet,
}

impl AtomicBitSet {
    /// Construct a new, empty atomic bit set with capacity 0.
    pub fn new() -> (r: AtomicBitSet)
        ensures
            r.inner.wf(),
            r.inner.summary_ok(),
            r.inner.cap == 0,
            r.inner.num_layers() == 0,
            forall|q: nat| !r.inner.contains(q),
    {
        AtomicBitSet { inner: BitSet::new() }
    }

    /// Set the given bit, marking the position.
    ///
    /// The update is exactly that of [`BitSet::set`] on the shared
    /// hierarchy; no other operation is offered through this view.
    pub fn set(&mut self, position: usize)
        requires
            old(self).inner.wf(),
            position < old(self).inner.cap,
        ensures
            final(self).inner.wf(),
            final(self).inner.cap == old(self).inner.cap,
            final(self).inner.num_layers() == old(self).inner.num_layers(),
            forall|k: int|
                0 <= k < final(self).inner.num_layers() ==> #[trigger] final(self).inner.layer(k)
                    == set_in_layer(
                    old(self).inner.layer(k),
                    position as nat / pow64(k as nat),
                ),
            final(self).inner.contains(position as nat),
            forall|q: nat|
                q < old(self).inner.cap && q != position ==> final(self).inner.contains(q) == old(
                    self,
                ).inner.contains(q),
            old(self).inner.summary_ok() ==> final(self).inner.summary_ok(),
    {
        self.inner.set(position);
    }

    /// Convert in place into a [`BitSet`].
    ///
    /// The storage moves in constant time; the capacity and every bit of
    /// every layer are exactly preserved.
    pub fn into_local(self) -> (r: BitSet)
        ensures
            r == self.inner,
    {
        self.inner
    }

    /// Borrow the hierarchy as a [`BitSet`].
    pub fn as_local(&self) -> (r: &BitSet)
        ensures
            r == self.inner,
    {
        &self.inner
    }
}

impl Default for AtomicBitSet {
    fn default() -> (r: AtomicBitSet)
        ensures
            r.inner.wf(),
            r.inner.summary_ok(),
            r.inner.cap == 0,
            r.inner.num_layers() == 0,
            forall|q: nat| !r.inner.contains(q),
    {
        AtomicBitSet::new()
    }
}

/// A well-formed set's capacity is covered by layer 0: every position
/// below the capacity has a word, and a word index below layer `k`'s
/// length exists for each of its positions.
pub proof fn lemma_cap_cover(s: BitSet)
    requires
        s.wf(),
    ensures
        s.cap > 0 ==> s.num_layers() >= 1,
        s.cap > 0 ==> s.cap as nat <= 64 * layouts(s.cap as nat)[0],
        s.cap > 0 ==> s.cap as nat <= 64 * s.layer(0).len(),
{
    if s.cap > 0 {
        lemma_round_bits_ceil(s.cap as nat);
        lemma_layout_from_shape(ceil_div64(s.cap as nat));
        assert(layouts(s.cap as nat)[0] == ceil_div64(s.cap as nat));
    }
}

/// Dividing a position by 64 one more time moves it down one layer.
proof fn lemma_step_down(p: nat, k: nat)
    ensures
        (p / pow64(k)) / 64 == p / pow64((k + 1) as nat),
{
    lemma_pow64_pos(k);
    lemma_div_denominator(p as int, pow64(k) as int, 64);
    assert(pow64((k + 1) as nat) == 64 * pow64(k));
}

/// Each layer's word-count bound carries one layer up: a position below
/// layer `k`'s bit range lands, divided by 64, below layer `k+1`'s range.
proof fn lemma_layout_step(cap: nat, k: int)
    requires
        cap > 0,
        0 <= k,
        k + 1 < layouts(cap).len(),
    ensures
        64 * layouts(cap)[k + 1] >= layouts(cap)[k],
{
    lemma_layout_from_shape(ceil_div64(cap));
    assert(layouts(cap)[k + 1] == ceil_div64(layouts(cap)[k] as nat));
    lemma_round_bits_ceil(layouts(cap)[k] as nat);
}

/// Assemble the per-layer update facts of `set` into the membership,
/// well-formedness and summary conclusions.
proof fn lemma_set_effect(pre: BitSet, post: BitSet, p: nat)
    requires
        pre.wf(),
        p < pre.cap,
        post.cap == pre.cap,
        post.num_layers() == pre.num_layers(),
        forall|k: int|
            0 <= k < post.num_layers() ==> #[trigger] post.layer(k) == set_in_layer(
                pre.layer(k),
                p / pow64(k as nat),
            ),
    ensures
        post.wf(),
        post.contains(p),
        forall|q: nat| q < pre.cap && q != p ==> post.contains(q) == pre.contains(q),
        pre.summary_ok() ==> post.summary_ok(),
{
    lemma_cap_cover(pre);
    lemma_pow64_pos(0);
    vstd::arithmetic::div_mod::lemma_div_basics(p as int);
    assert(p / pow64(0) == p);
    let l0 = pre.layer(0);
    assert(post.layer(0) == set_in_layer(l0, p));
    assert forall|k: int|
        0 <= k < post.num_layers() implies (#[trigger] post.layer(k)).len()
        == pre.layer(k).len() by {
        lemma_position_word(pre, k, p);
        lemma_set_clear_test(pre.layer(k), p / pow64(k as nat), p / pow64(k as nat));
    }

    // Membership at layer 0.
    lemma_set_clear_test(l0, p, p);
    assert(post.contains(p));
    assert forall|q: nat| q < pre.cap && q != p implies post.contains(q) == pre.contains(q) by {
        lemma_set_clear_test(l0, p, q);
    }

    // Range bits above the capacity stay clear.
    assert forall|b: nat|
        post.cap as nat <= b < 64 * post.layer(0).len() && post.num_layers() > 0 implies !(
    #[trigger] layer_bit(post.layer(0), b)) by {
        lemma_set_clear_test(l0, p, b);
    }
    assert(post.wf());

    // The summary invariant is preserved: the updated bit at layer k sits
    // exactly over the updated (hence non-zero) word at layer k - 1.
    if pre.summary_ok() {
        assert forall|k: int, b: nat|
            1 <= k < post.num_layers() && b < 64 * post.layer(k).len() implies ((
        #[trigger] layer_bit(post.layer(k), b)) <==> (b < post.layer(k - 1).len() && post.layer(
            k - 1,
        )[b as int] != 0)) by {
            let pk = p / pow64(k as nat);
            let pk1 = p / pow64((k - 1) as nat);
            lemma_step_down(p, (k - 1) as nat);
            assert(pk1 / 64 == pk);
            lemma_position_word(pre, k - 1, p);
            lemma_position_word(pre, k, p);
            lemma_set_clear_test(pre.layer(k), pk, b);
            lemma_with_bit(pre.layer(k - 1)[pk as int], pk1 % 64);
            if b == pk {
                assert(post.layer(k - 1)[pk as int] == with_bit(
                    pre.layer(k - 1)[pk as int],
                    pk1 % 64,
                ));
                assert(post.layer(k - 1)[b as int] != 0);
            } else {
                assert(layer_bit(post.layer(k), b) == layer_bit(pre.layer(k), b));
                if b < post.layer(k - 1).len() {
                    assert(post.layer(k - 1) == set_in_layer(pre.layer(k - 1), pk1));
                    lemma_update_other(
                        pre.layer(k - 1),
                        pk1 / 64,
                        with_bit(pre.layer(k - 1)[(pk1 / 64) as int], pk1 % 64),
                        b,
                    );
                    assert(post.layer(k - 1)[b as int] == pre.layer(k - 1)[b as int]);
                }
            }
        }
    }
}

/// Assemble the per-layer update facts of `clear` into the membership and
/// well-formedness conclusions.
proof fn lemma_clear_effect(pre: BitSet, post: BitSet, p: nat)
    requires
        pre.wf(),
        p < pre.cap,
        post.cap == pre.cap,
        post.num_layers() == pre.num_layers(),
        forall|k: int|
            0 <= k < post.num_layers() ==> #[trigger] post.layer(k) == clear_in_layer(
                pre.layer(k),
                p / pow64(k as nat),
            ),
    ensures
        post.wf(),
        !post.contains(p),
        forall|q: nat| q < pre.cap && q != p ==> post.contains(q) == pre.contains(q),
{
    lemma_cap_cover(pre);
    lemma_pow64_pos(0);
    vstd::arithmetic::div_mod::lemma_div_basics(p as int);
    assert(p / pow64(0) == p);
    let l0 = pre.layer(0);
    assert(post.layer(0) == clear_in_layer(l0, p));
    assert forall|k: int|
        0 <= k < post.num_layers() implies (#[trigger] post.layer(k)).len()
        == pre.layer(k).len() by {
        lemma_position_word(pre, k, p);
        lemma_set_clear_test(pre.layer(k), p / pow64(k as nat), p / pow64(k as nat));
    }
    lemma_set_clear_test(l0, p, p);
    assert forall|q: nat| q < pre.cap && q != p implies post.contains(q) == pre.contains(q) by {
        lemma_set_clear_test(l0, p, q);
    }
    assert forall|b: nat|
        post.cap as nat <= b < 64 * post.layer(0).len() && post.num_layers() > 0 implies !(
    #[trigger] layer_bit(post.layer(0), b)) by {
        lemma_set_clear_test(l0, p, b);
    }
}

/// The bit position `p` occupies at layer `k` lies within that layer's
/// words.
pub proof fn lemma_position_word(s: BitSet, k: int, p: nat)
    requires
        s.wf(),
        0 <= k < s.num_layers(),
        p < s.cap,
    ensures
        p / pow64(k as nat) < 64 * s.layer(k).len(),
        (p / pow64(k as nat)) / 64 < s.layer(k).len(),
    decreases k,
{
    let b = p / pow64(k as nat);
    lemma_cap_cover(s);
    if k == 0 {
        lemma_pow64_pos(0);
        assert(pow64(0nat) == 1);
        vstd::arithmetic::div_mod::lemma_div_basics(p as int);
        assert(b == p);
        assert(b < 64 * s.layer(0).len());
    } else {
        let b1 = p / pow64((k - 1) as nat);
        lemma_step_down(p, (k - 1) as nat);
        assert(b == b1 / 64);
        lemma_position_word(s, k - 1, p);
        lemma_layout_step(s.cap as nat, k - 1);
        assert(b < s.layer(k - 1).len());
        assert(b < 64 * s.layer(k).len());
    }
    lemma_div64_bound(b, s.layer(k).len() as nat);
}


} // verus!
