//! Capacity rounding and the per-layer word layout of a hierarchy.
//!
//! A hierarchy's capacity is always zero or a power of two of at least 16.
//! For a given capacity, layer 0 needs one word per 64 positions and each
//! coarser layer needs one word per 64 words of the layer below it, until a
//! layer of exactly one word is reached.

use vstd::prelude::*;
use vstd::arithmetic::div_mod::lemma_fundamental_div_mod;
use vstd::arithmetic::div_mod::lemma_div_multiples_vanish_fancy;
use vstd::arithmetic::div_mod::lemma_div_is_ordered;

verus! {

/// 64 to the `k`th power: the number of positions one bit of layer `k`
/// stands for.
pub open spec fn pow64(k: nat) -> nat
    decreases k,
{
    if k == 0 {
        1
    } else {
        64 * pow64((k - 1) as nat)
    }
}

/// Powers of 64 are positive.
pub proof fn lemma_pow64_pos(k: nat)
    ensures
        pow64(k) >= 1,
    decreases k,
{
    if k > 0 {
        lemma_pow64_pos((k - 1) as nat);
    }
}

/// Powers of 64 grow with the exponent.
pub proof fn lemma_pow64_mono(j: nat, k: nat)
    requires
        j <= k,
    ensures
        pow64(j) <= pow64(k),
    decreases k,
{
    lemma_pow64_pos(j);
    if j < k && k > 0 {
        lemma_pow64_mono(j, (k - 1) as nat);
        lemma_pow64_pos((k - 1) as nat);
    }
}

/// True when `n` is a power of two.
pub open spec fn is_pow2(n: nat) -> bool
    decreases n,
{
    if n == 0 {
        false
    } else if n == 1 {
        true
    } else {
        n % 2 == 0 && is_pow2(n / 2)
    }
}

/// The smallest power of two that is at least `n` (and at least 1).
pub open spec fn next_pow2(n: nat) -> nat
    decreases n,
{
    if n <= 1 {
        1
    } else {
        2 * next_pow2(((n + 1) / 2) as nat)
    }
}

pub proof fn lemma_next_pow2(n: nat)
    ensures
        is_pow2(next_pow2(n)),
        next_pow2(n) >= n,
        next_pow2(n) >= 1,
        n >= 2 ==> next_pow2(n) <= 2 * n - 2,
    decreases n,
{
    if n >= 2 {
        let m = ((n + 1) / 2) as nat;
        lemma_next_pow2(m);
        let x = next_pow2(m);
        assert(is_pow2(2 * x)) by {
            assert((2 * x) % 2 == 0);
            assert((2 * x) / 2 == x);
        }
        assert(2 * m >= n);
        if m >= 2 {
            assert(x <= 2 * m - 2);
            assert(2 * x <= 2 * n - 2);
        } else {
            assert(m == 1 && n == 2);
        }
    }
}

/// Any power of two at least `n` is at least `next_pow2(n)`.
pub proof fn lemma_next_pow2_min(n: nat, r: nat)
    requires
        is_pow2(r),
        r >= n,
    ensures
        r >= next_pow2(n),
    decreases n,
{
    if n >= 2 {
        let m = ((n + 1) / 2) as nat;
        assert(r % 2 == 0 && is_pow2(r / 2));
        assert(r / 2 >= m) by {
            if n % 2 == 0 {
                assert(m == n / 2);
            } else {
                assert(r >= n + 1) by {
                    assert(r % 2 == 0 && n % 2 == 1);
                }
            }
        }
        lemma_next_pow2_min(m, (r / 2) as nat);
    } else {
        assert(r >= 1);
    }
}

/// A power of two is its own `next_pow2`.
pub proof fn lemma_next_pow2_fixed(n: nat)
    requires
        is_pow2(n),
    ensures
        next_pow2(n) == n,
    decreases n,
{
    if n >= 2 {
        assert((n + 1) / 2 == n / 2);
        lemma_next_pow2_fixed((n / 2) as nat);
    }
}

/// Two powers of two cannot be closer than a factor of two.
pub proof fn lemma_pow2_gap(p: nat, q: nat)
    requires
        is_pow2(p),
        is_pow2(q),
        p < q,
    ensures
        2 * p <= q,
    decreases p,
{
    if p >= 2 {
        lemma_pow2_gap((p / 2) as nat, (q / 2) as nat);
    }
}

/// The capacity a request is rounded up to: 0 stays 0, anything else is
/// rounded to a power of two of at least 16.
pub open spec fn spec_round_capacity_up(cap: nat) -> nat {
    if cap == 0 {
        0
    } else if next_pow2(cap) <= 16 {
        16
    } else {
        next_pow2(cap)
    }
}

/// Rounding is idempotent, and a rounded capacity is 0 or a power of two
/// of at least 16 that is at least the requested capacity.
pub proof fn lemma_round_capacity_up_properties(cap: nat)
    ensures
        spec_round_capacity_up(spec_round_capacity_up(cap)) == spec_round_capacity_up(cap),
        cap == 0 <==> spec_round_capacity_up(cap) == 0,
        cap > 0 ==> is_pow2(spec_round_capacity_up(cap)),
        cap > 0 ==> spec_round_capacity_up(cap) >= 16,
        spec_round_capacity_up(cap) >= cap || cap <= 8,
        cap > 0 ==> spec_round_capacity_up(cap) >= cap,
{
    if cap > 0 {
        lemma_next_pow2(cap);
        let r = spec_round_capacity_up(cap);
        reveal_with_fuel(is_pow2, 6);
        assert(is_pow2(16nat));
        assert(is_pow2(r));
        lemma_next_pow2_fixed(r);
        assert(spec_round_capacity_up(r) == r);
    }
}

/// Round a requested capacity up to the next valid capacity: 0 stays 0,
/// anything else becomes a power of two of at least 16.
///
/// The bound on `cap` is a machine limit: the rounded value must still fit
/// in a machine word.
pub fn round_capacity_up(cap: usize) -> (r: usize)
    requires
        cap as nat <= (usize::MAX as nat + 1) / 2,
    ensures
        r as nat == spec_round_capacity_up(cap as nat),
{
    if cap == 0 {
        return 0;
    }
    proof {
        lemma_next_pow2(cap as nat);
        reveal_with_fuel(is_pow2, 6);
        assert(is_pow2(16nat));
    }
    let mut r: usize = 16;
    while r < cap
        invariant
            cap > 0,
            cap as nat <= (usize::MAX as nat + 1) / 2,
            is_pow2(r as nat),
            16 <= r,
            r as nat <= spec_round_capacity_up(cap as nat),
            spec_round_capacity_up(cap as nat) <= usize::MAX,
        decreases spec_round_capacity_up(cap as nat) - r,
    {
        proof {
            lemma_next_pow2(cap as nat);
            lemma_pow2_gap(r as nat, next_pow2(cap as nat));
        }
        r = r * 2;
    }
    proof {
        lemma_next_pow2_min(cap as nat, r as nat);
    }
    r
}

/// `v` rounded up to the next multiple of 64.
pub open spec fn spec_round_bits_up(v: nat) -> nat {
    if v % 64 == 0 {
        v
    } else {
        (v + 64 - v % 64) as nat
    }
}

/// The number of words needed to hold `w` items at 64 items per word.
pub open spec fn ceil_div64(w: nat) -> nat {
    (w + 63) / 64
}

/// Rounding up to a multiple of 64 is the word count times 64.
pub proof fn lemma_round_bits_ceil(v: nat)
    ensures
        spec_round_bits_up(v) == 64 * ceil_div64(v),
        spec_round_bits_up(v) / 64 == ceil_div64(v),
        v <= 64 * ceil_div64(v),
        64 * ceil_div64(v) < v + 64,
{
    let q = v / 64;
    let m = v % 64;
    lemma_fundamental_div_mod(v as int, 64);
    if m == 0 {
        lemma_div_multiples_vanish_fancy(q as int, 63, 64);
        assert(ceil_div64(v) == q);
    } else {
        lemma_div_multiples_vanish_fancy(q as int + 1, m as int - 1, 64);
        assert(v + 63 == 64 * (q + 1) + (m - 1));
        assert(ceil_div64(v) == q + 1);
    }
    lemma_div_multiples_vanish_fancy(ceil_div64(v) as int, 0, 64);
}

/// Round `value` up to the next multiple of 64.
pub fn round_bits_up(value: usize) -> (r: usize)
    requires
        value as nat + 63 <= usize::MAX as nat,
    ensures
        r as nat == spec_round_bits_up(value as nat),
{
    let m = value % 64;
    if m == 0 {
        value
    } else {
        value + (64 - m)
    }
}

/// The word count of one layer of a hierarchy.
#[derive(Debug, Clone, Copy, PartialEq, Eq, Hash, Structural)]
pub struct LayerLayout {
    /// The length of the layer, in words.
    pub cap: usize,
}

/// The word counts of all layers above a finest layer of `w` words:
/// each layer holds one word per 64 words of the layer below, and the
/// sequence stops at the first layer of exactly one word.
pub open spec fn layout_from(w: nat) -> Seq<nat>
    decreases w,
{
    if w <= 1 {
        seq![1nat]
    } else {
        seq![w] + layout_from(ceil_div64(w))
    }
}

/// The word counts of the layers of a hierarchy with capacity `cap`:
/// empty for capacity 0, otherwise finest layer first.
pub open spec fn layouts(cap: nat) -> Seq<nat> {
    if cap == 0 {
        Seq::empty()
    } else {
        layout_from(ceil_div64(cap))
    }
}

/// Shape of a layout: at least one layer, finest layer first, each layer
/// one word per 64 words of the one below, topmost layer exactly one word.
pub proof fn lemma_layout_from_shape(w: nat)
    requires
        w >= 1,
    ensures
        layout_from(w).len() >= 1,
        layout_from(w)[0] == w,
        layout_from(w)[layout_from(w).len() - 1] == 1,
        forall|k: int| 0 <= k < layout_from(w).len() ==> layout_from(w)[k] >= 1,
        forall|k: int|
            0 <= k && k + 1 < layout_from(w).len() ==> layout_from(w)[k + 1] == ceil_div64(
                layout_from(w)[k] as nat,
            ) && layout_from(w)[k] >= 2,
    decreases w,
{
    if w > 1 {
        lemma_layout_from_shape(ceil_div64(w));
        let rest = layout_from(ceil_div64(w));
        assert forall|k: int|
            0 <= k && k + 1 < layout_from(w).len() implies layout_from(w)[k + 1] == ceil_div64(
            layout_from(w)[k] as nat,
        ) && layout_from(w)[k] >= 2 by {
            if k > 0 {
                assert(layout_from(w)[k] == rest[k - 1]);
                assert(layout_from(w)[k + 1] == rest[k]);
            }
        }
    }
}

/// A layout computed for a larger word count is at least as long and at
/// least as wide, layer for layer.
pub proof fn lemma_layout_from_mono(w1: nat, w2: nat)
    requires
        1 <= w1 <= w2,
    ensures
        layout_from(w1).len() <= layout_from(w2).len(),
        forall|k: int| 0 <= k < layout_from(w1).len() ==> layout_from(w1)[k] <= layout_from(w2)[k],
    decreases w2,
{
    lemma_layout_from_shape(w1);
    lemma_layout_from_shape(w2);
    if w1 > 1 {
        lemma_div_is_ordered(w1 as int + 63, w2 as int + 63, 64);
        lemma_layout_from_mono(ceil_div64(w1), ceil_div64(w2));
        let s1 = layout_from(w1);
        let s2 = layout_from(w2);
        let r1 = layout_from(ceil_div64(w1));
        let r2 = layout_from(ceil_div64(w2));
        assert forall|k: int| 0 <= k < s1.len() implies s1[k] <= s2[k] by {
            if k > 0 {
                assert(s1[k] == r1[k - 1] && s2[k] == r2[k - 1]);
            }
        }
    }
}

/// A layout of `n` layers can only arise from at least `64^(n-2) + 1`
/// words at its finest layer.
pub proof fn lemma_layout_from_min(w: nat)
    requires
        w >= 1,
        layout_from(w).len() >= 2,
    ensures
        w >= pow64((layout_from(w).len() - 2) as nat) + 1,
    decreases w,
{
    let n = layout_from(w).len();
    assert(w >= 2);
    let c = ceil_div64(w);
    lemma_layout_from_shape(c);
    if n >= 3 {
        lemma_layout_from_min(c);
        assert(c >= pow64((n - 3) as nat) + 1);
        lemma_round_bits_ceil(w);
        assert(64 * c < w + 64);
        assert(w >= 64 * (c - 1) + 1);
        assert(64 * (c - 1) >= 64 * pow64((n - 3) as nat)) by {
            assert(c - 1 >= pow64((n - 3) as nat));
            vstd::arithmetic::mul::lemma_mul_inequality(
                pow64((n - 3) as nat) as int,
                c as int - 1,
                64,
            );
        }
        assert(pow64((n - 2) as nat) == 64 * pow64((n - 3) as nat));
    } else {
        lemma_pow64_pos((n - 2) as nat);
        assert(pow64(0nat) == 1);
    }
}

/// Every layer's per-bit reach fits below the capacity: `64^(L-1) <= cap`
/// for a hierarchy of `L` layers.
pub proof fn lemma_pow64_le_cap(cap: nat)
    requires
        cap >= 1,
    ensures
        pow64((layouts(cap).len() - 1) as nat) <= cap,
        layouts(cap).len() >= 1,
{
    let w = ceil_div64(cap);
    assert(w >= 1);
    lemma_layout_from_shape(w);
    let n = layouts(cap).len();
    if n >= 2 {
        lemma_layout_from_min(w);
        lemma_round_bits_ceil(cap);
        assert(cap >= 64 * (w - 1) + 1);
        assert(64 * (w - 1) >= 64 * pow64((n - 2) as nat)) by {
            vstd::arithmetic::mul::lemma_mul_inequality(
                pow64((n - 2) as nat) as int,
                w as int - 1,
                64,
            );
        }
        assert(pow64((n - 1) as nat) == 64 * pow64((n - 2) as nat));
    }
}

/// A word index below `64 * c` words' reach lands below word `c`.
pub proof fn lemma_div64_bound(q: nat, c: nat)
    requires
        q < 64 * c,
    ensures
        q / 64 < c,
{
    lemma_fundamental_div_mod(q as int, 64);
}

/// Compute the layer layout for the given capacity, finest layer first.
///
/// An empty capacity needs no layers at all; any other capacity needs
/// layers until a single word can summarize everything below it.
pub fn bit_set_layout(capacity: usize) -> (r: Vec<LayerLayout>)
    requires
        capacity as nat + 63 <= usize::MAX as nat,
    ensures
        r@.len() == layouts(capacity as nat).len(),
        forall|k: int| 0 <= k < r@.len() ==> r@[k].cap as nat == layouts(capacity as nat)[k],
        forall|k: int| 0 <= k < r@.len() ==> r@[k].cap >= 1,
{
    let mut r: Vec<LayerLayout> = Vec::new();
    if capacity == 0 {
        return r;
    }
    proof {
        lemma_round_bits_ceil(capacity as nat);
    }
    let mut w = round_bits_up(capacity) / 64;
    proof {
        assert(w as nat == ceil_div64(capacity as nat));
        assert(layouts(capacity as nat) == layout_from(w as nat));
        lemma_layout_from_shape(w as nat);
    }
    loop
        invariant
            1 <= w,
            w as nat + 63 <= usize::MAX as nat,
            r@.len() + layout_from(w as nat).len() == layouts(capacity as nat).len(),
            forall|j: int| 0 <= j < r@.len() ==> r@[j].cap as nat == layouts(capacity as nat)[j],
            forall|j: int| 0 <= j < r@.len() ==> r@[j].cap >= 1,
            forall|j: int|
                0 <= j < layout_from(w as nat).len() ==> layout_from(w as nat)[j] == layouts(
                    capacity as nat,
                )[r@.len() + j],
        decreases w,
    {
        proof {
            lemma_layout_from_shape(w as nat);
        }
        let ghost prev = w as nat;
        let ghost done = r@.len() as int;
        r.push(LayerLayout { cap: w });
        if w == 1 {
            proof {
                assert(layout_from(1nat) == seq![1nat]);
            }
            return r;
        }
        proof {
            assert(layout_from(prev) == seq![prev] + layout_from(ceil_div64(prev)));
            assert forall|j: int|
                0 <= j < layout_from(ceil_div64(prev)).len() implies layout_from(ceil_div64(prev))[j]
                == layouts(capacity as nat)[done + 1 + j] by {
                assert(layout_from(prev)[j + 1] == layout_from(ceil_div64(prev))[j]);
            }
        }
        w = (w + 63) / 64;
    }
}

} // verus!
