//! One layer of the hierarchy: an owned, growable, contiguous sequence of
//! words storing one level of bits.

use vstd::prelude::*;
use crate::bits::wbit;
use crate::bits::with_bit;
use crate::bits::without_bit;

verus! {

/// A single layer of bits.
pub struct Layer {
    /// The words of the layer.
    pub words: Vec<u64>,
}

impl View for Layer {
    type V = Seq<u64>;

    open spec fn view(&self) -> Seq<u64> {
        self.words@
    }
}

impl Layer {
    /// Allocate a new layer with the specified number of words, all zero.
    pub fn with_capacity(cap: usize) -> (r: Layer)
        ensures
            r@.len() == cap,
            forall|i: int| 0 <= i < cap ==> r@[i] == 0,
    {
        let mut words: Vec<u64> = Vec::new();
        while words.len() < cap
            invariant
                words@.len() <= cap,
                forall|i: int| 0 <= i < words@.len() ==> words@[i] == 0,
            decreases cap - words@.len(),
        {
            words.push(0);
        }
        Layer { words }
    }

    /// The number of words in this layer.
    pub fn len(&self) -> (r: usize)
        ensures
            r == self@.len(),
    {
        self.words.len()
    }

    /// Extend this layer to at least `new` words, preserving every existing
    /// word and zero-filling the new ones; a no-op if the layer already has
    /// that many words.
    pub fn grow(&mut self, new: usize)
        ensures
            final(self)@.len() == if new <= old(self)@.len() {
                old(self)@.len()
            } else {
                new as nat
            },
            forall|i: int| 0 <= i < old(self)@.len() ==> final(self)@[i] == old(self)@[i],
            forall|i: int| old(self)@.len() <= i < final(self)@.len() ==> final(self)@[i] == 0,
    {
        while self.words.len() < new
            invariant
                old(self)@.len() <= self@.len(),
                new <= old(self)@.len() ==> self@.len() == old(self)@.len(),
                new > old(self)@.len() ==> self@.len() <= new,
                forall|i: int| 0 <= i < old(self)@.len() ==> self@[i] == old(self)@[i],
                forall|i: int| old(self)@.len() <= i < self@.len() ==> self@[i] == 0,
            decreases new - self.words@.len(),
        {
            self.words.push(0);
        }
    }

    /// Read the word at the given slot.
    pub fn word(&self, slot: usize) -> (r: u64)
        requires
            slot < self@.len(),
        ensures
            r == self@[slot as int],
    {
        self.words[slot]
    }

    /// Overwrite the word at the given slot.
    pub fn set_word(&mut self, slot: usize, w: u64)
        requires
            slot < old(self)@.len(),
        ensures
            final(self)@ == old(self)@.update(slot as int, w),
    {
        let p = &mut self.words[slot];
        *p = w;
    }

    /// Set the given bit in this layer.
    pub fn set(&mut self, slot: usize, offset: usize)
        requires
            slot < old(self)@.len(),
            offset < 64,
        ensures
            final(self)@ == old(self)@.update(
                slot as int,
                with_bit(old(self)@[slot as int], offset as nat),
            ),
    {
        let w = self.words[slot] | (1u64 << (offset as u64));
        let p = &mut self.words[slot];
        *p = w;
    }

    /// Clear the given bit in this layer.
    pub fn clear(&mut self, slot: usize, offset: usize)
        requires
            slot < old(self)@.len(),
            offset < 64,
        ensures
            final(self)@ == old(self)@.update(
                slot as int,
                without_bit(old(self)@[slot as int], offset as nat),
            ),
    {
        let w = self.words[slot] & !(1u64 << (offset as u64));
        let p = &mut self.words[slot];
        *p = w;
    }

    /// Test the given bit in this layer.
    pub fn test(&self, slot: usize, offset: usize) -> (r: bool)
        requires
            slot < self@.len(),
            offset < 64,
        ensures
            r == wbit(self@[slot as int], offset as nat),
    {
        (self.words[slot] >> (offset as u64)) & 1u64 == 1u64
    }

    /// A copy of this layer's words.
    pub fn to_vec(&self) -> (r: Vec<u64>)
        ensures
            r@ == self@,
    {
        let mut r: Vec<u64> = Vec::new();
        let mut i: usize = 0;
        while i < self.words.len()
            invariant
                i <= self@.len(),
                r@ == self@.take(i as int),
            decreases self@.len() - i,
        {
            r.push(self.words[i]);
            proof {
                assert(r@ =~= self@.take(i as int + 1));
            }
            i = i + 1;
        }
        proof {
            assert(r@ =~= self@);
        }
        r
    }
}

} // verus!
