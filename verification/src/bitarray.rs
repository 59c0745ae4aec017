//! A packed bit vector recording which L1 positions the L2 walk has visited.
//!
//! Supports setting a bit and finding the next set bit at or after a given
//! position; whole all-zero words are skipped when searching. Bits are never
//! cleared within one join.

use vstd::prelude::*;

verus! {

/// Whether bit `i` is set in the packed words.
pub open spec fn word_bit(w: u64, b: int) -> bool {
    (w >> (b as u64)) & 1 == 1
}

/// A packed bit vector of fixed length, all bits initially clear.
pub struct FilteredBitArray {
    words: Vec<u64>,
    n_bits: usize,
}

impl FilteredBitArray {
    /// The abstract contents: one boolean per bit.
    pub closed spec fn view(&self) -> Seq<bool> {
        Seq::new(self.n_bits as nat, |i: int| word_bit(self.words@[i / 64], i % 64))
    }

    /// The words cover every bit position.
    pub closed spec fn wf(&self) -> bool {
        self.words@.len() * 64 >= self.n_bits && self.words@.len() <= usize::MAX / 64
    }

    pub open spec fn len(&self) -> nat {
        self.view().len()
    }

    /// Allocate `n` bits, all clear.
    pub fn from_len_zeroed(n: usize) -> (r: Self)
        requires
            n <= usize::MAX - 63,
        ensures
            r.wf(),
            r@.len() == n,
            forall|i: int| 0 <= i < n ==> !r@[i],
    {
        let n_words: usize = (n + 63) / 64;
        let mut words: Vec<u64> = Vec::new();
        let mut k: usize = 0;
        while k < n_words
            invariant
                words@.len() == k,
                k <= n_words,
                forall|j: int| 0 <= j < k ==> words@[j] == 0u64,
            decreases n_words - k,
        {
            words.push(0u64);
            k += 1;
        }
        proof {
            assert(n_words * 64 >= n) by (nonlinear_arith)
                requires n_words == (n + 63) / 64;
            assert(forall|b: u64| b < 64 ==> (0u64 >> b) & 1 == 0) by (bit_vector);
        }
        let r = FilteredBitArray { words, n_bits: n };
        proof {
            assert forall|i: int| 0 <= i < n implies !r@[i] by {
                assert(0 <= i / 64 < r.words@.len()) by (nonlinear_arith)
                    requires r.words@.len() * 64 >= n, 0 <= i < n;
            }
        }
        r
    }

    /// Whether bit `i` is set.
    pub fn get_bit(&self, i: usize) -> (r: bool)
        requires
            self.wf(),
            i < self@.len(),
        ensures
            r == self@[i as int],
    {
        proof {
            assert(0 <= i as int / 64 < self.words@.len()) by (nonlinear_arith)
                requires self.words@.len() * 64 >= self.n_bits, 0 <= i < self.n_bits;
        }
        let w = self.words[i / 64];
        let b = (i % 64) as u64;
        proof {
            assert(((w >> b) & 1 == 1) == ((w >> b) & 1 == 1));
        }
        (w >> b) & 1 == 1
    }

    /// Set bit `i`; every other bit keeps its value.
    pub fn set_bit(&mut self, i: usize)
        requires
            old(self).wf(),
            i < old(self)@.len(),
        ensures
            final(self).wf(),
            final(self)@ == old(self)@.update(i as int, true),
    {
        proof {
            assert(0 <= i as int / 64 < self.words@.len()) by (nonlinear_arith)
                requires self.words@.len() * 64 >= self.n_bits, 0 <= i < self.n_bits;
        }
        let wi = i / 64;
        let b = (i % 64) as u64;
        let w = self.words[wi];
        let w2 = w | (1u64 << b);
        self.words.set(wi, w2);
        proof {
            assert(forall|m: u64, k: u64| m < 64 && k < 64 ==>
                ((w | (1u64 << k)) >> m) & 1 == (if m == k { 1u64 } else { (w >> m) & 1 })) by (bit_vector);
            assert forall|j: int| 0 <= j < self.n_bits implies
                self@[j] == old(self)@.update(i as int, true)[j] by {
                assert(0 <= j / 64 < self.words@.len()) by (nonlinear_arith)
                    requires self.words@.len() * 64 >= self.n_bits, 0 <= j < self.n_bits;
                if j == i as int {
                    assert(word_bit(w2, j % 64));
                } else if j / 64 == i as int / 64 {
                    assert(j % 64 != i as int % 64) by (nonlinear_arith)
                        requires j / 64 == i as int / 64, j != i as int, 0 <= j, 0 <= i as int;
                    assert(word_bit(w2, j % 64) == word_bit(w, j % 64));
                } else {
                    assert(self.words@[j / 64] == old(self).words@[j / 64]);
                }
            }
            assert(self@ =~= old(self)@.update(i as int, true));
        }
    }

    /// The smallest set bit at or after `from`, if any; whole zero words
    /// are skipped rather than scanned bit by bit.
    pub fn next_set_bit(&self, from: usize) -> (r: Option<usize>)
        requires
            self.wf(),
            from <= self@.len(),
        ensures
            match r {
                Some(b) => from <= b < self@.len() && self@[b as int]
                    && forall|m: int| from <= m < b ==> !self@[m],
                None => forall|m: int| from <= m < self@.len() ==> !self@[m],
            },
    {
        let mut i: usize = from;
        while i < self.n_bits
            invariant
                self.wf(),
                from <= i,
                i <= self.n_bits + 64,
                forall|m: int| from <= m < i && m < self.n_bits ==> !self@[m],
            decreases self.n_bits + 64 - i,
        {
            proof {
                assert(0 <= i as int / 64 < self.words@.len()) by (nonlinear_arith)
                    requires self.words@.len() * 64 >= self.n_bits, 0 <= i < self.n_bits;
            }
            let wi = i / 64;
            let off = i % 64;
            let w = self.words[wi];
            if w == 0 {
                // No bit of this word is set: skip to the next word boundary.
                proof {
                    assert(forall|b: u64| b < 64 ==> (0u64 >> b) & 1 == 0) by (bit_vector);
                    assert forall|m: int| i <= m < i + (64 - off) && m < self.n_bits implies !self@[m] by {
                        assert(m / 64 == i as int / 64) by (nonlinear_arith)
                            requires i as int <= m < i as int + 64 - i as int % 64, 0 <= i as int;
                    }
                    assert(self.n_bits <= (usize::MAX / 64) * 64) by (nonlinear_arith)
                        requires
                            self.words@.len() * 64 >= self.n_bits,
                            self.words@.len() <= usize::MAX / 64;
                }
                i = i - off + 64;
            } else {
                let b = (off) as u64;
                if (w >> b) & 1 == 1 {
                    return Some(i);
                }
                i = i + 1;
            }
        }
        None
    }
}

} // verus!
