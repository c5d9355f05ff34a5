//! A growable array of booleans, packed 64 to a word.

use vstd::prelude::*;

verus! {

/// The number of bits in a word of the array.
pub const WORD_BITS: usize = 64;

/// Bit `k` of `w`.
pub open spec fn bit(w: u64, k: u64) -> bool {
    w & (1u64 << k) != 0
}

/// Setting or clearing bit `k` changes that bit and no other.
proof fn lemma_write_bit(w: u64, k: u64, v: bool, j: u64)
    by (bit_vector)
    requires
        k < 64,
        j < 64,
    ensures
        bit(
            if v {
                (w & !(1u64 << k)) | (1u64 << k)
            } else {
                w & !(1u64 << k)
            },
            j,
        ) == (if j == k {
            v
        } else {
            bit(w, j)
        }),
{
}

/// A word of ones has every bit set, a word of zeros none.
proof fn lemma_fill_bit(k: u64)
    by (bit_vector)
    requires
        k < 64,
    ensures
        bit(!0u64, k),
        !bit(0u64, k),
{
}

/// An array of booleans in words of 64 bits: boolean `i` is bit `i % 64`
/// of word `i / 64`.
pub struct BoolArr {
    vec: Vec<u64>,
    size: usize,
}

impl BoolArr {
    /// The booleans of the array, in order.
    pub closed spec fn view(&self) -> Seq<bool> {
        Seq::new(self.size as nat, |i: int| bit(self.vec@[i / 64], (i % 64) as u64))
    }

    /// The words are exactly as many as the booleans need.
    pub closed spec fn wf(&self) -> bool {
        self.vec@.len() == (self.size + 63) / 64
    }

    /// An array of `init_size` booleans, each `init_val`.
    pub fn new(init_size: usize, init_val: bool) -> (r: BoolArr)
        ensures
            r.wf(),
            r@.len() == init_size,
            forall|i: int| 0 <= i < init_size ==> r@[i] == init_val,
    {
        let mut sz = init_size / WORD_BITS;
        if init_size % WORD_BITS != 0 {
            sz += 1;
        }
        let word: u64 = if init_val {
            !0
        } else {
            0
        };
        let r = BoolArr { vec: vec![word; sz], size: init_size };
        proof {
            assert forall|i: int| 0 <= i < init_size implies r@[i] == init_val by {
                lemma_fill_bit((i % 64) as u64);
            }
        }
        r
    }

    /// The number of booleans in the array.
    pub fn len(&self) -> (n: usize)
        ensures
            n == self@.len(),
    {
        self.size
    }

    /// The boolean at index `i`.
    pub fn get(&self, i: usize) -> (b: bool)
        requires
            self.wf(),
            i < self@.len(),
        ensures
            b == self@[i as int],
    {
        (self.vec[i / WORD_BITS] & (1u64 << (i % WORD_BITS))) != 0
    }

    /// Writes `v` at index `i`.
    pub fn set(&mut self, i: usize, v: bool)
        requires
            old(self).wf(),
            i < old(self)@.len(),
        ensures
            final(self).wf(),
            final(self)@ == old(self)@.update(i as int, v),
    {
        let at = i / WORD_BITS;
        let mask = 1u64 << (i % WORD_BITS);
        let old_word = self.vec[at];
        let mut word = old_word & !mask;
        if v {
            word |= mask;
        }
        self.vec.set(at, word);
        proof {
            assert forall|k: int| 0 <= k < self.size implies self@[k] == old(self)@.update(
                i as int,
                v,
            )[k] by {
                if k / 64 == i / 64 {
                    lemma_write_bit(old_word, (i % 64) as u64, v, (k % 64) as u64);
                }
            }
        }
    }

    /// Adds `v` at the end.
    pub fn push(&mut self, v: bool)
        requires
            old(self).wf(),
            old(self)@.len() < usize::MAX,
        ensures
            final(self).wf(),
            final(self)@ == old(self)@.push(v),
    {
        if self.size % WORD_BITS == 0 {
            self.vec.push(0);
        }
        self.size += 1;
        proof {
            assert forall|k: int| 0 <= k < old(self).size implies self@[k] == old(self)@[k] by {}
        }
        self.set(self.size - 1, v);
    }
}

} // verus!
