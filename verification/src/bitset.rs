//! Fixed-width bit array over subscriber ids.

use vstd::prelude::*;

use crate::config::BITSET_WORDS;
use crate::config::MAX_CONNECTIONS;

verus! {

/// A fixed-width bit array of `MAX_CONNECTIONS` bits, stored as
/// `BITSET_WORDS` 32-bit words. Bit `i` stands for subscriber id `i`.
#[derive(Clone, Copy, Debug)]
pub struct BitSet {
    words: [u32; BITSET_WORDS],
}

impl View for BitSet {
    type V = Seq<bool>;

    /// The abstract value: one boolean per subscriber id.
    closed spec fn view(&self) -> Seq<bool> {
        Seq::new(MAX_CONNECTIONS as nat, |i: int| self.spec_bit(i))
    }
}

impl BitSet {
    closed spec fn spec_bit(&self, i: int) -> bool {
        (self.words@[i / 32] >> ((i % 32) as u32)) & 1u32 == 1u32
    }

    /// All bits clear.
    pub open spec fn all_clear(s: Seq<bool>) -> bool {
        forall|i: int| 0 <= i < s.len() ==> !s[i]
    }

    /// The number of set bits among the first `n` entries.
    pub open spec fn ones(s: Seq<bool>, n: int) -> int
        decreases n,
    {
        if n <= 0 {
            0
        } else {
            Self::ones(s, n - 1) + if s[n - 1] {
                1int
            } else {
                0int
            }
        }
    }

    pub fn new() -> (r: Self)
        ensures
            r@.len() == MAX_CONNECTIONS,
            Self::all_clear(r@),
    {
        let r = BitSet { words: [0u32; BITSET_WORDS] };
        proof {
            assert forall|i: int| 0 <= i < MAX_CONNECTIONS implies !r@[i] by {
                let j = (i % 32) as u32;
                assert((0u32 >> j) & 1u32 == 0u32) by (bit_vector);
            }
        }
        r
    }

    pub fn set(&mut self, index: usize)
        requires
            index < MAX_CONNECTIONS,
        ensures
            final(self)@ == old(self)@.update(index as int, true),
    {
        let word = index / 32;
        let bit = index % 32;
        self.words[word] = self.words[word] | (1u32 << (bit as u32));
        proof {
            lemma_or_bit(old(self).words@[word as int], bit as u32);
            assert(self@ =~= old(self)@.update(index as int, true));
        }
    }

    pub fn unset(&mut self, index: usize)
        requires
            index < MAX_CONNECTIONS,
        ensures
            final(self)@ == old(self)@.update(index as int, false),
    {
        let word = index / 32;
        let bit = index % 32;
        self.words[word] = self.words[word] & !(1u32 << (bit as u32));
        proof {
            lemma_andnot_bit(old(self).words@[word as int], bit as u32);
            assert(self@ =~= old(self)@.update(index as int, false));
        }
    }

    pub fn get(&self, index: usize) -> (r: bool)
        requires
            index < MAX_CONNECTIONS,
        ensures
            r == self@[index as int],
    {
        let word = index / 32;
        let bit = index % 32;
        let r = self.words[word] & (1u32 << (bit as u32)) != 0;
        proof {
            lemma_mask_bit(self.words@[word as int], bit as u32);
        }
        r
    }

    /// The set bits, in increasing order.
    pub fn iter_ones(&self) -> (r: Vec<usize>)
        ensures
            forall|k: int| 0 <= k < r@.len() ==> r@[k] < MAX_CONNECTIONS && self@[r@[k] as int],
            forall|i: int|
                0 <= i < MAX_CONNECTIONS && self@[i] ==> exists|k: int|
                    0 <= k < r@.len() && r@[k] == i,
            forall|k1: int, k2: int| 0 <= k1 < k2 < r@.len() ==> r@[k1] < r@[k2],
    {
        let mut r: Vec<usize> = Vec::new();
        let mut i: usize = 0;
        while i < MAX_CONNECTIONS
            invariant
                i <= MAX_CONNECTIONS,
                forall|k: int| 0 <= k < r@.len() ==> r@[k] < i && self@[r@[k] as int],
                forall|j: int| 0 <= j < i && self@[j] ==> exists|k: int|
                    0 <= k < r@.len() && r@[k] == j,
                forall|k1: int, k2: int| 0 <= k1 < k2 < r@.len() ==> r@[k1] < r@[k2],
            decreases MAX_CONNECTIONS - i,
        {
            let ghost prev = r@;
            if self.get(i) {
                r.push(i);
            }
            proof {
                assert forall|j: int| 0 <= j < i + 1 && self@[j] implies exists|k: int|
                    0 <= k < r@.len() && r@[k] == j by {
                    if j < i {
                        let k = choose|k: int| 0 <= k < prev.len() && prev[k] == j;
                        assert(r@[k] == j);
                    } else {
                        assert(r@[r@.len() - 1] == j);
                    }
                }
            }
            i = i + 1;
        }
        r
    }

    /// How many bits are set.
    pub fn count_ones(&self) -> (r: usize)
        ensures
            r == Self::ones(self@, MAX_CONNECTIONS as int),
    {
        let mut count: usize = 0;
        let mut i: usize = 0;
        while i < MAX_CONNECTIONS
            invariant
                i <= MAX_CONNECTIONS,
                count == Self::ones(self@, i as int),
                count <= i,
            decreases MAX_CONNECTIONS - i,
        {
            if self.get(i) {
                count = count + 1;
            }
            i = i + 1;
        }
        count
    }

    /// Whether no bit is set.
    pub fn is_empty(&self) -> (r: bool)
        ensures
            r == Self::all_clear(self@),
    {
        let mut empty = true;
        let mut i: usize = 0;
        while i < BITSET_WORDS
            invariant
                i <= BITSET_WORDS,
                empty == forall|j: int| 0 <= j < i ==> self.words@[j] == 0,
            decreases BITSET_WORDS - i,
        {
            if self.words[i] != 0 {
                empty = false;
            }
            i = i + 1;
        }
        proof {
            if empty {
                assert forall|j: int| 0 <= j < MAX_CONNECTIONS implies !self@[j] by {
                    let w = self.words@[j / 32];
                    assert(w == 0);
                    let b = (j % 32) as u32;
                    assert((0u32 >> b) & 1u32 == 0u32) by (bit_vector);
                }
            } else {
                let j = choose|j: int| 0 <= j < BITSET_WORDS && self.words@[j] != 0;
                let b = lemma_nonzero_word_has_bit(self.words@[j]);
                assert(self@[j * 32 + b]);
            }
        }
        empty
    }
}

/// Every bitset's view is exactly `MAX_CONNECTIONS` bits wide, so the
/// update equations of `set` and `unset` apply at any legal index.
pub proof fn lemma_bitset_view_len(b: &BitSet)
    ensures
        b@.len() == MAX_CONNECTIONS,
{
}

/// In a nonzero word, some bit below 32 is set; returns one such position.
proof fn lemma_nonzero_word_has_bit(x: u32) -> (b: u32)
    requires
        x != 0,
    ensures
        b < 32,
        (x >> b) & 1u32 == 1u32,
    decreases x,
{
    if x & 1u32 == 1u32 {
        assert((x >> 0u32) & 1u32 == 1u32) by (bit_vector)
            requires
                x & 1u32 == 1u32,
        ;
        0u32
    } else {
        assert(x >> 1u32 != 0 && x >> 1u32 < x) by (bit_vector)
            requires
                x != 0 && x & 1u32 != 1u32,
        ;
        let b0 = lemma_nonzero_word_has_bit(x >> 1u32);
        assert(((x >> 1u32) >> b0) & 1u32 == 1u32 && b0 < 32 ==> b0 < 31) by (bit_vector);
        let b1: u32 = (b0 + 1) as u32;
        assert((x >> b1) & 1u32 == ((x >> 1u32) >> b0) & 1u32) by (bit_vector)
            requires
                b0 < 31,
                b1 == b0 + 1,
        ;
        b1
    }
}

/// Setting bit `b` of a word changes that bit alone.
proof fn lemma_or_bit(x: u32, b: u32)
    requires
        b < 32,
    ensures
        ((x | (1u32 << b)) >> b) & 1u32 == 1u32,
        forall|j: u32|
            j < 32 && j != b ==> ((x | (1u32 << b)) >> j) & 1u32 == (x >> j) & 1u32,
{
    assert(((x | (1u32 << b)) >> b) & 1u32 == 1u32) by (bit_vector)
        requires
            b < 32,
    ;
    assert forall|j: u32| j < 32 && j != b implies ((x | (1u32 << b)) >> j) & 1u32 == (x >> j)
        & 1u32 by {
        assert(j < 32 && b < 32 && j != b ==> ((x | (1u32 << b)) >> j) & 1u32 == (x >> j) & 1u32)
            by (bit_vector);
    }
}

/// Clearing bit `b` of a word changes that bit alone.
proof fn lemma_andnot_bit(x: u32, b: u32)
    requires
        b < 32,
    ensures
        ((x & !(1u32 << b)) >> b) & 1u32 == 0u32,
        forall|j: u32|
            j < 32 && j != b ==> ((x & !(1u32 << b)) >> j) & 1u32 == (x >> j) & 1u32,
{
    assert(((x & !(1u32 << b)) >> b) & 1u32 == 0u32) by (bit_vector)
        requires
            b < 32,
    ;
    assert forall|j: u32| j < 32 && j != b implies ((x & !(1u32 << b)) >> j) & 1u32 == (x >> j)
        & 1u32 by {
        assert(j < 32 && b < 32 && j != b ==> ((x & !(1u32 << b)) >> j) & 1u32 == (x >> j) & 1u32)
            by (bit_vector);
    }
}

/// Testing bit `b` of a word by masking agrees with shifting.
proof fn lemma_mask_bit(x: u32, b: u32)
    requires
        b < 32,
    ensures
        (x & (1u32 << b) != 0) == ((x >> b) & 1u32 == 1u32),
{
    assert((x & (1u32 << b) != 0) == ((x >> b) & 1u32 == 1u32)) by (bit_vector)
        requires
            b < 32,
    ;
}

} // verus!
