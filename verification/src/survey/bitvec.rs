//! Subsets of a word list as bit vectors.
use vstd::prelude::*;

use crate::solver::signature::idx_ok;
use crate::solver::wordset::{block_bit, in_blocks, lemma_extreme_blocks, lemma_set_bit};

verus! {

/// `list` holds its members in increasing order.
pub open spec fn increasing(list: Seq<usize>) -> bool {
    forall|s: int, t: int| 0 <= s < t < list.len() ==> list[s] < list[t]
}

/// Increasing lists with the same members are equal.
pub proof fn lemma_increasing_unique(a: Seq<usize>, b: Seq<usize>)
    requires
        increasing(a),
        increasing(b),
        forall|i: usize| #[trigger] a.contains(i) == b.contains(i),
    ensures
        a == b,
{
    lemma_increasing_upto(a, b, a.len());
    lemma_increasing_upto(b, a, b.len());
    assert(a =~= b);
}

proof fn lemma_increasing_upto(a: Seq<usize>, b: Seq<usize>, n: nat)
    requires
        increasing(a),
        increasing(b),
        forall|i: usize| #[trigger] a.contains(i) == b.contains(i),
        n <= a.len(),
    ensures
        n <= b.len(),
        forall|i: int| 0 <= i < n ==> a[i] == b[i],
    decreases n,
{
    if n > 0 {
        let i = n - 1;
        lemma_increasing_upto(a, b, i as nat);
        assert(a.contains(a[i]));
        assert(b.contains(a[i]));
        let j = choose|j: int| 0 <= j < b.len() && b[j] == a[i];
        if j < i {
            assert(a[j] == b[j]);
        }
        assert(b.contains(b[i]));
        assert(a.contains(b[i]));
        let k = choose|k: int| 0 <= k < a.len() && a[k] == b[i];
        if k < i {
            assert(a[k] == b[k]);
        }
    }
}

/// Compact bit vector for a subset of a word list.
#[derive(Debug, Clone)]
pub struct BitVec {
    bits: Vec<u64>,
    count: u32,
}

impl BitVec {
    /// Word `i` is in the subset.
    pub closed spec fn member(&self, i: int) -> bool {
        in_blocks(self.bits@, i)
    }

    /// How many indices the subset was made from.
    pub closed spec fn size(&self) -> nat {
        self.count as nat
    }

    /// The number of blocks of 64 bits.
    pub closed spec fn blocks(&self) -> nat {
        self.bits@.len()
    }

    /// The members in increasing order.
    pub open spec fn lists(&self, list: Seq<usize>) -> bool {
        increasing(list) && forall|i: usize| #[trigger] list.contains(i) == self.member(i as int)
    }

    /// The empty subset of a list of this many words.
    pub fn new(num_words: usize) -> (r: Self)
        ensures
            forall|i: int| !#[trigger] r.member(i),
            r.size() == 0,
            r.blocks() == (num_words + 63) / 64,
    {
        let blocks: usize = num_words / 64 + (if num_words % 64 == 0 { 0 } else { 1 });
        let mut bits: Vec<u64> = Vec::new();
        let mut b: usize = 0;
        while b < blocks
            invariant
                b <= blocks,
                bits@.len() == b,
                forall|t: int| 0 <= t < b ==> #[trigger] bits@[t] == 0,
            decreases blocks - b,
        {
            bits.push(0);
            b += 1;
        }
        proof {
            lemma_extreme_blocks();
        }
        BitVec { bits, count: 0 }
    }

    /// The subset of these indices.
    pub fn from_indices(indices: &[usize], num_words: usize) -> (r: Self)
        requires
            idx_ok(indices@, num_words as nat),
            indices@.len() <= u32::MAX,
        ensures
            forall|i: int| #[trigger] r.member(i) == (0 <= i <= usize::MAX && indices@.contains(i as usize)),
            r.size() == indices@.len(),
            r.blocks() == (num_words + 63) / 64,
    {
        let mut v = BitVec::new(num_words);
        proof {
            assert forall|i: int| !#[trigger] in_blocks(v.bits@, i) by {
                assert(!v.member(i));
            }
            assert(indices@.take(0) =~= Seq::empty());
        }
        let mut t: usize = 0;
        while t < indices.len()
            invariant
                t <= indices@.len(),
                idx_ok(indices@, num_words as nat),
                v.bits@.len() == (num_words + 63) / 64,
                forall|i: int|
                    #[trigger] in_blocks(v.bits@, i) == (0 <= i <= usize::MAX && indices@.take(t as int).contains(i as usize)),
            decreases indices@.len() - t,
        {
            let idx: usize = indices[t];
            let at: usize = idx / 64;
            let bit: u64 = (idx % 64) as u64;
            let ghost before = v.bits@;
            let old_block: u64 = v.bits[at];
            v.bits.set(at, old_block | (1u64 << bit));
            proof {
                lemma_set_bit(old_block, bit);
                let t0 = indices@.take(t as int);
                let t1 = indices@.take(t + 1);
                assert(t1 =~= t0.push(idx));
                assert forall|i: int| #[trigger] in_blocks(v.bits@, i) == (0 <= i <= usize::MAX && t1.contains(i as usize)) by {
                    assert(in_blocks(before, i) == (0 <= i <= usize::MAX && t0.contains(i as usize)));
                    if 0 <= i <= usize::MAX {
                        if t0.contains(i as usize) {
                            let x = choose|x: int| 0 <= x < t0.len() && t0[x] == i as usize;
                            assert(t1[x] == i as usize);
                        }
                        if i == idx {
                            assert(t1[t1.len() - 1] == i as usize);
                        } else if t1.contains(i as usize) {
                            let x = choose|x: int| 0 <= x < t1.len() && t1[x] == i as usize;
                            assert(t0[x] == i as usize);
                        }
                    }
                    if i >= 0 && i / 64 == at {
                        assert(block_bit(old_block | (1u64 << bit), i % 64) == (block_bit(old_block, i % 64) || i % 64 == bit));
                    }
                }
            }
            t += 1;
        }
        proof {
            assert(indices@.take(t as int) =~= indices@);
        }
        v.count = indices.len() as u32;
        v
    }

    /// How many indices the subset was made from.
    pub fn len(&self) -> (r: usize)
        ensures
            r == self.size(),
    {
        self.count as usize
    }

    /// The members in increasing order.
    pub fn to_indices(&self) -> (out: Vec<usize>)
        requires
            self.blocks() * 64 <= usize::MAX,
        ensures
            self.lists(out@),
    {
        let mut out: Vec<usize> = Vec::new();
        let total: usize = self.bits.len() * 64;
        let mut i: usize = 0;
        while i < total
            invariant
                i <= total,
                total == self.bits@.len() * 64,
                increasing(out@),
                forall|t: int| 0 <= t < out@.len() ==> (#[trigger] out@[t]) < i,
                forall|x: usize| #[trigger] out@.contains(x) == (x < i && in_blocks(self.bits@, x as int)),
            decreases total - i,
        {
            let block: u64 = self.bits[i / 64];
            let bit: u64 = (i % 64) as u64;
            let ghost before = out@;
            if (block >> bit) & 1 == 1 {
                out.push(i);
            }
            proof {
                assert(block_bit(block, (i % 64) as int) == in_blocks(self.bits@, i as int));
                assert forall|x: usize| #[trigger] out@.contains(x) == (x < i + 1 && in_blocks(self.bits@, x as int)) by {
                    assert(before.contains(x) == (x < i && in_blocks(self.bits@, x as int)));
                    if before.contains(x) {
                        let t = choose|t: int| 0 <= t < before.len() && before[t] == x;
                        assert(out@[t] == x);
                    }
                    if x == i && in_blocks(self.bits@, i as int) {
                        assert(out@[out@.len() - 1] == x);
                    }
                    if out@.contains(x) {
                        let t = choose|t: int| 0 <= t < out@.len() && out@[t] == x;
                        if t < before.len() {
                            assert(before[t] == x);
                        }
                    }
                }
            }
            i += 1;
        }
        out
    }

    /// Memory footprint in bytes.
    pub fn mem_bytes(&self) -> (r: usize)
        requires
            self.blocks() * 8 + 4 <= usize::MAX,
        ensures
            r == self.blocks() * 8 + 4,
    {
        self.bits.len() * 8 + 4
    }
}

} // verus!
