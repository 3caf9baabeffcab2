//! Compact sets of word indices.
use vstd::prelude::*;

verus! {

/// Bit `i` of a block.
pub open spec fn block_bit(b: u64, i: int) -> bool {
    0 <= i < 64 && (b >> (i as u64)) & 1 == 1
}

/// Index `i` is in the set that the blocks stand for.
pub open spec fn in_blocks(bits: Seq<u64>, i: int) -> bool {
    0 <= i && i / 64 < bits.len() && block_bit(bits[i / 64], i % 64)
}

pub proof fn lemma_set_bit(b: u64, k: u64)
    requires
        k < 64,
    ensures
        forall|i: int| #[trigger] block_bit(b | (1u64 << k), i) == (block_bit(b, i) || i == k),
        forall|i: int| #[trigger] block_bit(b & !(1u64 << k), i) == (block_bit(b, i) && i != k),
        (b & (1u64 << k) != 0) == block_bit(b, k as int),
{
    assert forall|i: int| #[trigger] block_bit(b | (1u64 << k), i) == (block_bit(b, i) || i == k) by {
        if 0 <= i < 64 {
            let j = i as u64;
            assert(j < 64 && k < 64 ==> (((b | (1u64 << k)) >> j) & 1 == 1) == ((b >> j) & 1 == 1 || j == k))
                by (bit_vector);
        }
    }
    assert forall|i: int| #[trigger] block_bit(b & !(1u64 << k), i) == (block_bit(b, i) && i != k) by {
        if 0 <= i < 64 {
            let j = i as u64;
            assert(j < 64 && k < 64 ==> (((b & !(1u64 << k)) >> j) & 1 == 1) == ((b >> j) & 1 == 1 && j != k))
                by (bit_vector);
        }
    }
    assert((b & (1u64 << k) != 0) == ((b >> k) & 1 == 1)) by (bit_vector)
        requires
            k < 64,
    ;
}

proof fn lemma_full_block(r: u64)
    requires
        r < 64,
    ensures
        forall|i: int| #[trigger] block_bit(!(u64::MAX << r), i) == (0 <= i < r),
{
    assert forall|i: int| #[trigger] block_bit(!(u64::MAX << r), i) == (0 <= i < r) by {
        if 0 <= i < 64 {
            let j = i as u64;
            assert(j < 64 && r < 64 ==> (((!(0xffff_ffff_ffff_ffffu64 << r)) >> j) & 1 == 1) == (j < r)) by (bit_vector);
        }
    }
}

pub proof fn lemma_extreme_blocks()
    ensures
        forall|i: int| #[trigger] block_bit(u64::MAX, i) == (0 <= i < 64),
        forall|i: int| !#[trigger] block_bit(0, i),
{
    assert forall|i: int| #[trigger] block_bit(u64::MAX, i) == (0 <= i < 64) by {
        let j = i as u64;
        assert(j < 64 ==> (0xffff_ffff_ffff_ffffu64 >> j) & 1 == 1) by (bit_vector);
    }
    assert forall|i: int| !#[trigger] block_bit(0, i) by {
        let j = i as u64;
        assert(j < 64 ==> (0u64 >> j) & 1 == 0) by (bit_vector);
    }
}

/// A block with no bits is zero.
proof fn lemma_no_bits(b: u64)
    requires
        forall|i: int| 0 <= i < 64 ==> !block_bit(b, i),
    ensures
        b == 0,
{
    if b != 0 {
        let i = lemma_some_bit_below(b, 64);
        assert(block_bit(b, i));
    }
}

/// A block that is not zero in its lowest `n` bits has a bit there.
proof fn lemma_some_bit_below(b: u64, n: u64) -> (i: int)
    requires
        0 < n <= 64,
        n == 64 ==> b != 0,
        n < 64 ==> b & !(0xffff_ffff_ffff_ffffu64 << n) != 0,
    ensures
        0 <= i < 64,
        block_bit(b, i),
    decreases n,
{
    let p: u64 = (n - 1) as u64;
    if block_bit(b, p as int) {
        p as int
    } else if n == 64 {
        assert(b & !(0xffff_ffff_ffff_ffffu64 << p) != 0) by (bit_vector)
            requires
                p == 63,
                b != 0,
                (b >> p) & 1 != 1,
        ;
        lemma_some_bit_below(b, p)
    } else {
        assert(p > 0 && b & !(0xffff_ffff_ffff_ffffu64 << p) != 0) by (bit_vector)
            requires
                p < 63,
                n == p + 1,
                b & !(0xffff_ffff_ffff_ffffu64 << n) != 0,
                (b >> p) & 1 != 1,
        ;
        lemma_some_bit_below(b, p)
    }
}

/// Compact set of word indices. Words are numbered from zero within their length
/// group; a bit tells whether a word is still possible.
#[derive(Clone, Debug, PartialEq, Eq, Hash)]
pub struct WordSet {
    bits: Vec<u64>,
    len: usize,
}

impl View for WordSet {
    type V = Set<usize>;

    closed spec fn view(&self) -> Set<usize> {
        Set::new(|i: usize| in_blocks(self.bits@, i as int))
    }
}

impl WordSet {
    /// The count is right, and every index fits a machine word.
    pub closed spec fn wf(&self) -> bool {
        self@.finite() && self.len == self@.len() && self.bits@.len() <= usize::MAX / 64 + 1
    }

    /// Indices below this fit.
    pub closed spec fn capacity(&self) -> nat {
        self.bits@.len() * 64
    }

    /// The blocks.
    pub closed spec fn blocks(&self) -> Seq<u64> {
        self.bits@
    }

    /// The full set of the indices below `n`.
    pub fn full(n: usize) -> (r: Self)
        ensures
            r.wf(),
            r@ == Set::new(|i: usize| i < n),
            r.capacity() == 64 * ((n + 63) / 64),
    {
        let whole: usize = n / 64;
        let rest: usize = n % 64;
        let mut bits: Vec<u64> = Vec::new();
        let mut b: usize = 0;
        while b < whole
            invariant
                b <= whole,
                bits@.len() == b,
                forall|t: int| 0 <= t < b ==> #[trigger] bits@[t] == u64::MAX,
            decreases whole - b,
        {
            bits.push(u64::MAX);
            b += 1;
        }
        if rest != 0 {
            bits.push(!(u64::MAX << (rest as u64)));
        }
        let r = WordSet { bits, len: n };
        proof {
            lemma_extreme_blocks();
            if rest != 0 {
                lemma_full_block(rest as u64);
            }
            assert forall|i: usize| in_blocks(r.bits@, i as int) == (i < n) by {
                let q = (i / 64) as int;
                if q < whole {
                    assert(r.bits@[q] == u64::MAX);
                    assert(block_bit(u64::MAX, i as int % 64));
                } else if q == whole && rest != 0 {
                    assert(r.bits@[q] == !(u64::MAX << (rest as u64)));
                    assert(block_bit(r.bits@[q], i as int % 64) == (0 <= i as int % 64 < rest));
                }
            }
            assert(r@ =~= Set::new(|i: usize| i < n));
            lemma_below_len(n);
        }
        r
    }

    /// An empty set with room for `n` words.
    pub fn empty(n: usize) -> (r: Self)
        ensures
            r.wf(),
            r@ == Set::<usize>::empty(),
            r.capacity() == 64 * ((n + 63) / 64),
    {
        let blocks: usize = if n % 64 == 0 { n / 64 } else { n / 64 + 1 };
        let mut bits: Vec<u64> = Vec::new();
        let mut b: usize = 0;
        while b < blocks
            invariant
                b <= blocks,
                bits@.len() == b,
                forall|t: int| 0 <= t < b ==> #[trigger] bits@[t] == 0,
            decreases blocks - b,
        {
            bits.push(0);
            b += 1;
        }
        let r = WordSet { bits, len: 0 };
        proof {
            lemma_extreme_blocks();
            assert(r@ =~= Set::<usize>::empty()) by {
                assert forall|i: usize| !in_blocks(r.bits@, i as int) by {
                    if (i / 64) < r.bits@.len() {
                        assert(r.bits@[i as int / 64] == 0);
                    }
                }
            }
        }
        r
    }

    /// Number of words in the set.
    pub fn len(&self) -> (r: usize)
        requires
            self.wf(),
        ensures
            self@.finite(),
            r == self@.len(),
    {
        self.len
    }

    /// Whether the set is empty.
    pub fn is_empty(&self) -> (r: bool)
        requires
            self.wf(),
        ensures
            r == (self@ == Set::<usize>::empty()),
    {
        proof {
            if self@.len() == 0 {
                assert(self@ =~= Set::<usize>::empty());
            }
        }
        self.len == 0
    }

    /// Whether index `i` is in the set.
    pub fn contains(&self, i: usize) -> (r: bool)
        ensures
            r == self@.contains(i),
    {
        let block: usize = i / 64;
        let bit: u64 = (i % 64) as u64;
        if block < self.bits.len() {
            proof {
                lemma_set_bit(self.bits@[block as int], bit);
            }
            self.bits[block] & (1u64 << bit) != 0
        } else {
            false
        }
    }

    /// Add index `i` to the set. Adding it again changes nothing.
    pub fn insert(&mut self, i: usize)
        requires
            old(self).wf(),
            i < old(self).capacity(),
            old(self)@.contains(i) || old(self)@.len() < usize::MAX,
        ensures
            final(self).wf(),
            final(self)@ == old(self)@.insert(i),
            final(self).capacity() == old(self).capacity(),
            old(self)@.contains(i) ==> *final(self) == *old(self),
            !old(self)@.contains(i) ==> final(self)@.len() == old(self)@.len() + 1,
    {
        let ghost before = *self;
        if !self.contains(i) {
            let block: usize = i / 64;
            let bit: u64 = (i % 64) as u64;
            let b: u64 = self.bits[block];
            self.bits.set(block, b | (1u64 << bit));
            self.len = self.len + 1;
            proof {
                lemma_set_bit(b, bit);
                assert forall|j: usize| in_blocks(self.bits@, j as int) == (in_blocks(before.bits@, j as int) || j == i) by {
                    if j as int / 64 == block {
                        assert(block_bit(b | (1u64 << bit), j as int % 64) == (block_bit(b, j as int % 64) || j as int % 64 == bit));
                    }
                }
                assert(self@ =~= before@.insert(i));
            }
        } else {
            proof {
                assert(self@ =~= before@.insert(i));
            }
        }
    }

    /// Walk through the indices in rising order.
    pub fn iter(&self) -> (r: WordSetIter<'_>)
        requires
            self.wf(),
        ensures
            r.wf(),
            r@ == self@,
    {
        let remaining: u64 = if self.bits.len() > 0 {
            self.bits[0]
        } else {
            0
        };
        let r = WordSetIter { bits: self.bits.as_slice(), block: 0, remaining };
        proof {
            lemma_extreme_blocks();
            assert(r@ =~= self@) by {
                assert forall|i: usize| r.left(i as int) == in_blocks(self.bits@, i as int) by {
                    assert(block_bit(0, i as int % 64) == false);
                }
            }
        }
        r
    }

    /// The blocks, for hashing.
    pub fn as_bits(&self) -> (r: &[u64])
        ensures
            r@ == self.blocks(),
            forall|i: usize| #[trigger] self@.contains(i) == in_blocks(r@, i as int),
    {
        self.bits.as_slice()
    }
}

proof fn lemma_below_len(n: usize)
    ensures
        Set::new(|i: usize| i < n).finite(),
        Set::new(|i: usize| i < n).len() == n,
    decreases n,
{
    let s = Set::new(|i: usize| i < n);
    if n == 0 {
        assert(s =~= Set::<usize>::empty());
    } else {
        let m = (n - 1) as usize;
        lemma_below_len(m);
        assert(s =~= Set::new(|i: usize| i < m).insert(m));
    }
}

/// There are finitely many indices.
proof fn lemma_indices_finite(s: Set<usize>)
    ensures
        s.finite(),
{
    lemma_below_len(usize::MAX);
    let all = Set::new(|i: usize| i < usize::MAX).insert(usize::MAX);
    assert(s.subset_of(all));
    vstd::set_lib::lemma_set_subset_finite(all, s);
}

/// A walk through the indices of a set, in rising order.
pub struct WordSetIter<'a> {
    bits: &'a [u64],
    block: usize,
    remaining: u64,
}

impl<'a> View for WordSetIter<'a> {
    type V = Set<usize>;

    /// The indices still to come.
    closed spec fn view(&self) -> Set<usize> {
        Set::new(|i: usize| self.left(i as int))
    }
}

impl<'a> WordSetIter<'a> {
    /// Index `i` is still to come.
    spec fn left(&self, i: int) -> bool {
        if i / 64 == self.block {
            i >= 0 && block_bit(self.remaining, i % 64) && self.block < self.bits@.len()
        } else {
            i / 64 > self.block && in_blocks(self.bits@, i)
        }
    }

    pub closed spec fn wf(&self) -> bool {
        (self.block >= self.bits@.len() ==> self.remaining == 0) && self.block <= self.bits@.len() && self.bits@.len() <= usize::MAX / 64 + 1
    }

    /// The next index: the smallest one still to come.
    pub fn next(&mut self) -> (r: Option<usize>)
        requires
            old(self).wf(),
        ensures
            final(self).wf(),
            r is None == (old(self)@ == Set::<usize>::empty()),
            r is None ==> final(self)@ == old(self)@,
            r matches Some(i) ==> old(self)@.contains(i) && final(self)@ == old(self)@.remove(i) && forall|j: usize| #[trigger]
                old(self)@.contains(j) ==> i <= j,
    {
        let ghost start = *self;
        proof {
            lemma_extreme_blocks();
        }
        while self.remaining == 0
            invariant
                self.wf(),
                self.bits == start.bits,
                start == *old(self),
                forall|i: int| self.left(i) == #[trigger] start.left(i),
            decreases self.bits@.len() - self.block,
        {
            proof {
                lemma_extreme_blocks();
            }
            if self.block >= self.bits.len() {
                proof {
                    assert(self@ =~= Set::<usize>::empty()) by {
                        assert forall|i: usize| !self.left(i as int) by {}
                    }
                    assert(start@ =~= Set::<usize>::empty()) by {
                        assert forall|i: usize| !start.left(i as int) by {
                            assert(self.left(i as int) == start.left(i as int));
                        }
                    }
                }
                return None;
            }
            let ghost before = *self;
            self.block = self.block + 1;
            self.remaining = if self.block < self.bits.len() {
                self.bits[self.block]
            } else {
                0
            };
            proof {
                assert forall|i: int| self.left(i) == #[trigger] start.left(i) by {
                    assert(before.left(i) == start.left(i));
                    assert(!block_bit(0, i % 64));
                }
            }
        }
        let mut bit: u64 = 0;
        while (self.remaining >> bit) & 1 != 1
            invariant
                bit < 64,
                self.remaining != 0,
                forall|k: int| 0 <= k < bit ==> !block_bit(self.remaining, k),
            decreases 64 - bit,
        {
            proof {
                assert(!block_bit(self.remaining, bit as int));
                if bit == 63 {
                    lemma_no_bits(self.remaining);
                }
            }
            bit += 1;
        }
        let ghost mid = *self;
        proof {
            lemma_set_bit(self.remaining, bit);
            assert(self.block < self.bits@.len());
            assert(self.left(self.block as int * 64 + bit as int));
        }
        self.remaining = self.remaining & !(1u64 << bit);
        let i: usize = self.block * 64 + bit as usize;
        proof {
            assert forall|j: usize| self.left(j as int) == (start.left(j as int) && j != i) by {
                assert(mid.left(j as int) == start.left(j as int));
                if j as int / 64 == self.block {
                    assert(block_bit(self.remaining, j as int % 64) == (block_bit(mid.remaining, j as int % 64) && j as int % 64 != bit));
                }
            }
            assert(self@ =~= start@.remove(i));
            assert(start.left(i as int));
            assert(start@.contains(i));
            assert forall|j: usize| #[trigger] start@.contains(j) implies i <= j by {
                assert(mid.left(j as int) == start.left(j as int));
                if j as int / 64 == self.block {
                    if (j as int % 64) < bit {
                        assert(!block_bit(mid.remaining, j as int % 64));
                    }
                }
            }
        }
        Some(i)
    }

    /// The indices still to come, in rising order.
    pub fn collect(self) -> (r: Vec<usize>)
        requires
            self.wf(),
        ensures
            forall|i: int, j: int| 0 <= i < j < r@.len() ==> #[trigger] r@[i] < #[trigger] r@[j],
            forall|i: usize| #[trigger] r@.contains(i) == self@.contains(i),
    {
        proof {
            lemma_indices_finite(self@);
        }
        let mut it = self;
        let mut r: Vec<usize> = Vec::new();
        let mut more: bool = true;
        while more
            invariant
                it.wf(),
                it@.finite(),
                !more ==> it@ == Set::<usize>::empty(),
                forall|i: int, j: int| 0 <= i < j < r@.len() ==> #[trigger] r@[i] < #[trigger] r@[j],
                forall|i: usize| #[trigger] self@.contains(i) == (r@.contains(i) || it@.contains(i)),
                forall|i: int, j: usize| 0 <= i < r@.len() && #[trigger] it@.contains(j) ==> #[trigger] r@[i] < j,
            decreases more as int, it@.len(),
        {
            let ghost before = it@;
            let ghost r0 = r@;
            match it.next() {
                Some(i) => {
                    r.push(i);
                    proof {
                        assert forall|x: usize| #[trigger] self@.contains(x) == (r@.contains(x) || it@.contains(x)) by {
                            assert(self@.contains(x) == (r0.contains(x) || before.contains(x)));
                            if r0.contains(x) {
                                let t = choose|t: int| 0 <= t < r0.len() && r0[t] == x;
                                assert(r@[t] == x);
                            }
                            if x == i {
                                assert(r@[r@.len() - 1] == x);
                            }
                            if r@.contains(x) {
                                let t = choose|t: int| 0 <= t < r@.len() && r@[t] == x;
                                if t < r0.len() {
                                    assert(r0[t] == x);
                                }
                            }
                        }
                    }
                },
                None => {
                    more = false;
                },
            }
        }
        r
    }

    /// How many indices are still to come.
    pub fn count(self) -> (r: usize)
        requires
            self.wf(),
        ensures
            self@.finite(),
            r == self@.len(),
    {
        let ghost all = self@;
        let v = self.collect();
        proof {
            assert(v@.no_duplicates());
            v@.unique_seq_to_set();
            assert(v@.to_set() =~= all) by {
                assert forall|i: usize| v@.to_set().contains(i) == all.contains(i) by {
                    assert(v@.contains(i) == all.contains(i));
                }
            }
        }
        v.len()
    }
}

} // verus!
