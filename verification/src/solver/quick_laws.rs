//! The quick key does not depend on the order of the words.
use vstd::prelude::*;

use crate::solver::trust::{quick_key, quick_mix, quick_sum, quick_xor};

verus! {

/// Taking a member out of a list takes its share out of the sum and of the xor.
proof fn lemma_remove(s: Seq<usize>, i: int)
    requires
        0 <= i < s.len(),
    ensures
        quick_sum(s, s.len()) == quick_sum(s.remove(i), (s.len() - 1) as nat).wrapping_add(quick_mix(s[i])),
        quick_xor(s, s.len()) == quick_xor(s.remove(i), (s.len() - 1) as nat) ^ quick_mix(s[i]),
    decreases s.len(),
{
    let t = s.remove(i);
    let n = (s.len() - 1) as nat;
    if i == n {
        lemma_same_upto(s, t, n);
    } else {
        let shorter = s.drop_last();
        lemma_remove(shorter, i);
        let p = (n - 1) as nat;
        assert(t[n - 1] == s[n as int]);
        lemma_same_upto(s, shorter, n);
        lemma_same_upto(shorter.remove(i), t, p);
        let x = quick_xor(t, p);
        let a = quick_mix(s[i]);
        let b = quick_mix(s[n as int]);
        assert((x ^ a) ^ b == (x ^ b) ^ a) by (bit_vector);
    }
}

proof fn lemma_same_upto(s: Seq<usize>, t: Seq<usize>, n: nat)
    requires
        n <= s.len(),
        n <= t.len(),
        forall|i: int| 0 <= i < n ==> s[i] == t[i],
    ensures
        quick_sum(s, n) == quick_sum(t, n),
        quick_xor(s, n) == quick_xor(t, n),
    decreases n,
{
    if n > 0 {
        lemma_same_upto(s, t, (n - 1) as nat);
    }
}

proof fn lemma_order_free_parts(s: Seq<usize>, t: Seq<usize>)
    requires
        s.to_multiset() == t.to_multiset(),
    ensures
        s.len() == t.len(),
        quick_sum(s, s.len()) == quick_sum(t, t.len()),
        quick_xor(s, s.len()) == quick_xor(t, t.len()),
    decreases s.len(),
{
    broadcast use vstd::seq_lib::group_to_multiset_ensures;

    assert(s.len() == s.to_multiset().len());
    assert(t.len() == t.to_multiset().len());
    if s.len() > 0 {
        let n = (s.len() - 1) as nat;
        let x = s[n as int];
        assert(s.to_multiset().count(x) > 0) by {
            assert(s.contains(x));
        }
        assert(t.contains(x));
        let i = choose|i: int| 0 <= i < t.len() && t[i] == x;
        lemma_remove(s, n as int);
        lemma_remove(t, i);
        assert(s.remove(n as int).to_multiset() =~= s.to_multiset().remove(x));
        assert(t.remove(i).to_multiset() =~= t.to_multiset().remove(x));
        lemma_order_free_parts(s.remove(n as int), t.remove(i));
    }
}

/// The same words in another order have the same quick key.
pub proof fn lemma_quick_key_order_free(s: Seq<usize>, t: Seq<usize>, masked: u32)
    requires
        s.to_multiset() == t.to_multiset(),
    ensures
        quick_key(s, masked) == quick_key(t, masked),
{
    lemma_order_free_parts(s, t);
}

} // verus!
