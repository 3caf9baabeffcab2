//! Search over the states of the pattern graph.
use vstd::prelude::*;

use crate::game::letters::{
    bit, bit_of, holds, is_lower, lemma_add_letter, lemma_has_ops, lemma_has_zero, lemma_mask_bits, letters,
    lower_word, place_mask,
};
use crate::game::rules::{at, is_open, lemma_same_open, lemma_value, lemma_value_is, occurs, same_places, value};
use crate::seqs::{lemma_filter, lemma_filter_filter};
use crate::solver::memoized::all_indices;
use crate::solver::partition::group;
use crate::solver::patterns::{fits, is_pattern, lemma_matching, lemma_reveal, matching, reveal_at};
use crate::solver::signature::{chosen, idx_ok, list_ok, position_value, sig, sig_rows};
use crate::solver::trust::{agree, reachable};

verus! {

/// Word `w` holds no wrong guess that the pattern does not show.
pub open spec fn no_wrong(w: Seq<u8>, p: Seq<u8>, imp: u32) -> bool {
    forall|l: u8| #[trigger] holds(imp, l) && occurs(l, w) ==> occurs(l, p)
}

/// The words that are possible in a state.
pub open spec fn valid(words: Seq<Vec<u8>>, p: Seq<u8>, imp: u32) -> Seq<usize> {
    matching(words, p).filter(|i: usize| no_wrong(words[i as int]@, p, imp))
}

/// Wrong guesses are not shown.
pub open spec fn state_ok(p: Seq<u8>, imp: u32) -> bool {
    forall|l: u8| #[trigger] holds(imp, l) ==> !occurs(l, p)
}

/// The letters of the pattern are those of the set.
pub open spec fn shows_letters(rev: u32, p: Seq<u8>) -> bool {
    forall|l: u8| #[trigger] holds(rev, l) == (l != 0 && occurs(l, p))
}

/// How many of the first `n` places are hidden.
pub open spec fn hidden_upto(p: Seq<u8>, n: nat) -> nat
    decreases n,
{
    if n == 0 {
        0
    } else {
        hidden_upto(p, (n - 1) as nat) + if p[n - 1] == 0 {
            1nat
        } else {
            0nat
        }
    }
}

/// How many places are hidden.
pub open spec fn hidden(p: Seq<u8>) -> nat {
    hidden_upto(p, p.len())
}

proof fn lemma_hidden_bound(p: Seq<u8>, n: nat)
    ensures
        hidden_upto(p, n) <= n,
    decreases n,
{
    if n > 0 {
        lemma_hidden_bound(p, (n - 1) as nat);
    }
}

proof fn lemma_hidden_falls(p: Seq<u8>, q: Seq<u8>, n: nat)
    requires
        p.len() == q.len(),
        n <= p.len(),
        forall|j: int| 0 <= j < p.len() && #[trigger] q[j] == 0 ==> p[j] == 0,
    ensures
        hidden_upto(q, n) <= hidden_upto(p, n),
        forall|j: int| 0 <= j < n && #[trigger] q[j] != 0 && p[j] == 0 ==> hidden_upto(q, n) < hidden_upto(p, n),
    decreases n,
{
    if n > 0 {
        lemma_hidden_falls(p, q, (n - 1) as nat);
        assert(q[n - 1] == 0 ==> p[n - 1] == 0);
    }
}

/// A hit hides fewer places.
pub proof fn lemma_hit_hides_less(w: Seq<u8>, p: Seq<u8>, l: u8)
    requires
        fits(w, p),
        is_pattern(p),
        lower_word(w),
        w.len() <= 32,
        is_lower(l),
        !occurs(l, p),
        occurs(l, w),
    ensures
        hidden(reveal_at(p, l, place_mask(w, l))) < hidden(p),
        hidden(p) <= 32,
{
    let q = reveal_at(p, l, place_mask(w, l));
    lemma_reveal(w, p, l);
    lemma_mask_bits(w, l);
    lemma_hidden_bound(p, p.len());
    assert forall|j: int| 0 <= j < p.len() && #[trigger] q[j] == 0 implies p[j] == 0 by {}
    lemma_hidden_falls(p, q, p.len());
    let j = choose|j: int| #[trigger] at(w, j, l);
    assert(bit(place_mask(w, l), j));
    assert(q[j] == l && p[j] == 0);
}

pub proof fn lemma_hidden_small(p: Seq<u8>)
    requires
        p.len() <= 32,
    ensures
        hidden(p) <= 32,
{
    lemma_hidden_bound(p, p.len());
}

/// The members of `valid`.
pub proof fn lemma_valid(words: Seq<Vec<u8>>, p: Seq<u8>, imp: u32)
    requires
        words.len() <= usize::MAX,
    ensures
        idx_ok(valid(words, p, imp), words.len()),
        valid(words, p, imp).no_duplicates(),
        forall|i: usize| #[trigger]
            valid(words, p, imp).contains(i) == (i < words.len() && fits(words[i as int]@, p) && no_wrong(
                words[i as int]@,
                p,
                imp,
            )),
{
    lemma_matching(words, p);
    let m = matching(words, p);
    let f = |i: usize| no_wrong(words[i as int]@, p, imp);
    lemma_filter(m, f);
    let v = valid(words, p, imp);
    assert forall|t: int| 0 <= t < v.len() implies #[trigger] v[t] < words.len() by {
        assert(m.contains(v[t]));
    }
}

/// States are reachable positions.
pub proof fn lemma_state_reachable(words: Seq<Vec<u8>>, k: nat, p: Seq<u8>, imp: u32, rev: u32)
    requires
        list_ok(words, k),
        words.len() <= usize::MAX,
        shows_letters(rev, p),
        state_ok(p, imp),
        valid(words, p, imp).len() > 0,
    ensures
        reachable(words, all_indices(words.len()), 0, valid(words, p, imp), rev | imp),
{
    let idx = valid(words, p, imp);
    let all = all_indices(words.len());
    let m = rev | imp;
    lemma_valid(words, p, imp);
    lemma_has_ops(rev, imp);
    lemma_has_zero();
    assert forall|t: int| 0 <= t < idx.len() implies all.contains(#[trigger] idx[t]) by {
        assert(all[idx[t] as int] == idx[t]);
    }
    assert forall|t: int| 0 <= t < idx.len() implies agree(words, 0, m, #[trigger] idx[t], idx[0]) by {
        assert(idx.contains(idx[t]) && idx.contains(idx[0]));
        let v = words[idx[t] as int]@;
        let w = words[idx[0] as int]@;
        assert forall|c: u8| #[trigger] holds(m, c) && !holds(0, c) implies same_places(c, v, w) by {
            if holds(rev, c) {
                assert(occurs(c, p));
                assert(same_places(c, v, p) && same_places(c, w, p));
            } else {
                assert(holds(imp, c));
                assert(!occurs(c, v) && !occurs(c, w));
            }
        }
    }
    assert forall|j: usize|
        #![trigger all.contains(j)]
        all.contains(j) && agree(words, 0, m, j, idx[0]) implies sig_rows(words, idx, m).contains(sig(words[j as int]@, m)) by {
        let x = choose|x: int| 0 <= x < all.len() && all[x] == j;
        assert(j < words.len());
        assert(idx.contains(idx[0]));
        let v = words[j as int]@;
        let w = words[idx[0] as int]@;
        assert(fits(v, p)) by {
            assert(v.len() == k && w.len() == k);
            assert forall|c: u8| c != 0 && #[trigger] occurs(c, p) implies same_places(c, v, p) by {
                assert(holds(rev, c));
                assert(holds(m, c));
                assert(same_places(c, v, w));
                assert(same_places(c, w, p));
            }
        }
        assert(no_wrong(v, p, imp)) by {
            assert forall|c: u8| #[trigger] holds(imp, c) && occurs(c, v) implies occurs(c, p) by {
                assert(holds(m, c));
                assert(same_places(c, v, w));
                let y = choose|y: int| #[trigger] at(v, y, c);
                assert(at(w, y, c));
                assert(occurs(c, w));
            }
        }
        assert(idx.contains(j));
        let t = choose|t: int| 0 <= t < idx.len() && idx[t] == j;
        assert(sig_rows(words, idx, m)[t] == sig(v, m));
    }
}

/// A miss stays at the node with one more wrong guess.
pub proof fn lemma_state_miss(words: Seq<Vec<u8>>, k: nat, p: Seq<u8>, imp: u32, l: u8)
    requires
        list_ok(words, k),
        k <= 32,
        words.len() <= usize::MAX,
        is_lower(l),
        !occurs(l, p),
    ensures
        valid(words, p, imp | bit_of(l)) == group(words, valid(words, p, imp), l, 0),
{
    lemma_add_letter(imp, l);
    let m = matching(words, p);
    lemma_matching(words, p);
    assert forall|t: int| 0 <= t < m.len() implies no_wrong(words[#[trigger] m[t] as int]@, p, imp | bit_of(l)) == (no_wrong(
        words[m[t] as int]@,
        p,
        imp,
    ) && place_mask(words[m[t] as int]@, l) == 0) by {
        let w = words[m[t] as int]@;
        assert(m[t] < words.len());
        lemma_mask_bits(w, l);
        if no_wrong(w, p, imp | bit_of(l)) {
            assert(holds(imp | bit_of(l), l));
            assert forall|c: u8| #[trigger] holds(imp, c) && occurs(c, w) implies occurs(c, p) by {
                assert(holds(imp | bit_of(l), c));
            }
        }
    }
    lemma_filter_filter(
        m,
        |i: usize| no_wrong(words[i as int]@, p, imp),
        |i: usize| place_mask(words[i as int]@, l) == 0,
        |i: usize| no_wrong(words[i as int]@, p, imp | bit_of(l)),
    );
}

/// A hit moves to the child, where wrong guesses that no word there could hold
/// are dropped.
pub proof fn lemma_state_hit(
    words: Seq<Vec<u8>>,
    k: nat,
    p: Seq<u8>,
    imp: u32,
    l: u8,
    i: int,
    useful: u32,
    child_imp: u32,
)
    requires
        list_ok(words, k),
        k <= 32,
        words.len() <= usize::MAX,
        is_pattern(p),
        state_ok(p, imp),
        is_lower(l),
        !occurs(l, p),
        !holds(imp, l),
        0 <= i < words.len(),
        fits(words[i]@, p),
        occurs(l, words[i]@),
        ({
            let q = reveal_at(p, l, place_mask(words[i]@, l));
            forall|c: u8| #[trigger] holds(useful, c) == (is_lower(c) && !occurs(c, q) && exists|x: int|
                0 <= x < words.len() && fits(words[x]@, q) && #[trigger] occurs(c, words[x]@))
        }),
        forall|c: u8| #[trigger] holds(child_imp, c) == (holds(imp, c) && holds(useful, c)),
    ensures
        valid(words, reveal_at(p, l, place_mask(words[i]@, l)), child_imp) == group(
            words,
            valid(words, p, imp),
            l,
            place_mask(words[i]@, l),
        ),
        state_ok(reveal_at(p, l, place_mask(words[i]@, l)), child_imp),
{
    let w = words[i]@;
    let m = place_mask(w, l);
    let q = reveal_at(p, l, m);
    lemma_reveal(w, p, l);
    let all = all_indices(words.len());
    let a = |x: usize| fits(words[x as int]@, q) && no_wrong(words[x as int]@, q, child_imp);
    let b = |x: usize| fits(words[x as int]@, p) && no_wrong(words[x as int]@, p, imp);
    assert forall|c: u8| #[trigger] holds(child_imp, c) implies !occurs(c, q) by {
        assert(holds(imp, c));
        assert(c != l && c != 0);
    }
    assert forall|t: int| 0 <= t < all.len() implies a(#[trigger] all[t]) == (b(all[t]) && place_mask(words[all[t] as int]@, l) == m) by {
        let v = words[all[t] as int]@;
        assert(fits(v, q) == (fits(v, p) && place_mask(v, l) == m));
        if fits(v, q) {
            if no_wrong(v, p, imp) {
                assert forall|c: u8| #[trigger] holds(child_imp, c) && occurs(c, v) implies occurs(c, q) by {
                    assert(holds(imp, c));
                }
            }
            if no_wrong(v, q, child_imp) {
                assert forall|c: u8| #[trigger] holds(imp, c) && occurs(c, v) implies occurs(c, p) by {
                    assert(!occurs(c, p));
                    assert(c != l && c != 0);
                    assert(!occurs(c, q));
                    assert(fits(words[all[t] as int]@, q) && occurs(c, words[all[t] as int]@));
                    assert(holds(useful, c));
                    assert(holds(child_imp, c));
                }
            }
        }
    }
    lemma_filter_filter(
        all,
        |x: usize| fits(words[x as int]@, q),
        |x: usize| no_wrong(words[x as int]@, q, child_imp),
        a,
    );
    lemma_filter_filter(
        all,
        |x: usize| fits(words[x as int]@, p),
        |x: usize| no_wrong(words[x as int]@, p, imp),
        b,
    );
    lemma_filter_filter(all, b, |x: usize| place_mask(words[x as int]@, l) == m, a);
}

/// Dropped wrong guesses do not change the value.
pub proof fn lemma_state_hit_value(
    words: Seq<Vec<u8>>,
    k: nat,
    idx: Seq<usize>,
    p: Seq<u8>,
    q: Seq<u8>,
    l: u8,
    imp: u32,
    child_imp: u32,
    rev: u32,
    child_rev: u32,
)
    requires
        idx_ok(idx, words.len()),
        is_lower(l),
        shows_letters(rev, p),
        shows_letters(child_rev, q),
        forall|c: u8| c != 0 ==> #[trigger] occurs(c, q) == (occurs(c, p) || c == l),
        forall|c: u8| #[trigger] holds(child_imp, c) ==> holds(imp, c),
        forall|c: u8, t: int|
            #[trigger] holds(imp, c) && 0 <= t < idx.len() ==> !occurs(c, words[#[trigger] idx[t] as int]@),
    ensures
        position_value(words, idx, child_rev | child_imp) == position_value(words, idx, (rev | imp) | bit_of(l)),
{
    let s = chosen(words, idx);
    let a = child_rev | child_imp;
    let b = (rev | imp) | bit_of(l);
    lemma_has_ops(child_rev, child_imp);
    lemma_has_ops(rev, imp);
    lemma_add_letter(rev | imp, l);
    assert forall|c: u8| #[trigger] is_open(s, letters(a), c) == is_open(s, letters(b), c) by {
        if c != 0 && (exists|w: Seq<u8>| #[trigger] s.contains(w) && occurs(c, w)) {
            let w = choose|w: Seq<u8>| #[trigger] s.contains(w) && occurs(c, w);
            let t = choose|t: int| 0 <= t < idx.len() && words[#[trigger] idx[t] as int]@ == w;
            if holds(imp, c) {
                assert(!occurs(c, words[idx[t] as int]@));
            }
            if holds(child_imp, c) {
                assert(holds(imp, c));
            }
            assert(occurs(c, q) == (occurs(c, p) || c == l));
        }
    }
    let v = value(s, letters(a)) as int;
    lemma_value(s, letters(a), v);
    lemma_value(s, letters(a), v - 1);
    lemma_same_open(s, letters(a), letters(b), v);
    lemma_same_open(s, letters(a), letters(b), v - 1);
    lemma_value_is(s, letters(b), v);
}

} // verus!
