//! Laws of the value: what bounds it, and what it does not depend on.
use vstd::prelude::*;

use crate::game::rules::{
    alike, answers_match, at, cost, hits_match, is_open, lemma_guess_to_wins, lemma_more_budget,
    lemma_unguessed_less, lemma_value, lemma_value_alike, no_open, occurs, paired_left, paired_right, renamed_to,
    reply, same_places, unguessed, value, wins,
};
use crate::sorting::perm_of;

verus! {

/// A miss rules out a word, so words less one are misses enough.
proof fn lemma_words_bound(s: Set<Seq<u8>>, g: Set<u8>)
    requires
        s.finite(),
        s.len() > 0,
    ensures
        wins(s, g, s.len() - 1),
    decreases unguessed(g, 256),
{
    let b = s.len() - 1;
    if !no_open(s, g) {
        let l = choose|l: u8| #[trigger] is_open(s, g, l);
        let holder = choose|w: Seq<u8>| #[trigger] s.contains(w) && occurs(l, w);
        lemma_unguessed_less(g, l);
        assert forall|w: Seq<u8>| #[trigger] s.contains(w) implies wins(reply(s, l, w), g.insert(l), b - cost(l, w)) by {
            let t = reply(s, l, w);
            assert(same_places(l, w, w));
            assert(t.contains(w));
            assert(t.subset_of(s));
            vstd::set_lib::lemma_len_subset(t, s);
            if !occurs(l, w) {
                let j = choose|j: int| #[trigger] at(holder, j, l);
                if t.contains(holder) {
                    assert(at(w, j, l));
                }
                assert(t.subset_of(s.remove(holder)));
                vstd::set_lib::lemma_len_subset(t, s.remove(holder));
            }
            if t.len() == 0 {
                t.lemma_len0_is_empty();
            }
            lemma_words_bound(t, g.insert(l));
            lemma_more_budget(t, g.insert(l), t.len() - 1, b - cost(l, w));
        }
        lemma_guess_to_wins(s, g, l, b);
    }
}

/// The value is less than the number of words.
pub proof fn lemma_value_below_words(s: Set<Seq<u8>>, g: Set<u8>)
    requires
        s.finite(),
        s.len() > 0,
    ensures
        value(s, g) < s.len(),
{
    lemma_words_bound(s, g);
    lemma_value(s, g, s.len() - 1);
}

/// A word with its letters renamed.
pub open spec fn renamed(w: Seq<u8>, h: spec_fn(u8) -> u8) -> Seq<u8> {
    w.map_values(h)
}

/// Words with their letters renamed.
pub open spec fn renamed_words(s: Set<Seq<u8>>, h: spec_fn(u8) -> u8) -> Set<Seq<u8>> {
    s.map(|w: Seq<u8>| renamed(w, h))
}

/// A renaming: different letters get different names, and the blank stays.
pub open spec fn is_renaming(h: spec_fn(u8) -> u8) -> bool {
    h(0) == 0 && forall|a: u8, b: u8| #[trigger] h(a) == #[trigger] h(b) ==> a == b
}

proof fn lemma_renamed_at(w: Seq<u8>, h: spec_fn(u8) -> u8, l: u8)
    requires
        is_renaming(h),
    ensures
        forall|j: int| #[trigger] at(renamed(w, h), j, h(l)) == at(w, j, l),
        occurs(h(l), renamed(w, h)) == occurs(l, w),
{
    let v = renamed(w, h);
    assert forall|j: int| #[trigger] at(v, j, h(l)) == at(w, j, l) by {}
    if occurs(l, w) {
        let j = choose|j: int| #[trigger] at(w, j, l);
        assert(at(v, j, h(l)));
    }
    if occurs(h(l), v) {
        let j = choose|j: int| #[trigger] at(v, j, h(l));
        assert(at(w, j, l));
    }
}

/// Renaming the letters, in the words and among those guessed, keeps the value.
pub proof fn lemma_value_renamed(s: Set<Seq<u8>>, g: Set<u8>, h: spec_fn(u8) -> u8)
    requires
        is_renaming(h),
    ensures
        value(renamed_words(s, h), g.map(h)) == value(s, g),
{
    let t = renamed_words(s, h);
    let k = g.map(h);
    let r = |w: Seq<u8>, v: Seq<u8>| v == renamed(w, h);
    assert forall|w: Seq<u8>| #[trigger] s.contains(w) implies paired_left(t, r, w) by {
        reveal(paired_left);
        let v = renamed(w, h);
        assert(t.contains(v) && r(w, v));
    }
    assert forall|v: Seq<u8>| #[trigger] t.contains(v) implies paired_right(s, r, v) by {
        reveal(paired_right);
        let w = choose|w: Seq<u8>| #[trigger] s.contains(w) && renamed(w, h) == v;
        assert(s.contains(w) && r(w, v));
    }
    assert forall|l: u8| k.contains(#[trigger] h(l)) == g.contains(l) by {
        if k.contains(h(l)) {
            let m = choose|m: u8| g.contains(m) && h(m) == h(l);
            assert(m == l);
        }
    }
    assert forall|l: u8| #[trigger] is_open(s, g, l) implies is_open(t, k, h(l)) by {
        let w = choose|w: Seq<u8>| #[trigger] s.contains(w) && occurs(l, w);
        lemma_renamed_at(w, h, l);
        assert(t.contains(renamed(w, h)));
        assert(h(l) == 0 ==> h(l) == h(0));
    }
    assert forall|m: u8| #[trigger] is_open(t, k, m) implies renamed_to(s, g, h, m) by {
        reveal(renamed_to);
        let v = choose|v: Seq<u8>| #[trigger] t.contains(v) && occurs(m, v);
        let w = choose|w: Seq<u8>| #[trigger] s.contains(w) && renamed(w, h) == v;
        let j = choose|j: int| #[trigger] at(v, j, m);
        let l = w[j];
        assert(h(l) == m);
        assert(at(w, j, l));
        assert(occurs(l, w));
        assert(is_open(s, g, l));
    }
    assert(hits_match(s, g, t, r, h)) by {
        reveal(hits_match);
        assert forall|w: Seq<u8>, v: Seq<u8>, l: u8|
            #![trigger r(w, v), is_open(s, g, l)]
            s.contains(w) && t.contains(v) && r(w, v) && is_open(s, g, l) implies occurs(l, w) == occurs(h(l), v) by {
            lemma_renamed_at(w, h, l);
        }
    }
    assert(answers_match(s, g, t, r, h)) by {
        reveal(answers_match);
        assert forall|w: Seq<u8>, v: Seq<u8>, w2: Seq<u8>, v2: Seq<u8>, l: u8|
            #![trigger r(w, v), r(w2, v2), is_open(s, g, l)]
            s.contains(w) && t.contains(v) && r(w, v) && s.contains(w2) && t.contains(v2) && r(w2, v2) && is_open(s, g, l) implies same_places(
            l,
            w,
            w2,
        ) == same_places(h(l), v, v2) by {
            let m = h(l);
            lemma_renamed_at(w, h, l);
            lemma_renamed_at(w2, h, l);
            if same_places(l, w, w2) {
                assert forall|j: int| at(v, j, m) == at(v2, j, m) by {
                    assert(at(w, j, l) == at(w2, j, l));
                }
            }
            if same_places(m, v, v2) {
                assert forall|j: int| at(w, j, l) == at(w2, j, l) by {
                    assert(at(v, j, m) == at(v2, j, m));
                }
            }
        }
    }
    assert(alike(s, g, t, k, r, h));
    lemma_value_alike(s, g, t, k, r, h);
}

/// A word with its places in the order of the list.
pub open spec fn moved_word(w: Seq<u8>, p: Seq<usize>) -> Seq<u8> {
    Seq::new(p.len(), |t: int| w[p[t] as int])
}

/// Words with their places in the order of the list.
pub open spec fn moved_words(s: Set<Seq<u8>>, p: Seq<usize>) -> Set<Seq<u8>> {
    s.map(|w: Seq<u8>| moved_word(w, p))
}

proof fn lemma_moved_at(w: Seq<u8>, p: Seq<usize>, l: u8)
    requires
        perm_of(p, 0, w.len() as int),
        w.len() <= usize::MAX,
    ensures
        forall|t: int| 0 <= t < p.len() ==> #[trigger] at(moved_word(w, p), t, l) == at(w, p[t] as int, l),
        occurs(l, moved_word(w, p)) == occurs(l, w),
{
    let v = moved_word(w, p);
    if occurs(l, w) {
        let j = choose|j: int| #[trigger] at(w, j, l);
        assert(p.contains(j as usize));
        let t = choose|t: int| 0 <= t < p.len() && p[t] == j as usize;
        assert(at(v, t, l));
    }
    if occurs(l, v) {
        let t = choose|t: int| #[trigger] at(v, t, l);
        assert(at(w, p[t] as int, l));
    }
}

/// Putting the places of all words in another order keeps the value.
pub proof fn lemma_value_moved(s: Set<Seq<u8>>, g: Set<u8>, p: Seq<usize>)
    requires
        perm_of(p, 0, p.len() as int),
        p.len() <= usize::MAX,
        forall|w: Seq<u8>| #[trigger] s.contains(w) ==> w.len() == p.len(),
    ensures
        value(moved_words(s, p), g) == value(s, g),
{
    let t = moved_words(s, p);
    let r = |w: Seq<u8>, v: Seq<u8>| v == moved_word(w, p);
    let f = |l: u8| l;
    assert forall|w: Seq<u8>| #[trigger] s.contains(w) implies paired_left(t, r, w) by {
        reveal(paired_left);
        let v = moved_word(w, p);
        assert(t.contains(v) && r(w, v));
    }
    assert forall|v: Seq<u8>| #[trigger] t.contains(v) implies paired_right(s, r, v) by {
        reveal(paired_right);
        let w = choose|w: Seq<u8>| #[trigger] s.contains(w) && moved_word(w, p) == v;
        assert(s.contains(w) && r(w, v));
    }
    assert forall|l: u8| #[trigger] is_open(s, g, l) implies is_open(t, g, f(l)) by {
        let w = choose|w: Seq<u8>| #[trigger] s.contains(w) && occurs(l, w);
        lemma_moved_at(w, p, l);
        assert(t.contains(moved_word(w, p)));
    }
    assert forall|m: u8| #[trigger] is_open(t, g, m) implies renamed_to(s, g, f, m) by {
        reveal(renamed_to);
        let v = choose|v: Seq<u8>| #[trigger] t.contains(v) && occurs(m, v);
        let w = choose|w: Seq<u8>| #[trigger] s.contains(w) && moved_word(w, p) == v;
        lemma_moved_at(w, p, m);
        assert(is_open(s, g, m) && f(m) == m);
    }
    assert(hits_match(s, g, t, r, f)) by {
        reveal(hits_match);
        assert forall|w: Seq<u8>, v: Seq<u8>, l: u8|
            #![trigger r(w, v), is_open(s, g, l)]
            s.contains(w) && t.contains(v) && r(w, v) && is_open(s, g, l) implies occurs(l, w) == occurs(f(l), v) by {
            lemma_moved_at(w, p, l);
        }
    }
    assert(answers_match(s, g, t, r, f)) by {
        reveal(answers_match);
        assert forall|w: Seq<u8>, v: Seq<u8>, w2: Seq<u8>, v2: Seq<u8>, l: u8|
            #![trigger r(w, v), r(w2, v2), is_open(s, g, l)]
            s.contains(w) && t.contains(v) && r(w, v) && s.contains(w2) && t.contains(v2) && r(w2, v2) && is_open(s, g, l) implies same_places(
            l,
            w,
            w2,
        ) == same_places(f(l), v, v2) by {
            lemma_moved_at(w, p, l);
            lemma_moved_at(w2, p, l);
            if same_places(l, w, w2) {
                assert forall|x: int| at(v, x, l) == at(v2, x, l) by {
                    if 0 <= x < p.len() {
                        assert(at(w, p[x] as int, l) == at(w2, p[x] as int, l));
                    }
                }
            }
            if same_places(l, v, v2) {
                assert forall|j: int| at(w, j, l) == at(w2, j, l) by {
                    if 0 <= j < w.len() {
                        assert(p.contains(j as usize));
                        let x = choose|x: int| 0 <= x < p.len() && p[x] == j as usize;
                        assert(at(v, x, l) == at(v2, x, l));
                    }
                }
            }
        }
    }
    assert(alike(s, g, t, g, r, f));
    lemma_value_alike(s, g, t, g, r, f);
}

/// The value is what best play comes to: where no letter is left to guess it is zero; else
/// some letter keeps every answer within it, and against every letter some answer reaches
/// it. An answer costs a miss where the word does not hold the letter, and leaves the
/// words that hold it at the same places.
pub proof fn lemma_minimax(s: Set<Seq<u8>>, g: Set<u8>)
    ensures
        no_open(s, g) ==> value(s, g) == 0,
        !no_open(s, g) ==> exists|l: u8| #[trigger]
            is_open(s, g, l) && forall|w: Seq<u8>| #[trigger]
                s.contains(w) ==> value(words_alike(s, l, w), g.insert(l)) + (if w.contains(l) {
                    0int
                } else {
                    1int
                }) <= value(s, g),
        forall|l: u8| #[trigger]
            is_open(s, g, l) ==> exists|w: Seq<u8>| #[trigger]
                s.contains(w) && value(words_alike(s, l, w), g.insert(l)) + (if w.contains(l) {
                    0int
                } else {
                    1int
                }) >= value(s, g),
{
    let v = value(s, g) as int;
    lemma_value(s, g, v);
    lemma_value(s, g, v - 1);
    lemma_value(s, g, 0);
    assert(wins(s, g, v));
    assert forall|l: u8, w: Seq<u8>| #![trigger words_alike(s, l, w)] words_alike(s, l, w) == reply(s, l, w) && w.contains(l) == occurs(l, w) by {
        lemma_same_reply(s, l, w);
    }
    if !no_open(s, g) {
        let l = choose|l: u8| #[trigger]
            is_open(s, g, l) && forall|w: Seq<u8>| #[trigger] s.contains(w) ==> wins(reply(s, l, w), g.insert(l), v - cost(l, w));
        assert forall|w: Seq<u8>| #[trigger] s.contains(w) implies value(words_alike(s, l, w), g.insert(l)) + (if w.contains(l) {
            0int
        } else {
            1int
        }) <= v by {
            lemma_same_reply(s, l, w);
            lemma_value(reply(s, l, w), g.insert(l), v - cost(l, w));
        }
    }
    assert forall|l: u8| #[trigger] is_open(s, g, l) implies exists|w: Seq<u8>| #[trigger]
        s.contains(w) && value(words_alike(s, l, w), g.insert(l)) + (if w.contains(l) {
            0int
        } else {
            1int
        }) >= v by {
        if v == 0 {
            let w = choose|w: Seq<u8>| #[trigger] s.contains(w) && occurs(l, w);
            assert(s.contains(w));
        } else {
            assert(!wins(s, g, v - 1));
            let w = choose|w: Seq<u8>| #[trigger] s.contains(w) && !wins(reply(s, l, w), g.insert(l), v - 1 - cost(l, w));
            lemma_same_reply(s, l, w);
            lemma_value(reply(s, l, w), g.insert(l), v - 1 - cost(l, w));
            assert(s.contains(w));
        }
    }
}

/// Words of which each has the letter wherever the other has it.
pub open spec fn letter_alike(v: Seq<u8>, w: Seq<u8>, l: u8) -> bool {
    &&& forall|j: int| 0 <= j < v.len() && #[trigger] v[j] == l ==> j < w.len() && w[j] == l
    &&& forall|j: int| 0 <= j < w.len() && #[trigger] w[j] == l ==> j < v.len() && v[j] == l
}

/// The words that have a letter at the same places as this one.
pub open spec fn words_alike(s: Set<Seq<u8>>, l: u8, w: Seq<u8>) -> Set<Seq<u8>> {
    Set::new(|v: Seq<u8>| s.contains(v) && letter_alike(v, w, l))
}

proof fn lemma_same_reply(s: Set<Seq<u8>>, l: u8, w: Seq<u8>)
    ensures
        words_alike(s, l, w) == reply(s, l, w),
        w.contains(l) == occurs(l, w),
{
    assert forall|v: Seq<u8>| words_alike(s, l, w).contains(v) == reply(s, l, w).contains(v) by {
        if letter_alike(v, w, l) {
            assert forall|j: int| at(w, j, l) == at(v, j, l) by {
                if at(w, j, l) {
                    assert(w[j] == l);
                }
                if at(v, j, l) {
                    assert(v[j] == l);
                }
            }
            assert(same_places(l, w, v));
        }
        if same_places(l, w, v) {
            assert forall|j: int| 0 <= j < v.len() && #[trigger] v[j] == l implies j < w.len() && w[j] == l by {
                assert(at(w, j, l) == at(v, j, l));
            }
            assert forall|j: int| 0 <= j < w.len() && #[trigger] w[j] == l implies j < v.len() && v[j] == l by {
                assert(at(w, j, l) == at(v, j, l));
            }
        }
    }
    assert(words_alike(s, l, w) =~= reply(s, l, w));
    if w.contains(l) {
        let j = choose|j: int| 0 <= j < w.len() && w[j] == l;
        assert(at(w, j, l));
    }
    if occurs(l, w) {
        let j = choose|j: int| #[trigger] at(w, j, l);
        assert(w[j] == l);
    }
}

/// A letter is open where it has not been guessed and some word holds it.
pub proof fn lemma_open(s: Set<Seq<u8>>, g: Set<u8>, l: u8, w: Seq<u8>)
    requires
        s.contains(w),
        w.contains(l),
        l != 0,
    ensures
        is_open(s, g, l) <==> !g.contains(l),
        no_open(s, g) ==> g.contains(l),
{
    let j = choose|j: int| 0 <= j < w.len() && w[j] == l;
    assert(at(w, j, l));
}

} // verus!
