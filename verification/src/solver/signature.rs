//! Word lists, positions on them, and effective signatures: words with every
//! guessed letter blanked out.
use vstd::prelude::*;

use crate::game::letters::{
    holds, is_lower, lemma_test_letter, letter_bit, letters, lower_word, LetterSet,
};
use crate::game::rules::{
    answers_match, at, hits_match, is_open, lemma_value_alike, occurs, paired_left, paired_right, plain_words,
    renamed_to, same_places, value,
};
use crate::sorting::{
    lemma_lex_at, lemma_lex_refl, lemma_sorted_unique, lex_le, strictly_sorted,
};

verus! {

/// Every word has length `k` and holds only letters.
pub open spec fn list_ok(words: Seq<Vec<u8>>, k: nat) -> bool {
    forall|i: int|
        0 <= i < words.len() ==> (#[trigger] words[i])@.len() == k && lower_word(words[i]@)
}

/// Every index points into a list of `n` words.
pub open spec fn idx_ok(idx: Seq<usize>, n: nat) -> bool {
    forall|t: int| 0 <= t < idx.len() ==> #[trigger] idx[t] < n
}

/// The words that the indices point to, as a set.
pub open spec fn chosen(words: Seq<Vec<u8>>, idx: Seq<usize>) -> Set<Seq<u8>> {
    Set::new(
        |w: Seq<u8>| exists|t: int| 0 <= t < idx.len() && words[#[trigger] idx[t] as int]@ == w,
    )
}

/// The minimax value of the position: these words, these letters guessed.
pub open spec fn position_value(words: Seq<Vec<u8>>, idx: Seq<usize>, masked: u32) -> nat {
    value(chosen(words, idx), letters(masked))
}

/// The word with the letters of `masked` blanked out.
pub open spec fn sig(w: Seq<u8>, masked: u32) -> Seq<u8> {
    Seq::new(
        w.len(),
        |j: int|
            if holds(masked, w[j]) {
                0u8
            } else {
                w[j]
            },
    )
}

/// The signatures of the words that the indices point to.
pub open spec fn sig_rows(words: Seq<Vec<u8>>, idx: Seq<usize>, masked: u32) -> Seq<Seq<u8>> {
    Seq::new(idx.len(), |t: int| sig(words[idx[t] as int]@, masked))
}

/// `q` lists the distinct signatures of a position in increasing order.
pub open spec fn lists_signatures(
    q: Seq<Seq<u8>>,
    words: Seq<Vec<u8>>,
    idx: Seq<usize>,
    masked: u32,
) -> bool {
    &&& strictly_sorted(q)
    &&& forall|x: Seq<u8>| #[trigger] q.contains(x) <==> sig_rows(words, idx, masked).contains(x)
}

/// The distinct signatures of a position in increasing order.
pub open spec fn signatures(words: Seq<Vec<u8>>, idx: Seq<usize>, masked: u32) -> Seq<Seq<u8>> {
    choose|q: Seq<Seq<u8>>| lists_signatures(q, words, idx, masked)
}

pub proof fn lemma_signatures(
    q: Seq<Seq<u8>>,
    words: Seq<Vec<u8>>,
    idx: Seq<usize>,
    masked: u32,
)
    requires
        lists_signatures(q, words, idx, masked),
    ensures
        q == signatures(words, idx, masked),
{
    let p = signatures(words, idx, masked);
    assert(lists_signatures(p, words, idx, masked));
    assert forall|x: Seq<u8>| q.contains(x) == p.contains(x) by {
        assert(sig_rows(words, idx, masked).contains(x) == q.contains(x));
    }
    lemma_sorted_unique(p, q);
}

/// The byte, or zero where its letter is masked.
pub fn effective(b: u8, masked: LetterSet) -> (r: u8)
    requires
        is_lower(b),
    ensures
        r == if holds(masked, b) {
            0
        } else {
            b
        },
{
    proof {
        lemma_test_letter(masked, b);
    }
    if masked & letter_bit(b) != 0 {
        0
    } else {
        b
    }
}

/// Dictionary order of the signatures of two words.
pub fn sig_le(a: &Vec<u8>, b: &Vec<u8>, masked: LetterSet) -> (r: bool)
    requires
        a@.len() == b@.len(),
        lower_word(a@),
        lower_word(b@),
    ensures
        r == lex_le(sig(a@, masked), sig(b@, masked)),
{
    let ghost sa = sig(a@, masked);
    let ghost sb = sig(b@, masked);
    let mut j: usize = 0;
    while j < a.len()
        invariant
            j <= a@.len(),
            a@.len() == b@.len(),
            lower_word(a@),
            lower_word(b@),
            sa == sig(a@, masked),
            sb == sig(b@, masked),
            forall|t: int| 0 <= t < j ==> sa[t] == sb[t],
        decreases a@.len() - j,
    {
        let x: u8 = effective(a[j], masked);
        let y: u8 = effective(b[j], masked);
        if x != y {
            proof {
                lemma_lex_at(sa, sb, j as int);
            }
            return x < y;
        }
        j += 1;
    }
    proof {
        assert(sa =~= sb);
        lemma_lex_refl(sa);
    }
    true
}

/// The signatures of two words are equal.
pub fn sig_eq(a: &Vec<u8>, b: &Vec<u8>, masked: LetterSet) -> (r: bool)
    requires
        a@.len() == b@.len(),
        lower_word(a@),
        lower_word(b@),
    ensures
        r == (sig(a@, masked) == sig(b@, masked)),
{
    let ghost sa = sig(a@, masked);
    let ghost sb = sig(b@, masked);
    let mut j: usize = 0;
    while j < a.len()
        invariant
            j <= a@.len(),
            a@.len() == b@.len(),
            lower_word(a@),
            lower_word(b@),
            sa == sig(a@, masked),
            sb == sig(b@, masked),
            forall|t: int| 0 <= t < j ==> sa[t] == sb[t],
        decreases a@.len() - j,
    {
        if effective(a[j], masked) != effective(b[j], masked) {
            assert(sa[j as int] != sb[j as int]);
            return false;
        }
        j += 1;
    }
    assert(sa =~= sb);
    true
}

/// A letter that is not masked stands in a signature where it stands in the
/// word.
pub proof fn lemma_sig_at(w: Seq<u8>, masked: u32, l: u8)
    requires
        l != 0,
        !letters(masked).contains(l),
    ensures
        forall|j: int| #[trigger] at(sig(w, masked), j, l) == at(w, j, l),
        occurs(l, sig(w, masked)) == occurs(l, w),
{
    assert forall|j: int| #[trigger] at(sig(w, masked), j, l) == at(w, j, l) by {}
    if occurs(l, w) {
        let j = choose|j: int| #[trigger] at(w, j, l);
        assert(at(sig(w, masked), j, l));
    }
    if occurs(l, sig(w, masked)) {
        let j = choose|j: int| #[trigger] at(sig(w, masked), j, l);
        assert(at(w, j, l));
    }
}

/// Two words answer alike to an unmasked letter exactly when their signatures
/// do.
pub proof fn lemma_sig_same(v: Seq<u8>, w: Seq<u8>, masked: u32, l: u8)
    requires
        l != 0,
        !letters(masked).contains(l),
    ensures
        same_places(l, sig(v, masked), sig(w, masked)) == same_places(l, v, w),
{
    lemma_sig_at(v, masked, l);
    lemma_sig_at(w, masked, l);
    if same_places(l, v, w) {
        assert forall|j: int| at(sig(v, masked), j, l) == at(sig(w, masked), j, l) by {
            assert(at(v, j, l) == at(w, j, l));
        }
    }
    if same_places(l, sig(v, masked), sig(w, masked)) {
        assert forall|j: int| at(v, j, l) == at(w, j, l) by {
            assert(at(sig(v, masked), j, l) == at(sig(w, masked), j, l));
        }
    }
}

/// The members of a sequence, as a set.
pub open spec fn row_set(rows: Seq<Seq<u8>>) -> Set<Seq<u8>> {
    Set::new(|r: Seq<u8>| rows.contains(r))
}

/// The value of a position is that of its signatures with nothing guessed.
pub proof fn lemma_value_of_signatures(
    words: Seq<Vec<u8>>,
    idx: Seq<usize>,
    masked: u32,
    q: Seq<Seq<u8>>,
)
    requires
        forall|x: Seq<u8>| #[trigger] q.contains(x) <==> sig_rows(words, idx, masked).contains(x),
    ensures
        position_value(words, idx, masked) == value(row_set(q), Set::empty()),
{
    let s = chosen(words, idx);
    let g = letters(masked);
    let t = row_set(q);
    let h = Set::<u8>::empty();
    let rows = sig_rows(words, idx, masked);
    let r = |w: Seq<u8>, v: Seq<u8>| v == sig(w, masked);
    let f = |l: u8| l;
    assert forall|w: Seq<u8>| #[trigger] s.contains(w) implies t.contains(sig(w, masked)) && r(
        w,
        sig(w, masked),
    ) by {
        let i = choose|i: int| 0 <= i < idx.len() && words[#[trigger] idx[i] as int]@ == w;
        assert(rows[i] == sig(w, masked));
        assert(q.contains(sig(w, masked)));
    }
    assert forall|v: Seq<u8>| #[trigger] t.contains(v) implies paired_right(s, r, v) by {
        reveal(paired_right);
        assert(rows.contains(v));
        let i = choose|i: int| 0 <= i < rows.len() && rows[i] == v;
        let w = words[idx[i] as int]@;
        assert(s.contains(w) && r(w, v));
    }
    assert forall|w: Seq<u8>| #[trigger] s.contains(w) implies paired_left(t, r, w) by {
        reveal(paired_left);
        assert(t.contains(sig(w, masked)));
    }
    assert forall|l: u8| #[trigger] is_open(s, g, l) implies is_open(t, h, f(l)) by {
        let w = choose|w: Seq<u8>| #[trigger] s.contains(w) && occurs(l, w);
        lemma_sig_at(w, masked, l);
        assert(t.contains(sig(w, masked)));
    }
    assert forall|m: u8| #[trigger] is_open(t, h, m) implies renamed_to(s, g, f, m) by {
        reveal(renamed_to);
        reveal(paired_right);
        let v = choose|v: Seq<u8>| #[trigger] t.contains(v) && occurs(m, v);
        assert(paired_right(s, r, v));
        let w = choose|w: Seq<u8>| #[trigger] s.contains(w) && r(w, v);
        let j = choose|j: int| #[trigger] at(v, j, m);
        assert(w[j] == m && !holds(masked, m));
        assert(at(w, j, m));
        assert(is_open(s, g, m) && f(m) == m);
    }
    assert(hits_match(s, g, t, r, f)) by {
        reveal(hits_match);
        assert forall|w: Seq<u8>, v: Seq<u8>, l: u8|
            #![trigger r(w, v), is_open(s, g, l)]
            s.contains(w) && t.contains(v) && r(w, v) && is_open(s, g, l) implies occurs(l, w)
            == occurs(f(l), v) by {
            lemma_sig_at(w, masked, l);
        }
    }
    assert(answers_match(s, g, t, r, f)) by {
        reveal(answers_match);
        assert forall|w: Seq<u8>, v: Seq<u8>, w2: Seq<u8>, v2: Seq<u8>, l: u8|
            #![trigger r(w, v), r(w2, v2), is_open(s, g, l)]
            s.contains(w) && t.contains(v) && r(w, v) && s.contains(w2) && t.contains(v2) && r(
                w2,
                v2,
            ) && is_open(s, g, l) implies same_places(l, w, w2) == same_places(f(l), v, v2) by {
            lemma_sig_same(w, w2, masked, l);
        }
    }
    lemma_value_alike(s, g, t, h, r, f);
}

/// Positions with the same signatures have the same value.
pub proof fn lemma_value_same_signatures(
    words: Seq<Vec<u8>>,
    idx: Seq<usize>,
    idx2: Seq<usize>,
    masked: u32,
)
    requires
        forall|x: Seq<u8>| #[trigger]
            sig_rows(words, idx, masked).contains(x) <==> sig_rows(words, idx2, masked).contains(x),
    ensures
        position_value(words, idx, masked) == position_value(words, idx2, masked),
{
    let q = sig_rows(words, idx, masked);
    lemma_value_of_signatures(words, idx, masked, q);
    lemma_value_of_signatures(words, idx2, masked, q);
}

/// The chosen words are plain words.
pub proof fn lemma_chosen_plain(words: Seq<Vec<u8>>, idx: Seq<usize>, k: nat)
    requires
        list_ok(words, k),
        idx_ok(idx, words.len()),
    ensures
        plain_words(chosen(words, idx), k),
{
    assert forall|w: Seq<u8>| #[trigger] chosen(words, idx).contains(w) implies w.len() == k
        && forall|j: int| 0 <= j < w.len() ==> 97 <= #[trigger] w[j] <= 122 by {
        let t = choose|t: int| 0 <= t < idx.len() && words[#[trigger] idx[t] as int]@ == w;
        assert(lower_word(words[idx[t] as int]@));
        assert forall|j: int| 0 <= j < w.len() implies 97 <= #[trigger] w[j] <= 122 by {
            assert(is_lower(w[j]));
        }
    }
}

} // verus!
