//! The solvers compute one and the same number.
use vstd::prelude::*;

use crate::game::letters::letters;
use crate::game::rules::value;
use crate::solver::memoized::{all_indices, list_value};
use crate::solver::naive::slice_words;
use crate::solver::signature::chosen;

verus! {

/// The value that the memoized and the graph solver compute for a word list is the one
/// that the plain recursion computes for the same words with nothing guessed.
pub proof fn lemma_solvers_agree(words: Seq<Vec<u8>>, refs: Seq<&[u8]>)
    requires
        words.len() <= usize::MAX,
        refs.len() == words.len(),
        forall|i: int| 0 <= i < words.len() ==> (#[trigger] refs[i])@ == words[i]@,
    ensures
        list_value(words) == value(slice_words(refs), letters(0)),
{
    let all = all_indices(words.len());
    let s = chosen(words, all);
    let t = slice_words(refs);
    assert forall|w: Seq<u8>| #[trigger] s.contains(w) == t.contains(w) by {
        if s.contains(w) {
            let i = choose|i: int| 0 <= i < all.len() && words[#[trigger] all[i] as int]@ == w;
            assert(refs[i]@ == words[i]@);
            assert(t.contains(w));
        }
        if t.contains(w) {
            let i = choose|i: int| 0 <= i < refs.len() && (#[trigger] refs[i])@ == w;
            assert(words[all[i] as int]@ == w);
            assert(s.contains(w));
        }
    }
    assert(s =~= t);
}

/// The order of the words does not matter, nor does repeating a word.
pub proof fn lemma_word_order_free(words: Seq<Vec<u8>>, others: Seq<Vec<u8>>)
    requires
        words.len() <= usize::MAX,
        others.len() <= usize::MAX,
        forall|i: int| 0 <= i < words.len() ==> exists|j: int| 0 <= j < others.len() && others[j]@ == (#[trigger] words[i])@,
        forall|j: int| 0 <= j < others.len() ==> exists|i: int| 0 <= i < words.len() && words[i]@ == (#[trigger] others[j])@,
    ensures
        list_value(words) == list_value(others),
{
    let a = chosen(words, all_indices(words.len()));
    let b = chosen(others, all_indices(others.len()));
    assert forall|w: Seq<u8>| #[trigger] a.contains(w) implies b.contains(w) by {
        let all = all_indices(words.len());
        let t = choose|t: int| 0 <= t < all.len() && words[#[trigger] all[t] as int]@ == w;
        assert(words[t]@ == w);
        let j = choose|j: int| 0 <= j < others.len() && others[j]@ == words[t]@;
        assert(others[all_indices(others.len())[j] as int]@ == w);
    }
    assert forall|w: Seq<u8>| #[trigger] b.contains(w) implies a.contains(w) by {
        let all = all_indices(others.len());
        let t = choose|t: int| 0 <= t < all.len() && others[#[trigger] all[t] as int]@ == w;
        assert(others[t]@ == w);
        let i = choose|i: int| 0 <= i < words.len() && words[i]@ == others[t]@;
        assert(words[all_indices(words.len())[i] as int]@ == w);
    }
    assert(a =~= b);
}

} // verus!
