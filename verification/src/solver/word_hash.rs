//! A hash that identifies a set of words, for naming files that belong to it.
use std::collections::hash_map::DefaultHasher;
use std::hash::Hasher;

use vstd::bytes::{spec_u64_to_le_bytes, u64_to_le_bytes};
use vstd::prelude::*;
use vstd::relations::total_ordering;
use vstd::std_specs::hash::DefaultHasherAdditionalSpecFns;

use crate::seqs::lemma_perm_multiset;
use crate::solver::canon::byte_feed;
use crate::sorting::{before, bytes_le, lemma_lex_refl, lemma_lex_total, lemma_lex_trans, lex_le, sorted_order};

verus! {

/// The bytes of each word.
pub open spec fn word_views(words: Seq<Vec<u8>>) -> Seq<Seq<u8>> {
    Seq::new(words.len(), |i: int| words[i]@)
}

/// Dictionary order as a relation.
pub open spec fn dictionary_order() -> spec_fn(Seq<u8>, Seq<u8>) -> bool {
    |a: Seq<u8>, b: Seq<u8>| lex_le(a, b)
}

/// The words in dictionary order.
pub open spec fn in_dictionary_order(ws: Seq<Seq<u8>>) -> Seq<Seq<u8>> {
    ws.sort_by(dictionary_order())
}

/// What is fed to the hasher for the first `n` words: the number of all words,
/// then the length and the bytes of each.
pub open spec fn words_feed(ws: Seq<Seq<u8>>, n: nat) -> Seq<Seq<u8>>
    decreases n,
{
    if n == 0 {
        seq![spec_u64_to_le_bytes(ws.len() as u64)]
    } else {
        words_feed(ws, (n - 1) as nat) + byte_feed(ws[n - 1])
    }
}

/// The hash of a set of words, whatever their order.
pub open spec fn word_set_hash(words: Seq<Vec<u8>>) -> u64 {
    let sorted = in_dictionary_order(word_views(words));
    DefaultHasher::spec_finish(words_feed(sorted, sorted.len()))
}

pub proof fn lemma_dictionary_order()
    ensures
        total_ordering(dictionary_order()),
{
    let r = dictionary_order();
    assert forall|a: Seq<u8>| #[trigger] r(a, a) by {
        lemma_lex_refl(a);
    }
    assert forall|a: Seq<u8>, b: Seq<u8>| #[trigger] r(a, b) && #[trigger] r(b, a) implies a == b by {
        lemma_lex_total(a, b);
    }
    assert forall|a: Seq<u8>, b: Seq<u8>| #[trigger] r(a, b) || #[trigger] r(b, a) by {
        lemma_lex_total(a, b);
    }
    assert forall|a: Seq<u8>, b: Seq<u8>, c: Seq<u8>| #[trigger] r(a, b) && #[trigger] r(b, c) implies r(a, c) by {
        lemma_lex_trans(a, b, c);
    }
}

/// The order in which the words stand in the dictionary.
pub(crate) fn dictionary_places(words: &[Vec<u8>]) -> (order: Vec<usize>)
    ensures
        crate::sorting::perm_of(order@, 0, words@.len() as int),
        Seq::new(words@.len(), |t: int| words@[order@[t] as int]@) == in_dictionary_order(word_views(words@)),
        forall|t: int, u: int|
            0 <= t < u < order@.len() ==> lex_le(words@[#[trigger] order@[t] as int]@, words@[#[trigger] order@[u] as int]@),
{
    let n: usize = words.len();
    let ghost leq = |x: int, y: int| lex_le(words@[x]@, words@[y]@);
    let le = |x: usize, y: usize| -> (r: bool)
        requires
            x < n,
            y < n,
            n == words@.len(),
        ensures
            r == lex_le(words@[x as int]@, words@[y as int]@),
        { bytes_le(words[x].as_slice(), words[y].as_slice()) };
    proof {
        assert forall|x: int, y: int| 0 <= x < n && 0 <= y < n implies #[trigger] leq(x, y) || leq(y, x) by {
            lemma_lex_total(words@[x]@, words@[y]@);
        }
        assert forall|x: int, y: int, z: int|
            0 <= x < n && 0 <= y < n && 0 <= z < n && #[trigger] leq(x, y) && #[trigger] leq(y, z) implies leq(x, z) by {
            lemma_lex_trans(words@[x]@, words@[y]@, words@[z]@);
        }
    }
    let order = sorted_order(n, &le, Ghost(leq));
    proof {
        let ws = word_views(words@);
        let got = Seq::new(n as nat, |t: int| ws[order@[t] as int]);
        lemma_dictionary_order();
        lemma_perm_multiset(ws, order@);
        ws.lemma_sort_by_ensures(dictionary_order());
        assert forall|t: int, u: int| 0 <= t < u < got.len() implies #[trigger] dictionary_order()(got[t], got[u]) by {
            assert(before(leq, order@[t] as int, order@[u] as int));
        }
        vstd::seq_lib::lemma_sorted_unique(got, in_dictionary_order(ws), dictionary_order());
        assert(Seq::new(words@.len(), |t: int| words@[order@[t] as int]@) =~= got);
        assert forall|t: int, u: int| 0 <= t < u < order@.len() implies lex_le(
            words@[#[trigger] order@[t] as int]@,
            words@[#[trigger] order@[u] as int]@,
        ) by {
            assert(before(leq, order@[t] as int, order@[u] as int));
        }
    }
    order
}

/// The hash of a set of words: their order does not matter.
pub fn hash_word_set(words: &[Vec<u8>]) -> (r: u64)
    ensures
        r == word_set_hash(words@),
{
    let order = dictionary_places(words);
    let ghost sorted = in_dictionary_order(word_views(words@));
    let mut hasher = DefaultHasher::new();
    let count = u64_to_le_bytes(words.len() as u64);
    hasher.write(count.as_slice());
    let mut i: usize = 0;
    proof {
        assert(hasher@ =~= words_feed(sorted, 0));
    }
    while i < order.len()
        invariant
            i <= order@.len(),
            crate::sorting::perm_of(order@, 0, words@.len() as int),
            sorted.len() == words@.len(),
            forall|t: int| 0 <= t < sorted.len() ==> #[trigger] sorted[t] == words@[order@[t] as int]@,
            hasher@ == words_feed(sorted, i as nat),
        decreases order@.len() - i,
    {
        let word = &words[order[i]];
        let len = u64_to_le_bytes(word.len() as u64);
        let ghost before = hasher@;
        hasher.write(len.as_slice());
        hasher.write(word.as_slice());
        proof {
            assert(sorted[i as int] == word@);
            assert(hasher@ =~= before + byte_feed(word@));
        }
        i += 1;
    }
    hasher.finish()
}

/// Reordering the words does not change their hash.
pub proof fn lemma_hash_order_free(a: Seq<Vec<u8>>, b: Seq<Vec<u8>>)
    requires
        word_views(a).to_multiset() == word_views(b).to_multiset(),
    ensures
        word_set_hash(a) == word_set_hash(b),
{
    lemma_dictionary_order();
    word_views(a).lemma_sort_by_ensures(dictionary_order());
    word_views(b).lemma_sort_by_ensures(dictionary_order());
    vstd::seq_lib::lemma_sorted_unique(
        in_dictionary_order(word_views(a)),
        in_dictionary_order(word_views(b)),
        dictionary_order(),
    );
}

} // verus!
