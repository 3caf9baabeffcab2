//! What a position is to a search: its words, what they look like and which letters are as
//! good as guessed.
use vstd::prelude::*;

use crate::game::letters::{bit, bit_of, holds, letters};
use crate::game::rules::{at, is_open, occurs, required, same_places, uniform};
use crate::game::value_laws::letter_alike;
use crate::solver::dedup::position_key;
use crate::solver::memoized::{all_indices, disk_believed, is_warm, search_trusted, word_len};
use crate::solver::naive::slice_words;
use crate::solver::partition::group;
use crate::solver::required::{foldable, is_fold};
use crate::solver::signature::{chosen, idx_ok, position_value, sig, signatures};
use crate::solver::trust::reachable;
use crate::solver::tt::{claims, tt_bound};
use crate::solver::warm::{all_exact, answers_covered, covered, keys_walked, walked};

verus! {

/// The words of a position are those that its indices point at.
pub proof fn lemma_chosen(words: Seq<Vec<u8>>, idx: Seq<usize>, w: Seq<u8>)
    ensures
        chosen(words, idx).contains(w) <==> exists|t: int| 0 <= t < idx.len() && words[#[trigger] idx[t] as int]@ == w,
{
}

/// The words of a list of slices are the slices.
pub proof fn lemma_slices(words: Seq<&[u8]>, w: Seq<u8>)
    ensures
        slice_words(words).contains(w) <==> exists|i: int| 0 <= i < words.len() && (#[trigger] words[i])@ == w,
{
}

/// What a word looks like once letters are guessed: those are blanked out, the others
/// stay.
pub proof fn lemma_signature(w: Seq<u8>, masked: u32, j: int)
    requires
        0 <= j < w.len(),
    ensures
        sig(w, masked).len() == w.len(),
        holds(masked, w[j]) ==> sig(w, masked)[j] == 0,
        !holds(masked, w[j]) ==> sig(w, masked)[j] == w[j],
{
}

/// Every word has the letter, and all at the same places.
pub open spec fn stands_fixed(words: Seq<Vec<u8>>, idx: Seq<usize>, l: u8) -> bool {
    &&& forall|t: int| 0 <= t < idx.len() ==> words[#[trigger] idx[t] as int]@.contains(l)
    &&& forall|t: int, u: int|
        0 <= t < idx.len() && 0 <= u < idx.len() ==> letter_alike(words[#[trigger] idx[t] as int]@, words[#[trigger] idx[u] as int]@, l)
}

/// Folding adds to the guessed letters exactly those that stand in every word at the same
/// places, and touches nothing beyond the letters.
pub proof fn lemma_folded(words: Seq<Vec<u8>>, idx: Seq<usize>, masked: u32, r: u32, l: u8)
    requires
        is_fold(words, idx, masked, r),
        97 <= l <= 122,
    ensures
        holds(masked, l) ==> holds(r, l),
        !holds(masked, l) ==> (holds(r, l) <==> stands_fixed(words, idx, l)),
        forall|i: int| 26 <= i ==> #[trigger] bit(r, i) == bit(masked, i),
{
    let s = chosen(words, idx);
    assert(holds(r, l) == (holds(masked, l) || foldable(words, idx, masked, l)));
    if required(s, l) && uniform(s, l) {
        assert forall|t: int| 0 <= t < idx.len() implies words[#[trigger] idx[t] as int]@.contains(l) by {
            let w = words[idx[t] as int]@;
            assert(s.contains(w));
            let j = choose|j: int| #[trigger] at(w, j, l);
            assert(w[j] == l);
        }
        assert forall|t: int, u: int| 0 <= t < idx.len() && 0 <= u < idx.len() implies letter_alike(
            words[#[trigger] idx[t] as int]@,
            words[#[trigger] idx[u] as int]@,
            l,
        ) by {
            let v = words[idx[t] as int]@;
            let w = words[idx[u] as int]@;
            assert(s.contains(v) && s.contains(w));
            assert(same_places(l, v, w));
            assert forall|j: int| 0 <= j < v.len() && #[trigger] v[j] == l implies j < w.len() && w[j] == l by {
                assert(at(v, j, l) == at(w, j, l));
            }
            assert forall|j: int| 0 <= j < w.len() && #[trigger] w[j] == l implies j < v.len() && v[j] == l by {
                assert(at(v, j, l) == at(w, j, l));
            }
        }
        assert(stands_fixed(words, idx, l));
    }
    if stands_fixed(words, idx, l) {
        assert forall|w: Seq<u8>| #[trigger] s.contains(w) implies occurs(l, w) by {
            let t = choose|t: int| 0 <= t < idx.len() && words[#[trigger] idx[t] as int]@ == w;
            assert(words[idx[t] as int]@.contains(l));
            let j = choose|j: int| 0 <= j < w.len() && w[j] == l;
            assert(at(w, j, l));
        }
        assert forall|v: Seq<u8>, w: Seq<u8>| #[trigger] s.contains(v) && #[trigger] s.contains(w) implies same_places(l, v, w) by {
            let t = choose|t: int| 0 <= t < idx.len() && words[#[trigger] idx[t] as int]@ == v;
            let u = choose|u: int| 0 <= u < idx.len() && words[#[trigger] idx[u] as int]@ == w;
            assert(letter_alike(words[idx[t] as int]@, words[idx[u] as int]@, l));
            assert forall|j: int| at(v, j, l) == at(w, j, l) by {
                if at(v, j, l) {
                    assert(v[j] == l);
                }
                if at(w, j, l) {
                    assert(w[j] == l);
                }
            }
        }
    }
}

/// A table on disk may be searched with where whatever it gives for a position that play
/// can reach is true of that position; one that gives nothing always may.
pub proof fn lemma_trusted<D: Fn(u128) -> Option<u32>>(words: Seq<Vec<u8>>, root: Seq<usize>, root_masked: u32, disk: D)
    ensures
        search_trusted(words, root, root_masked, disk) <==> forall|i: Seq<usize>, m: u32, packed: u32|
            #![trigger reachable(words, root, root_masked, i, m), disk.ensures((position_key(words, i, m, word_len(words)),), Some(packed))]
            reachable(words, root, root_masked, i, m) && disk.ensures((position_key(words, i, m, word_len(words)),), Some(packed)) ==> claims(
                packed,
                position_value(words, i, m) as int,
            ),
        (forall|key: u128, o: Option<u32>| #[trigger] disk.ensures((key,), o) ==> o is None) ==> search_trusted(
            words,
            root,
            root_masked,
            disk,
        ),
        search_trusted(words, root, root_masked, disk) ==> disk_believed(words, root, root_masked, disk),
{
    let k = word_len(words);
    if forall|i: Seq<usize>, m: u32, packed: u32|
        #![trigger reachable(words, root, root_masked, i, m), disk.ensures((position_key(words, i, m, k),), Some(packed))]
        reachable(words, root, root_masked, i, m) && disk.ensures((position_key(words, i, m, k),), Some(packed)) ==> claims(
            packed,
            position_value(words, i, m) as int,
        ) {
        assert forall|i: Seq<usize>, m: u32, r: Option<u32>|
            #![trigger reachable(words, root, root_masked, i, m), disk.ensures((position_key(words, i, m, k),), r)]
            reachable(words, root, root_masked, i, m) && disk.ensures((position_key(words, i, m, k),), r) && r is Some implies claims(
            r->0,
            position_value(words, i, m) as int,
        ) by {
            assert(r == Some(r->0));
        }
    }
}

/// A position that play can reach has words of the position it started from, and every
/// letter that was guessed there is guessed.
pub proof fn lemma_reached(words: Seq<Vec<u8>>, root: Seq<usize>, root_masked: u32, idx: Seq<usize>, masked: u32)
    requires
        reachable(words, root, root_masked, idx, masked),
    ensures
        idx.len() > 0,
        idx_ok(idx, words.len()),
        forall|t: int| 0 <= t < idx.len() ==> root.contains(#[trigger] idx[t]),
        forall|c: u8| #[trigger] holds(root_masked, c) ==> holds(masked, c),
{
}

/// Warming goes down the whole tree: it has a set of keys, each with an exact entry, among
/// them that of the full list, and for each of them a position with that key such that
/// what any answer to any open letter leaves of it is in the set too, where it has words
/// that can be told apart.
pub proof fn lemma_warm_throughout(words: Seq<Vec<u8>>, table: Map<u128, u32>)
    requires
        is_warm(words, table),
    ensures
        exists|keys: Set<u128>| #[trigger] warm_keys(words, table, keys),
{
    let k = word_len(words);
    let (keys, positions) = choose|keys: Set<u128>, positions: Set<(Seq<usize>, u32)>|
        #![trigger walked(words, k, keys, positions)]
        walked(words, k, keys, positions) && keys_walked(words, k, keys, positions) && all_exact(table, keys) && covered(
            words,
            k,
            keys,
            all_indices(words.len()),
            0,
        );
    assert forall|key: u128| #[trigger] keys.contains(key) implies has_walked_position(words, keys, key) by {
        let p = choose|p: (Seq<usize>, u32)| #[trigger] positions.contains(p) && position_key(words, p.0, p.1, k) == key;
        assert(answers_covered(words, k, keys, p.0, p.1));
        assert forall|l: u8, m: u32, f: u32|
            is_open(chosen(words, p.0), letters(p.1), l) && group(words, p.0, l, m).len() > 1 && #[trigger] is_fold(
                words,
                group(words, p.0, l, m),
                p.1 | bit_of(l),
                f,
            ) && signatures(words, group(words, p.0, l, m), f).len() > 1 implies keys.contains(
            position_key(words, group(words, p.0, l, m), f, k),
        ) by {
            assert(covered(words, k, keys, group(words, p.0, l, m), p.1 | bit_of(l)));
        }
        assert(leads_into(words, keys, p.0, p.1));
    }
    assert(warm_keys(words, table, keys));
}

/// What any answer to any open letter leaves of the position has its key in the set.
pub open spec fn leads_into(words: Seq<Vec<u8>>, keys: Set<u128>, d: Seq<usize>, g: u32) -> bool {
    forall|l: u8, m: u32, f: u32|
        is_open(chosen(words, d), letters(g), l) && group(words, d, l, m).len() > 1 && #[trigger] is_fold(
            words,
            group(words, d, l, m),
            g | bit_of(l),
            f,
        ) && signatures(words, group(words, d, l, m), f).len() > 1 ==> keys.contains(
            position_key(words, group(words, d, l, m), f, word_len(words)),
        )
}

/// Some position with this key leads into the set.
pub open spec fn has_walked_position(words: Seq<Vec<u8>>, keys: Set<u128>, key: u128) -> bool {
    exists|d: Seq<usize>, g: u32| #[trigger] leads_into(words, keys, d, g) && position_key(words, d, g, word_len(words)) == key
}

/// The keys of a tree that a table has exact entries for.
pub open spec fn warm_keys(words: Seq<Vec<u8>>, table: Map<u128, u32>, keys: Set<u128>) -> bool {
    &&& forall|key: u128| #[trigger] keys.contains(key) ==> table.contains_key(key) && tt_bound(table[key]) == 0
    &&& forall|key: u128| #[trigger] keys.contains(key) ==> has_walked_position(words, keys, key)
    &&& forall|f: u32| #[trigger]
        is_fold(words, all_indices(words.len()), 0, f) && signatures(words, all_indices(words.len()), f).len() > 1 ==> keys.contains(
            position_key(words, all_indices(words.len()), f, word_len(words)),
        )
}

} // verus!
