//! What a game server needs to look positions up without running a search.
use vstd::prelude::*;

use crate::game::letters::{bit, bit_of, holds, lemma_add_letter, lemma_bit_ops, lemma_bit_single, LetterSet};
use crate::solver::dedup::{dedup_and_hash, position_key};
use crate::solver::memoized::{all_indices, lemma_empty_key, lemma_fold_unique, solvable, word_len};
use crate::solver::required::{foldable, is_fold, lemma_fold_keeps_value};
use crate::solver::signature::{idx_ok, list_ok, position_value};
use crate::solver::trust::{disk_true, lemma_fold_reachable, reachable};
use crate::solver::tt::{claims, tt_bound, tt_letter, tt_value, BOUND_EXACT};

pub use crate::game::letters::pos_mask;
pub use crate::solver::required::fold_required_letters;
pub use crate::solver::tt::{decode_tt_entry, decode_tt_entry_raw, TtEntry};

verus! {

/// The canonical hash of the given words when the letters of `masked` have been
/// guessed: the key of the position in the transposition table. `masked` must
/// have gone through `fold_required_letters` to match the keys of a search.
pub fn canonical_hash_for_words(words: &[Vec<u8>], indices: &[usize], masked: LetterSet) -> (r: u128)
    requires
        indices@.len() > 0 ==> list_ok(words@, words@[indices@[0] as int]@.len()),
        idx_ok(indices@, words@.len()),
    ensures
        r == if indices@.len() == 0 || words@[indices@[0] as int]@.len() == 0 {
            0
        } else {
            position_key(words@, indices@, masked, words@[indices@[0] as int]@.len())
        },
{
    let (_kept, hash) = dedup_and_hash(words, indices, masked);
    hash
}

/// `masked` with the letters that every word holds at the same places.
pub open spec fn fold_of(words: Seq<Vec<u8>>, idx: Seq<usize>, masked: u32) -> u32 {
    choose|r: u32| is_fold(words, idx, masked, r)
}

/// The key under which a position is looked up.
pub open spec fn serving_key(words: Seq<Vec<u8>>, idx: Seq<usize>, masked: u32) -> u128 {
    position_key(words, idx, fold_of(words, idx, masked), word_len(words))
}

/// What a table entry gives away: its value and letter where it is exact.
pub open spec fn exact_entry(o: Option<u32>) -> Option<TtEntry> {
    match o {
        Some(packed) => if tt_bound(packed) == BOUND_EXACT {
            Some(TtEntry { value: tt_value(packed), best_letter: tt_letter(packed) })
        } else {
            None
        },
        None => None,
    }
}

/// `e` is what the lookup `disk` has for the position.
pub open spec fn stored<D: Fn(u128) -> Option<u32>>(
    words: Seq<Vec<u8>>,
    idx: Seq<usize>,
    masked: u32,
    disk: D,
    e: Option<TtEntry>,
) -> bool {
    exists|o: Option<u32>| #[trigger] disk.ensures((serving_key(words, idx, masked),), o) && e == exact_entry(o)
}

/// Look a position up without searching.
pub fn lookup<D: Fn(u128) -> Option<u32>>(words: &[Vec<u8>], indices: &[usize], masked: LetterSet, disk: &D) -> (r: Option<TtEntry>)
    requires
        solvable(words@),
        indices@.len() > 0,
        idx_ok(indices@, words@.len()),
        forall|key: u128| #[trigger] disk.requires((key,)),
    ensures
        stored(words@, indices@, masked, *disk, r),
        r matches Some(e) ==> e.value <= 31,
{
    let folded: LetterSet = fold_required_letters(words, indices, masked);
    let hash: u128 = canonical_hash_for_words(words, indices, folded);
    proof {
        lemma_fold_unique(words@, indices@, masked, folded, fold_of(words@, indices@, masked));
        assert(indices@[0] < words@.len());
        assert(words@[indices@[0] as int]@.len() == word_len(words@));
        if word_len(words@) == 0 {
            lemma_empty_key(words@, indices@, folded);
        }
        assert(hash == serving_key(words@, indices@, masked));
    }
    let o: Option<u32> = disk(hash);
    assert(disk.ensures((serving_key(words@, indices@, masked),), o));
    match o {
        Some(packed) => decode_tt_entry(packed),
        None => None,
    }
}

/// The letters that can be folded, up to a letter of the alphabet.
proof fn lemma_fold_upto(words: Seq<Vec<u8>>, idx: Seq<usize>, masked: u32, n: nat) -> (r: u32)
    requires
        n <= 26,
    ensures
        forall|l: u8| #[trigger] holds(r, l) == (holds(masked, l) || foldable(words, idx, masked, l) && l - 97 < n),
        forall|i: int| 26 <= i ==> #[trigger] bit(r, i) == bit(masked, i),
    decreases n,
{
    if n == 0 {
        masked
    } else {
        let before = lemma_fold_upto(words, idx, masked, (n - 1) as nat);
        let c = (96 + n) as u8;
        if foldable(words, idx, masked, c) {
            lemma_add_letter(before, c);
            lemma_bit_ops(before, bit_of(c));
            lemma_bit_single((c - 97) as u32);
            before | bit_of(c)
        } else {
            before
        }
    }
}

/// Every position has a fold.
pub proof fn lemma_fold_of(words: Seq<Vec<u8>>, idx: Seq<usize>, masked: u32)
    ensures
        is_fold(words, idx, masked, fold_of(words, idx, masked)),
{
    let r = lemma_fold_upto(words, idx, masked, 26);
    assert(is_fold(words, idx, masked, r));
}

/// Where the table on disk is true, what it has for a position that play can reach
/// is the value of the position.
pub proof fn lemma_stored_true<D: Fn(u128) -> Option<u32>>(
    words: Seq<Vec<u8>>,
    idx: Seq<usize>,
    masked: u32,
    disk: D,
    e: Option<TtEntry>,
)
    requires
        solvable(words),
        words.len() <= usize::MAX,
        reachable(words, all_indices(words.len()), 0, idx, masked),
        disk_true(words, all_indices(words.len()), 0, word_len(words), disk),
        stored(words, idx, masked, disk, e),
    ensures
        e matches Some(entry) ==> entry.value == position_value(words, idx, masked),
{
    let all = all_indices(words.len());
    let folded = fold_of(words, idx, masked);
    lemma_fold_of(words, idx, masked);
    lemma_fold_keeps_value(words, idx, masked, folded);
    lemma_fold_reachable(words, word_len(words), all, 0, idx, masked, folded);
    let o = choose|o: Option<u32>| #[trigger] disk.ensures((serving_key(words, idx, masked),), o) && e == exact_entry(o);
    if let Some(packed) = o {
        assert(disk.ensures((position_key(words, idx, folded, word_len(words)),), o));
        assert(claims(packed, position_value(words, idx, folded) as int));
    }
}

} // verus!
