//! What the parts of a search promise of themselves: tables, orders, bounds and counts.
use vstd::prelude::*;

use crate::game::letters::{bit, bit_of, holds, is_lower, letters, lower_word, place_mask};
use crate::game::rules::{is_open, required};
use crate::seqs::lemma_filter;
use crate::solver::bounds::{chain_after_miss, least_chain, miss_chain, safe_letter};
use crate::solver::dag_search::{hidden, hidden_upto};
use crate::solver::data::letter_count;
use crate::solver::dedup::position_key;
use crate::solver::memoized::{
    all_indices, is_warm, is_warmed, is_warmed_alone, merged, overlaid, solvable, with_exact, word_len,
};
use crate::solver::ordering::{largest, largest_upto, scored_count, search_order};
use crate::solver::partition::{group, has_part, is_partition, miss_first};
use crate::solver::required::is_fold;
use crate::solver::search::{bound_kind, table_after};
use crate::solver::serving::{exact_entry, fold_of};
use crate::solver::signature::{chosen, idx_ok, signatures};
use crate::solver::trust::{quick_sum, quick_xor};
use crate::solver::tt::{packed_entry, replaces, tt_bound, tt_letter, tt_value};
use crate::solver::warm::{covered, keys_walked, walked};

verus! {

/// A list can be solved exactly where its words have one length of at most thirty-two and
/// hold nothing but lower-case letters.
pub proof fn lemma_solvable(words: Seq<Vec<u8>>)
    ensures
        solvable(words) <==> forall|i: int|
            0 <= i < words.len() ==> (#[trigger] words[i])@.len() == words[0]@.len() && words[i]@.len() <= 32 && forall|j: int|
                0 <= j < words[i]@.len() ==> 97 <= #[trigger] words[i]@[j] <= 122,
        words.len() > 0 ==> word_len(words) == words[0]@.len(),
{
    if solvable(words) {
        assert forall|i: int| 0 <= i < words.len() implies (#[trigger] words[i])@.len() == words[0]@.len() && words[i]@.len() <= 32
            && forall|j: int| 0 <= j < words[i]@.len() ==> 97 <= #[trigger] words[i]@[j] <= 122 by {
            assert(lower_word(words[i]@));
            assert forall|j: int| 0 <= j < words[i]@.len() implies 97 <= #[trigger] words[i]@[j] <= 122 by {
                assert(is_lower(words[i]@[j]));
            }
        }
    } else if forall|i: int|
        0 <= i < words.len() ==> (#[trigger] words[i])@.len() == words[0]@.len() && words[i]@.len() <= 32 && forall|j: int|
            0 <= j < words[i]@.len() ==> 97 <= #[trigger] words[i]@[j] <= 122 {
        if words.len() > 0 {
            assert(words[0]@.len() <= 32);
        }
        assert forall|i: int| 0 <= i < words.len() implies (#[trigger] words[i])@.len() == word_len(words) && lower_word(words[i]@) by {}
    }
}

/// The indices of a list are its places, each once, in order.
pub proof fn lemma_places_listed(n: nat, i: int)
    requires
        0 <= i < n <= usize::MAX,
    ensures
        all_indices(n).len() == n,
        all_indices(n)[i] == i,
{
}

/// Laying one table over another: where the upper one has a key its entry counts, else
/// that of the lower one.
pub proof fn lemma_overlaid(lower: Map<u128, u32>, upper: Map<u128, u32>, key: u128)
    ensures
        overlaid(lower, upper).contains_key(key) <==> lower.contains_key(key) || upper.contains_key(key),
        upper.contains_key(key) ==> overlaid(lower, upper)[key] == upper[key],
        lower.contains_key(key) && !upper.contains_key(key) ==> overlaid(lower, upper)[key] == lower[key],
{
}

/// Merging two tables loses no key. What only one of them has is kept; of two entries the
/// new one is taken where it may replace the old one.
pub proof fn lemma_tables_merged(before: Map<u128, u32>, new: Map<u128, u32>, key: u128)
    ensures
        merged(before, new).contains_key(key) <==> before.contains_key(key) || new.contains_key(key),
        new.contains_key(key) && !before.contains_key(key) ==> merged(before, new)[key] == new[key],
        before.contains_key(key) && !new.contains_key(key) ==> merged(before, new)[key] == before[key],
        before.contains_key(key) && new.contains_key(key) && replaces(new[key], before[key]) ==> merged(before, new)[key] == new[key],
        before.contains_key(key) && new.contains_key(key) && !replaces(new[key], before[key]) ==> merged(before, new)[key] == before[key],
{
}

/// Taking over exact entries: each of them is taken, and nothing else changes.
pub proof fn lemma_exact_taken(before: Map<u128, u32>, new: Map<u128, u32>, key: u128)
    ensures
        new.contains_key(key) && tt_bound(new[key]) == 0 ==> with_exact(before, new).contains_key(key) && with_exact(before, new)[key]
            == new[key],
        !(new.contains_key(key) && tt_bound(new[key]) == 0) ==> with_exact(before, new).contains_key(key) == before.contains_key(key),
        !(new.contains_key(key) && tt_bound(new[key]) == 0) && before.contains_key(key) ==> with_exact(before, new)[key] == before[key],
{
}

/// A warm table has an exact entry for the full list, unless its words cannot be told
/// apart.
pub proof fn lemma_warm(words: Seq<Vec<u8>>, table: Map<u128, u32>, f: u32)
    requires
        is_warm(words, table),
        is_fold(words, all_indices(words.len()), 0, f),
        signatures(words, all_indices(words.len()), f).len() > 1,
    ensures
        table.contains_key(position_key(words, all_indices(words.len()), f, word_len(words))),
        tt_bound(table[position_key(words, all_indices(words.len()), f, word_len(words))]) == 0,
{
    let (keys, positions) = choose|keys: Set<u128>, positions: Set<(Seq<usize>, u32)>|
        #![trigger walked(words, word_len(words), keys, positions)]
        walked(words, word_len(words), keys, positions) && keys_walked(words, word_len(words), keys, positions)
            && crate::solver::warm::all_exact(table, keys) && covered(words, word_len(words), keys, all_indices(words.len()), 0);
    assert(keys.contains(position_key(words, all_indices(words.len()), f, word_len(words))));
}

/// A table that was warmed is warm, with or without a table on disk.
pub proof fn lemma_warmed_is_warm<D: Fn(u128) -> Option<u32>>(
    words: Seq<Vec<u8>>,
    before: Map<u128, u32>,
    table: Map<u128, u32>,
    disk: D,
    searches: nat,
)
    ensures
        is_warmed(words, before, table, disk, searches) ==> is_warm(words, table),
        is_warmed_alone(words, before, table, searches) ==> is_warm(words, table),
{
}

proof fn lemma_largest_upto(words: Seq<Vec<u8>>, idx: Seq<usize>, l: u8, n: nat)
    requires
        n <= idx.len(),
    ensures
        forall|t: int|
            0 <= t < n ==> group(words, idx, l, place_mask(words[#[trigger] idx[t] as int]@, l)).len() <= largest_upto(words, idx, l, n),
        n > 0 ==> exists|t: int|
            0 <= t < n && group(words, idx, l, place_mask(words[#[trigger] idx[t] as int]@, l)).len() == largest_upto(words, idx, l, n),
    decreases n,
{
    if n > 0 {
        lemma_largest_upto(words, idx, l, (n - 1) as nat);
        let m = place_mask(words[idx[n - 1] as int]@, l);
        if group(words, idx, l, m).len() > largest_upto(words, idx, l, (n - 1) as nat) {
            assert(group(words, idx, l, place_mask(words[idx[n - 1] as int]@, l)).len() == largest_upto(words, idx, l, n));
        } else if n > 1 {
            let t = choose|t: int|
                0 <= t < n - 1 && group(words, idx, l, place_mask(words[#[trigger] idx[t] as int]@, l)).len() == largest_upto(
                    words,
                    idx,
                    l,
                    (n - 1) as nat,
                );
            assert(group(words, idx, l, place_mask(words[idx[t] as int]@, l)).len() == largest_upto(words, idx, l, n));
        } else {
            assert(group(words, idx, l, place_mask(words[idx[0] as int]@, l)).len() == largest_upto(words, idx, l, n));
        }
    }
}

/// The size of the largest answer to a letter is that of some answer, and no answer has
/// more words.
pub proof fn lemma_largest_answer(words: Seq<Vec<u8>>, idx: Seq<usize>, l: u8, m: u32)
    requires
        idx.len() > 0,
    ensures
        group(words, idx, l, m).len() <= largest(words, idx, l),
        exists|t: int|
            0 <= t < idx.len() && group(words, idx, l, place_mask(words[#[trigger] idx[t] as int]@, l)).len() == largest(words, idx, l),
{
    lemma_largest_upto(words, idx, l, idx.len());
    let g = group(words, idx, l, m);
    if g.len() > 0 {
        lemma_filter(idx, |i: usize| place_mask(words[i as int]@, l) == m);
        assert(g.contains(g[0]));
        let t = choose|t: int| 0 <= t < idx.len() && idx[t] == g[0];
        assert(place_mask(words[idx[t] as int]@, l) == m);
    }
}

/// How many letters are ranked by their answers: none where there are few of them, all
/// where that is cheap, else eight.
pub proof fn lemma_scored(n: nat, size: nat)
    ensures
        n <= 6 ==> scored_count(n, size) == 0,
        n > 6 && n * size < 50_000 ==> scored_count(n, size) == n,
        n > 6 && n * size >= 50_000 ==> scored_count(n, size) == 8,
{
}

/// Letters are tried in order: among those ranked by their answers the one whose largest
/// answer is smaller comes first; where that does not decide, the one that cut off more
/// searches, and then the one that more words hold.
pub proof fn lemma_letters_in_order(words: Seq<Vec<u8>>, idx: Seq<usize>, history: Seq<u32>, rank: Seq<u8>, r: Seq<u8>, t: int, u: int)
    requires
        search_order(words, idx, history, rank, r),
        0 <= t < u < r.len(),
    ensures
        ({
            let ranked = r.len() > 6 && (r.len() * idx.len() < 50_000 || u < 8);
            let a = r[t] - 97;
            let b = r[u] - 97;
            &&& ranked ==> largest(words, idx, r[t]) <= largest(words, idx, r[u])
            &&& !ranked || largest(words, idx, r[t]) == largest(words, idx, r[u]) ==> history[a] >= history[b] && (history[a] == history[b]
                ==> rank[a] <= rank[b])
        }),
{
    let a = r[t];
    let b = r[u];
}

/// The chain of misses of a position is the least over its open letters of one miss and
/// the chain that follows it.
pub proof fn lemma_chain_is_least(words: Seq<Vec<u8>>, idx: Seq<usize>, masked: u32, depth: nat)
    requires
        idx.len() > 1,
        depth > 0,
    ensures
        forall|l: u8|
            97 <= l <= 122 && #[trigger] is_open(chosen(words, idx), letters(masked), l) ==> miss_chain(words, idx, masked, depth) <= 1
                + chain_after_miss(words, group(words, idx, l, 0), masked | bit_of(l), (depth - 1) as nat),
        (exists|l: u8| 97 <= l <= 122 && #[trigger] is_open(chosen(words, idx), letters(masked), l)) ==> exists|l: u8|
            97 <= l <= 122 && #[trigger] is_open(chosen(words, idx), letters(masked), l) && miss_chain(words, idx, masked, depth) == 1
                + chain_after_miss(words, group(words, idx, l, 0), masked | bit_of(l), (depth - 1) as nat),
        !(exists|l: u8| 97 <= l <= 122 && #[trigger] is_open(chosen(words, idx), letters(masked), l)) ==> miss_chain(
            words,
            idx,
            masked,
            depth,
        ) == 0,
{
    lemma_least_upto(words, idx, masked, depth, 26);
}

proof fn lemma_least_upto(words: Seq<Vec<u8>>, idx: Seq<usize>, masked: u32, depth: nat, n: nat)
    requires
        depth > 0,
        n <= 26,
    ensures
        ({
            let s = chosen(words, idx);
            let g = letters(masked);
            let r = least_chain(words, idx, masked, depth, n);
            &&& forall|l: u8|
                97 <= l < 97 + n && #[trigger] is_open(s, g, l) ==> r is Some && r->0 <= 1 + chain_after_miss(
                    words,
                    group(words, idx, l, 0),
                    masked | bit_of(l),
                    (depth - 1) as nat,
                )
            &&& r is Some ==> exists|l: u8|
                97 <= l < 97 + n && #[trigger] is_open(s, g, l) && r->0 == 1 + chain_after_miss(
                    words,
                    group(words, idx, l, 0),
                    masked | bit_of(l),
                    (depth - 1) as nat,
                )
        }),
    decreases n,
{
    if n > 0 {
        lemma_least_upto(words, idx, masked, depth, (n - 1) as nat);
        let s = chosen(words, idx);
        let g = letters(masked);
        let l = (96 + n) as u8;
        let r = least_chain(words, idx, masked, depth, n);
        let before = least_chain(words, idx, masked, depth, (n - 1) as nat);
        if before is Some {
            let c = choose|c: u8|
                97 <= c < 97 + n - 1 && #[trigger] is_open(s, g, c) && before->0 == 1 + chain_after_miss(
                    words,
                    group(words, idx, c, 0),
                    masked | bit_of(c),
                    (depth - 1) as nat,
                );
            assert(is_open(s, g, c));
        }
        if is_open(s, g, l) {
            assert(r is Some);
        }
        assert forall|c: u8| 97 <= c < 97 + n && #[trigger] is_open(s, g, c) implies r is Some && r->0 <= 1 + chain_after_miss(
            words,
            group(words, idx, c, 0),
            masked | bit_of(c),
            (depth - 1) as nat,
        ) by {
            if c < l {
                assert(before is Some);
            }
        }
    }
}

/// A chain ends where one word is left, where some letter stands in every word, or at
/// the depth.
pub proof fn lemma_chain_ends(words: Seq<Vec<u8>>, idx: Seq<usize>, masked: u32, depth: nat)
    ensures
        idx.len() <= 1 ==> chain_after_miss(words, idx, masked, depth) == 0,
        depth == 0 ==> chain_after_miss(words, idx, masked, depth) == 0,
        (exists|l: u8|
            97 <= l <= 122 && !holds(fold_of(words, idx, masked), l) && #[trigger] required(chosen(words, idx), l)) ==> chain_after_miss(
            words,
            idx,
            masked,
            depth,
        ) == 0,
        idx.len() > 1 && !(exists|l: u8|
            97 <= l <= 122 && !holds(fold_of(words, idx, masked), l) && #[trigger] required(chosen(words, idx), l)) ==> chain_after_miss(
            words,
            idx,
            masked,
            depth,
        ) == miss_chain(words, idx, fold_of(words, idx, masked), depth),
{
    let folded = fold_of(words, idx, masked);
    assert(safe_letter(words, idx, folded) == exists|l: u8| 97 <= l <= 122 && !holds(folded, l) && #[trigger] required(chosen(words, idx), l));
}

/// The count of a letter is the number of words that hold it.
pub proof fn lemma_letter_counted(sets: Seq<u32>, l: int)
    ensures
        letter_count(sets, l, sets.len()) == sets.filter(|m: u32| bit(m, l)).len(),
{
    lemma_counted_upto(sets, l, sets.len());
    assert(sets.take(sets.len() as int) =~= sets);
}

proof fn lemma_counted_upto(sets: Seq<u32>, l: int, n: nat)
    requires
        n <= sets.len(),
    ensures
        letter_count(sets, l, n) == sets.take(n as int).filter(|m: u32| bit(m, l)).len(),
    decreases n,
{
    reveal(Seq::filter);
    if n > 0 {
        lemma_counted_upto(sets, l, (n - 1) as nat);
        let s = sets.take(n as int);
        assert(s.drop_last() =~= sets.take(n - 1));
        assert(s.last() == sets[n - 1]);
    }
}

/// The number of hidden places of a pattern.
pub proof fn lemma_hidden_counted(p: Seq<u8>)
    ensures
        hidden(p) == p.filter(|b: u8| b == 0).len(),
{
    lemma_hidden_upto(p, p.len());
    assert(p.take(p.len() as int) =~= p);
}

proof fn lemma_hidden_upto(p: Seq<u8>, n: nat)
    requires
        n <= p.len(),
    ensures
        hidden_upto(p, n) == p.take(n as int).filter(|b: u8| b == 0).len(),
    decreases n,
{
    reveal(Seq::filter);
    if n > 0 {
        lemma_hidden_upto(p, (n - 1) as nat);
        let s = p.take(n as int);
        assert(s.drop_last() =~= p.take(n - 1));
        assert(s.last() == p[n - 1]);
    }
}

/// What a table serves: an exact entry as it is, and nothing else.
pub proof fn lemma_served_entry(packed: u32)
    ensures
        exact_entry(None) is None,
        exact_entry(Some(packed)) is Some <==> tt_bound(packed) == 0,
        exact_entry(Some(packed)) matches Some(e) ==> e.value == tt_value(packed) && e.best_letter == tt_letter(packed),
{
}

/// After a search only the entry of its position may have changed, and there is one. A
/// result inside the window is stored as exact, one at its upper end or above as reached,
/// one at its lower end or below as not exceeded; a bound gives way only to an exact
/// result or to a better bound of its kind.
pub proof fn lemma_result_stored(table: Map<u128, u32>, key: u128, best: u32, best_letter: u8, alpha: u32, beta: u32, other: u128)
    requires
        alpha < beta,
    ensures
        ({
            let after = table_after(table, key, best, best_letter, alpha, beta);
            let kind = if best <= alpha {
                2u32
            } else if best >= beta {
                1u32
            } else {
                0u32
            };
            &&& bound_kind(best, alpha, beta) == kind
            &&& other != key ==> after.contains_key(other) == table.contains_key(other)
            &&& other != key && table.contains_key(other) ==> after[other] == table[other]
            &&& after.contains_key(key)
            &&& kind == 0 || !table.contains_key(key) ==> after[key] == packed_entry(best, best_letter, kind)
            &&& kind != 0 && table.contains_key(key) && tt_bound(table[key]) != kind ==> after[key] == table[key]
            &&& kind == 1 && table.contains_key(key) && tt_bound(table[key]) == 1 ==> after[key] == if best > tt_value(table[key]) {
                packed_entry(best, best_letter, 1)
            } else {
                table[key]
            }
            &&& kind == 2 && table.contains_key(key) && tt_bound(table[key]) == 2 ==> after[key] == if best < tt_value(table[key]) {
                packed_entry(best, best_letter, 2)
            } else {
                table[key]
            }
        }),
{
}

/// Each index of a list goes into both sums of its quick key.
pub proof fn lemma_quick_sums(idx: Seq<usize>, i: usize)
    ensures
        quick_sum(idx.push(i), idx.len() + 1) == quick_sum(idx, idx.len()).wrapping_add((i as u64).wrapping_mul(0x517c_c1b7_2722_0a95)),
        quick_xor(idx.push(i), idx.len() + 1) == quick_xor(idx, idx.len()) ^ (i as u64).wrapping_mul(0x517c_c1b7_2722_0a95),
{
    lemma_quick_upto(idx, i, idx.len());
}

proof fn lemma_quick_upto(idx: Seq<usize>, i: usize, n: nat)
    requires
        n <= idx.len(),
    ensures
        quick_sum(idx.push(i), n) == quick_sum(idx, n),
        quick_xor(idx.push(i), n) == quick_xor(idx, n),
    decreases n,
{
    if n > 0 {
        lemma_quick_upto(idx, i, (n - 1) as nat);
        assert(idx.push(i)[n - 1] == idx[n - 1]);
    }
}

/// Every word is in one answer to a letter, and only in that one.
pub proof fn lemma_one_answer(words: Seq<Vec<u8>>, idx: Seq<usize>, l: u8, parts: Seq<(u32, Vec<usize>)>, t: int)
    requires
        is_partition(words, idx, l, parts),
        idx_ok(idx, words.len()),
        0 <= t < idx.len(),
    ensures
        exists|a: int|
            0 <= a < parts.len() && (#[trigger] parts[a]).1@.contains(idx[t]) && parts[a].0 == place_mask(words[idx[t] as int]@, l),
        forall|a: int| 0 <= a < parts.len() && (#[trigger] parts[a]).1@.contains(idx[t]) ==> parts[a].0 == place_mask(words[idx[t] as int]@, l),
        forall|a: int, b: int|
            0 <= a < parts.len() && 0 <= b < parts.len() && (#[trigger] parts[a]).1@.contains(idx[t]) && (#[trigger] parts[b]).1@.contains(idx[t])
                ==> a == b,
        forall|a: int, i: usize| 0 <= a < parts.len() && #[trigger] parts[a].1@.contains(i) ==> idx.contains(i),
{
    let m = place_mask(words[idx[t] as int]@, l);
    assert(has_part(parts, m));
    let a = choose|a: int| 0 <= a < parts.len() && (#[trigger] parts[a]).0 == m;
    lemma_filter(idx, |i: usize| place_mask(words[i as int]@, l) == m);
    assert(idx.contains(idx[t]));
    assert(parts[a].1@.contains(idx[t]));
    assert forall|b: int| 0 <= b < parts.len() && (#[trigger] parts[b]).1@.contains(idx[t]) implies parts[b].0 == m by {
        lemma_filter(idx, |i: usize| place_mask(words[i as int]@, l) == parts[b].0);
    }
    assert forall|b: int, i: usize| 0 <= b < parts.len() && #[trigger] parts[b].1@.contains(i) implies idx.contains(i) by {
        lemma_filter(idx, |i: usize| place_mask(words[i as int]@, l) == parts[b].0);
    }
    assert forall|b: int, c: int|
        0 <= b < parts.len() && 0 <= c < parts.len() && (#[trigger] parts[b]).1@.contains(idx[t]) && (#[trigger] parts[c]).1@.contains(idx[t])
        implies b == c by {
        assert(parts[b].0 == m && parts[c].0 == m);
        if b < c {
            assert(parts[b].0 != parts[c].0);
        } else if c < b {
            assert(parts[c].0 != parts[b].0);
        }
    }
}

/// The answer that misses is searched first, then the one with more words.
pub proof fn lemma_miss_first(a: (u32, Vec<usize>), b: (u32, Vec<usize>))
    ensures
        a.0 == 0 && b.0 != 0 ==> miss_first(a, b) && !miss_first(b, a),
        (a.0 == 0) == (b.0 == 0) ==> miss_first(a, b) == (a.1@.len() >= b.1@.len()),
{
}

} // verus!
