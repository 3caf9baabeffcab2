//! What a survey promises: no position is left out, none is made up, and the numbers
//! are counts.
use std::collections::hash_map::DefaultHasher;

use vstd::bytes::{
    lemma_auto_spec_u32_to_from_le_bytes, lemma_auto_spec_u64_to_from_le_bytes, spec_u32_from_le_bytes, spec_u32_to_le_bytes,
    spec_u64_from_le_bytes, spec_u64_to_le_bytes,
};
use vstd::prelude::*;
use vstd::std_specs::hash::DefaultHasherAdditionalSpecFns;

use crate::game::letters::{bit_of, holds};
use crate::precompute::parts::ordered_parts;
use crate::precompute::walk::{child_frame, frame_visit, letter_parts, longer_path, next_letter, past_part, start_frame, FrameView};
use crate::solver::memoized::all_indices;
use crate::solver::partition::group;
use crate::solver::serving::{fold_of, serving_key};
use crate::survey::coverage::{answers_for, bound_text, count_kind, counts, missing_upto, sorted_sizes, Coverage};
use crate::survey::depth::{frame_leaf, index_bytes, leaf_walk, positions_at, state_hash, LeafView};
use crate::survey::levels::{from_level, guesses_seen, is_below, is_new_level, Position};
use crate::survey::timing::{percentile_place, sorted_times};

verus! {

/// The next level misses nothing: whatever an answer to a letter leaves of a position of
/// the level, as long as it leaves several words, is in it under its key, unless the key
/// was seen before.
pub proof fn lemma_level_complete(
    words: Seq<Vec<u8>>,
    level: Seq<Position>,
    out: Seq<Position>,
    before: Set<u128>,
    after: Set<u128>,
    i: int,
    l: u8,
    m: u32,
)
    requires
        is_new_level(words, level, out, before, after),
        0 <= i < level.len(),
        guesses_seen(words, level[i], 123, after),
        97 <= l <= 122,
        !holds(level[i].masked, l),
        group(words, level[i].list(words.len()), l, m).len() > 1,
    ensures
        ({
            let key = serving_key(words, group(words, level[i].list(words.len()), l, m), level[i].masked | bit_of(l));
            before.contains(key) || exists|j: int| 0 <= j < out.len() && (#[trigger] out[j]).key(words) == key
        }),
{
    let key = serving_key(words, group(words, level[i].list(words.len()), l, m), level[i].masked | bit_of(l));
    assert(after.contains(key));
}

/// The next level makes nothing up: each of its positions is what an answer to a letter
/// that was not guessed leaves of a position of the level, has several words, and has a
/// key that was not seen before and that no other has.
pub proof fn lemma_level_sound(
    words: Seq<Vec<u8>>,
    level: Seq<Position>,
    out: Seq<Position>,
    before: Set<u128>,
    after: Set<u128>,
    j: int,
)
    requires
        is_new_level(words, level, out, before, after),
        0 <= j < out.len(),
    ensures
        exists|i: int, l: u8, m: u32|
            0 <= i < level.len() && 97 <= l <= 122 && !#[trigger] holds(level[i].masked, l) && out[j].list(words.len()) == #[trigger] group(
                words,
                level[i].list(words.len()),
                l,
                m,
            ) && out[j].masked == fold_of(words, out[j].list(words.len()), level[i].masked | bit_of(l)),
        out[j].list(words.len()).len() > 1,
        !before.contains(out[j].key(words)),
        after.contains(out[j].key(words)),
        forall|k: int| 0 <= k < out.len() && k != j ==> (#[trigger] out[k]).key(words) != out[j].key(words),
{
    assert(from_level(words, level, out[j]));
    let (i, l, m) = choose|i: int, l: u8, m: u32| 0 <= i < level.len() && #[trigger] is_below(words, level[i], out[j], l, m);
    assert(!holds(level[i].masked, l) && out[j].list(words.len()) == group(words, level[i].list(words.len()), l, m));
    assert forall|k: int| 0 <= k < out.len() && k != j implies (#[trigger] out[k]).key(words) != out[j].key(words) by {
        if k < j {
            assert(out[k].key(words) != out[j].key(words));
        } else {
            assert(out[j].key(words) != out[k].key(words));
        }
    }
}

/// `n` guesses lead from a position, reached by a path, to the leaf: each guess is a
/// letter that was not guessed before, each answer leaves several words, and the path
/// tells them.
pub open spec fn played(words: Seq<Vec<u8>>, indices: Seq<usize>, masked: u32, path: Seq<char>, n: nat, leaf: LeafView) -> bool
    decreases n,
{
    if n == 0 {
        leaf.indices == indices && leaf.masked == masked && leaf.path == path
    } else {
        exists|l: u8, a: int| #[trigger]
            possible(words, indices, masked, l, a) && played(
                words,
                ordered_parts(words, indices, l)[a].1,
                masked | bit_of(l),
                longer_path(path, l, ordered_parts(words, indices, l)[a].0),
                (n - 1) as nat,
                leaf,
            )
    }
}

/// Letter `l` was not guessed, and answer number `a` to it leaves several words.
pub open spec fn possible(words: Seq<Vec<u8>>, indices: Seq<usize>, masked: u32, l: u8, a: int) -> bool {
    97 <= l <= 122 && !holds(masked, l) && 0 <= a < ordered_parts(words, indices, l).len() && ordered_parts(words, indices, l)[a].1.len() > 1
}

proof fn lemma_walk_played(words: Seq<Vec<u8>>, f: FrameView, keys: Set<u64>)
    requires
        0 <= f.part,
        96 <= f.letter <= 122,
        f.letter == 96 ==> f.parts.len() == 0,
        f.letter > 96 ==> f.parts == letter_parts(words, f.indices, f.masked, f.letter),
    ensures
        forall|i: int|
            0 <= i < leaf_walk(words, f, keys).0.len() ==> played(
                words,
                f.indices,
                f.masked,
                f.path,
                f.remaining,
                #[trigger] leaf_walk(words, f, keys).0[i],
            ),
    decreases f.remaining, 122 - f.letter, f.parts.len() - f.part,
{
    let leaves = leaf_walk(words, f, keys).0;
    if f.remaining == 0 {
    } else if f.part < f.parts.len() {
        let v = frame_visit(f);
        let key = state_hash(v.indices, v.masked);
        let next = past_part(f);
        let l = f.letter;
        let a = f.part;
        if v.indices.len() <= 1 || f.remaining == 1 && keys.contains(key) {
            lemma_walk_played(words, next, keys);
            assert(leaves == leaf_walk(words, next, keys).0);
        } else if f.remaining > 1 {
            let child = child_frame(f);
            let (below, mid) = leaf_walk(words, child, keys);
            let rest = leaf_walk(words, next, mid).0;
            lemma_walk_played(words, child, keys);
            lemma_walk_played(words, next, mid);
            assert(leaves == below + rest);
            assert(possible(words, f.indices, f.masked, l, a));
            assert forall|i: int| 0 <= i < leaves.len() implies played(words, f.indices, f.masked, f.path, f.remaining, #[trigger] leaves[i]) by {
                if i < below.len() {
                    assert(leaves[i] == below[i]);
                } else {
                    assert(leaves[i] == rest[i - below.len()]);
                }
            }
        } else {
            let mid = keys.insert(key);
            let rest = leaf_walk(words, next, mid).0;
            lemma_walk_played(words, next, mid);
            assert(leaves == seq![frame_leaf(f)] + rest);
            assert(possible(words, f.indices, f.masked, l, a));
            assert forall|i: int| 0 <= i < leaves.len() implies played(words, f.indices, f.masked, f.path, f.remaining, #[trigger] leaves[i]) by {
                if i == 0 {
                    let leaf = leaves[0];
                    assert(leaf == frame_leaf(f));
                    assert(played(
                        words,
                        ordered_parts(words, f.indices, l)[a].1,
                        f.masked | bit_of(l),
                        longer_path(f.path, l, ordered_parts(words, f.indices, l)[a].0),
                        0,
                        leaf,
                    ));
                } else {
                    assert(leaves[i] == rest[i - 1]);
                }
            }
        }
    } else if f.letter < 122 {
        let next = next_letter(words, f);
        lemma_walk_played(words, next, keys);
        assert(leaves == leaf_walk(words, next, keys).0);
    }
}

/// Every position that the walk hands out at a depth comes about by that many guesses,
/// and its path tells them.
pub proof fn lemma_leaves_played(words: Seq<Vec<u8>>, target: nat, i: int)
    requires
        target > 0,
        0 <= i < positions_at(words, target).len(),
    ensures
        played(words, all_indices(words.len()), 0, Seq::empty(), target, positions_at(words, target)[i]),
{
    let f = start_frame(all_indices(words.len()), 0, 1, target, Seq::empty());
    lemma_walk_played(words, f, Set::empty());
    assert(positions_at(words, target)[i] == leaf_walk(words, f, Set::empty()).0[i]);
}

/// Before any guess there is one position.
pub proof fn lemma_one_root(words: Seq<Vec<u8>>)
    ensures
        positions_at(words, 0).len() == 1,
        positions_at(words, 0)[0].indices == all_indices(words.len()),
        positions_at(words, 0)[0].masked == 0,
{
}

/// Eight bytes per index, in order, of which each gives its index back: two lists of one
/// length with the same bytes are the same.
pub proof fn lemma_index_bytes(idx: Seq<usize>, n: nat, i: int)
    requires
        n <= idx.len(),
        0 <= i < n,
    ensures
        index_bytes(idx, n).len() == 8 * n,
        spec_u64_from_le_bytes(index_bytes(idx, n).subrange(8 * i, 8 * i + 8)) == idx[i],
    decreases n,
{
    lemma_auto_spec_u64_to_from_le_bytes();
    let before = index_bytes(idx, (n - 1) as nat);
    let last = spec_u64_to_le_bytes(idx[n - 1] as u64);
    assert(last.len() == 8);
    if n > 1 {
        lemma_index_bytes(idx, (n - 1) as nat, if i < n - 1 { i } else { 0 });
    }
    if i < n - 1 {
        assert((before + last).subrange(8 * i, 8 * i + 8) =~= before.subrange(8 * i, 8 * i + 8));
    } else {
        assert((before + last).subrange(8 * i, 8 * i + 8) =~= last);
    }
}

/// The names of the kinds of bound.
pub proof fn lemma_bound_names(bound: u32)
    ensures
        bound_text(0) == "EXACT"@,
        bound_text(1) == "LOWER"@,
        bound_text(2) == "UPPER"@,
        bound > 2 ==> bound_text(bound) == "?"@,
{
}

/// The kind of an answer: what its two bits above the tenth say, or three for none.
pub open spec fn kind_of(answer: Option<u32>) -> int {
    match answer {
        Some(packed) => (packed / 1024) as int % 4,
        None => 3,
    }
}

/// The count of a kind is the number of answers of that kind.
pub proof fn lemma_kinds_counted(answers: Seq<Option<u32>>, kind: int)
    requires
        0 <= kind <= 3,
    ensures
        count_kind(answers, kind, answers.len()) == answers.filter(|a: Option<u32>| kind_of(a) == kind).len(),
{
    lemma_kinds_upto(answers, kind, answers.len());
    assert(answers.take(answers.len() as int) =~= answers);
}

proof fn lemma_kinds_upto(answers: Seq<Option<u32>>, kind: int, n: nat)
    requires
        n <= answers.len(),
        0 <= kind <= 3,
    ensures
        count_kind(answers, kind, n) == answers.take(n as int).filter(|a: Option<u32>| kind_of(a) == kind).len(),
    decreases n,
{
    reveal(Seq::filter);
    if n > 0 {
        lemma_kinds_upto(answers, kind, (n - 1) as nat);
        let s = answers.take(n as int);
        assert(s.drop_last() =~= answers.take(n - 1));
        assert(s.last() == answers[n - 1]);
        if let Some(packed) = answers[n - 1] {
            assert((packed >> 10) & 3 == (packed / 1024) % 4) by (bit_vector);
        }
    }
}

/// The list of what is missing holds a place exactly where there is no answer for it, in
/// order, and each with its number of words.
pub proof fn lemma_missing_listed(level: Seq<Position>, answers: Seq<Option<u32>>)
    requires
        answers.len() <= level.len(),
        answers.len() <= usize::MAX,
    ensures
        forall|i: int|
            0 <= i < answers.len() && answers[i] is None ==> #[trigger] missing_upto(level, answers, answers.len()).contains(
                (level[i].words.size() as usize, i as usize),
            ),
        forall|t: int|
            0 <= t < missing_upto(level, answers, answers.len()).len() ==> {
                let at = (#[trigger] missing_upto(level, answers, answers.len())[t]).1;
                at < answers.len() && answers[at as int] is None && missing_upto(level, answers, answers.len())[t].0
                    == level[at as int].words.size() as usize
            },
        forall|t: int, u: int|
            0 <= t < u < missing_upto(level, answers, answers.len()).len() ==> (#[trigger] missing_upto(level, answers, answers.len())[t]).1
                < (#[trigger] missing_upto(level, answers, answers.len())[u]).1,
{
    lemma_missing_upto(level, answers, answers.len());
}

proof fn lemma_missing_upto(level: Seq<Position>, answers: Seq<Option<u32>>, n: nat)
    requires
        n <= answers.len() <= level.len(),
        answers.len() <= usize::MAX,
    ensures
        forall|i: int|
            0 <= i < n && answers[i] is None ==> #[trigger] missing_upto(level, answers, n).contains(
                (level[i].words.size() as usize, i as usize),
            ),
        forall|t: int|
            0 <= t < missing_upto(level, answers, n).len() ==> {
                let at = (#[trigger] missing_upto(level, answers, n)[t]).1;
                at < n && answers[at as int] is None && missing_upto(level, answers, n)[t].0 == level[at as int].words.size() as usize
            },
        forall|t: int, u: int|
            0 <= t < u < missing_upto(level, answers, n).len() ==> (#[trigger] missing_upto(level, answers, n)[t]).1 < (
            #[trigger] missing_upto(level, answers, n)[u]).1,
    decreases n,
{
    if n > 0 {
        lemma_missing_upto(level, answers, (n - 1) as nat);
        let before = missing_upto(level, answers, (n - 1) as nat);
        let now = missing_upto(level, answers, n);
        assert forall|i: int| 0 <= i < n && answers[i] is None implies #[trigger] now.contains((level[i].words.size() as usize, i as usize)) by {
            let item = (level[i].words.size() as usize, i as usize);
            if i < n - 1 {
                assert(before.contains(item));
                let t = choose|t: int| 0 <= t < before.len() && before[t] == item;
                assert(now[t] == item);
            } else {
                assert(now[before.len() as int] == item);
            }
        }
        assert forall|t: int| 0 <= t < now.len() implies ({
            let at = (#[trigger] now[t]).1;
            at < n && answers[at as int] is None && now[t].0 == level[at as int].words.size() as usize
        }) by {
            if t < before.len() {
                assert(now[t] == before[t]);
            }
        }
        assert forall|t: int, u: int| 0 <= t < u < now.len() implies (#[trigger] now[t]).1 < (#[trigger] now[u]).1 by {
            assert(now[t] == before[t]);
            if u < before.len() {
                assert(now[u] == before[u]);
            }
        }
    }
}

/// Sorted sizes are the sizes, each as often, from the smallest to the largest.
pub proof fn lemma_sizes_sorted(sizes: Seq<usize>, s: Seq<usize>, i: int, j: int, x: usize)
    requires
        sorted_sizes(sizes, s),
        0 <= i <= j < sizes.len(),
    ensures
        s[i] <= s[j],
        s.len() == sizes.len(),
        s.to_multiset().count(x) == sizes.to_multiset().count(x),
{
}

/// Sorted times are the times, each as often, from the shortest to the longest.
pub proof fn lemma_times_sorted(times: Seq<u64>, s: Seq<u64>, i: int, j: int, x: u64)
    requires
        sorted_times(times, s),
        0 <= i <= j < times.len(),
    ensures
        s[i] <= s[j],
        s.len() == times.len(),
        s.to_multiset().count(x) == times.to_multiset().count(x),
{
}

/// A percentile stands so far into the sorted list that this part of it, rounded down,
/// stands before; the last one stands in for what lies behind the end.
pub proof fn lemma_percentile_place(n: nat, percent: nat)
    requires
        n > 0,
    ensures
        0 <= percentile_place(n, percent) < n,
        percent < 100 ==> 100 * percentile_place(n, percent) <= n * percent < 100 * (percentile_place(n, percent) + 1),
        percent >= 100 ==> percentile_place(n, percent) == n - 1,
{
    assert(percent < 100 ==> n * percent < n * 100) by (nonlinear_arith)
        requires
            n > 0,
    ;
    assert(percent >= 100 ==> n * percent >= n * 100) by (nonlinear_arith)
        requires
            n > 0,
    ;
}

/// The hash of a position is taken over its guessed letters, the number of its words and
/// each of them: what is hashed gives all of that back.
pub proof fn lemma_state_hash(idx: Seq<usize>, masked: u32)
    requires
        idx.len() <= u64::MAX,
    ensures
        exists|feed: Seq<Seq<u8>>| #[trigger]
            DefaultHasher::spec_finish(feed) == state_hash(idx, masked) && feed.len() == 3 && spec_u32_from_le_bytes(feed[0]) == masked
                && spec_u64_from_le_bytes(feed[1]) == idx.len() && feed[2].len() == 8 * idx.len() && forall|i: int|
                0 <= i < idx.len() ==> spec_u64_from_le_bytes(feed[2].subrange(8 * i, 8 * i + 8)) == #[trigger] idx[i],
{
    lemma_auto_spec_u64_to_from_le_bytes();
    lemma_auto_spec_u32_to_from_le_bytes();
    let feed = seq![spec_u32_to_le_bytes(masked), spec_u64_to_le_bytes(idx.len() as u64), index_bytes(idx, idx.len())];
    assert(DefaultHasher::spec_finish(feed) == state_hash(idx, masked));
    assert(feed.len() == 3 && feed[2] == index_bytes(idx, idx.len()));
    let letters = spec_u32_to_le_bytes(masked);
    assert(spec_u32_to_le_bytes(masked).len() == 4);
    assert(feed[0] == letters);
    assert(spec_u32_from_le_bytes(letters) == masked);
    assert(spec_u64_from_le_bytes(feed[1]) == idx.len());
    assert forall|i: int| 0 <= i < idx.len() implies spec_u64_from_le_bytes(feed[2].subrange(8 * i, 8 * i + 8)) == #[trigger] idx[i] by {
        lemma_index_bytes(idx, idx.len(), i);
    }
    if idx.len() > 0 {
        lemma_index_bytes(idx, idx.len(), 0);
    }
}

/// A coverage counts every position once, and its largest size is that of the largest
/// position.
pub proof fn lemma_coverage_counts(level: Seq<Position>, answers: Seq<Option<u32>>, c: Coverage, missing: Seq<(usize, usize)>)
    requires
        counts(level, answers, c, missing),
        answers.len() <= level.len(),
    ensures
        c.exact == answers.filter(|a: Option<u32>| kind_of(a) == 0).len(),
        c.lower == answers.filter(|a: Option<u32>| kind_of(a) == 1).len(),
        c.upper == answers.filter(|a: Option<u32>| kind_of(a) == 2).len(),
        c.miss == answers.filter(|a: Option<u32>| kind_of(a) == 3).len(),
        c.exact + c.lower + c.upper + c.miss == answers.len(),
        missing == missing_upto(level, answers, answers.len()),
        forall|i: int| 0 <= i < answers.len() ==> (#[trigger] level[i]).words.size() <= c.max_words,
        answers.len() > 0 ==> exists|i: int| 0 <= i < answers.len() && (#[trigger] level[i]).words.size() == c.max_words,
        answers.len() == 0 ==> c.max_words == 0,
{
    lemma_kinds_counted(answers, 0);
    lemma_kinds_counted(answers, 1);
    lemma_kinds_counted(answers, 2);
    lemma_kinds_counted(answers, 3);
    if answers.len() > 0 && c.max_words == 0 {
        assert(level[0].words.size() <= c.max_words);
    }
}

/// A survey asks for each position under its own key.
pub proof fn lemma_answers_asked<D: Fn(u128) -> Option<u32>>(
    words: Seq<Vec<u8>>,
    level: Seq<Position>,
    find: D,
    answers: Seq<Option<u32>>,
    i: int,
    held: Option<u32>,
)
    requires
        answers_for(words, level, find, answers),
        0 <= i < answers.len(),
        forall|o: Option<u32>| #[trigger]
            find.ensures((serving_key(words, level[i].list(words.len()), level[i].masked),), o) ==> o == held,
    ensures
        answers[i] == held,
{
}

} // verus!
