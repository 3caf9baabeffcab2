//! What the walk over the positions guarantees.
use vstd::prelude::*;

use crate::game::letters::{bit_of, holds, is_lower};
use crate::precompute::parts::ordered_parts;
use crate::precompute::walk::{
    child_frame, frame_visit, frame_walk, next_letter, past_part, positions, root_visit, start_frame, FrameView,
    VisitView,
};
use crate::solver::memoized::all_indices;
use crate::solver::serving::serving_key;

verus! {

/// The table key of a position of the walk.
pub open spec fn visit_key(words: Seq<Vec<u8>>, v: VisitView) -> u128 {
    serving_key(words, v.indices, v.masked)
}

/// Some position of the list has this key.
pub open spec fn lists_key(words: Seq<Vec<u8>>, visits: Seq<VisitView>, key: u128) -> bool {
    exists|i: int| 0 <= i < visits.len() && visit_key(words, #[trigger] visits[i]) == key
}

/// No two positions of the list have the same key, and none has a key of the set.
pub open spec fn fresh_keys(words: Seq<Vec<u8>>, visits: Seq<VisitView>, keys: Set<u128>) -> bool {
    &&& forall|i: int| 0 <= i < visits.len() ==> !keys.contains(visit_key(words, #[trigger] visits[i]))
    &&& forall|i: int, j: int|
        0 <= i < j < visits.len() ==> visit_key(words, #[trigger] visits[i]) != visit_key(words, #[trigger] visits[j])
}

/// The set holds the keys of all answers to letter `l` that leave several words,
/// from answer `from` on.
pub open spec fn answers_keyed(words: Seq<Vec<u8>>, parts: Seq<(u32, Seq<usize>)>, from: int, masked: u32, l: u8, keys: Set<u128>) -> bool {
    forall|a: int|
        from <= a < parts.len() && (#[trigger] parts[a]).1.len() > 1 ==> keys.contains(
            serving_key(words, parts[a].1, masked | bit_of(l)),
        )
}

/// The set holds the keys of everything that one more guess leads to, as far as
/// several words remain.
pub open spec fn guesses_keyed(words: Seq<Vec<u8>>, indices: Seq<usize>, masked: u32, keys: Set<u128>) -> bool {
    forall|l: u8|
        is_lower(l) && !#[trigger] holds(masked, l) ==> answers_keyed(words, ordered_parts(words, indices, l), 0, masked, l, keys)
}

/// The same for what a frame has still to deal with.
pub open spec fn frame_keyed(words: Seq<Vec<u8>>, f: FrameView, keys: Set<u128>) -> bool {
    &&& answers_keyed(words, f.parts, f.part, f.masked, f.letter, keys)
    &&& forall|l: u8|
        is_lower(l) && l > f.letter && !#[trigger] holds(f.masked, l) ==> answers_keyed(
            words,
            ordered_parts(words, f.indices, l),
            0,
            f.masked,
            l,
            keys,
        )
}

/// Positions that are not at the last level have all their answers listed.
pub open spec fn inner_keyed(words: Seq<Vec<u8>>, visits: Seq<VisitView>, last: int, keys: Set<u128>) -> bool {
    forall|i: int|
        0 <= i < visits.len() && (#[trigger] visits[i]).depth < last ==> guesses_keyed(words, visits[i].indices, visits[i].masked, keys)
}

/// The positions lie between two levels and hold several words.
pub open spec fn levels_ok(visits: Seq<VisitView>, low: int, high: int) -> bool {
    forall|i: int| 0 <= i < visits.len() ==> low <= (#[trigger] visits[i]).depth <= high && visits[i].indices.len() > 1
}

/// What the walk from a place hands out and which keys it has seen at the end.
proof fn lemma_frame_walk(words: Seq<Vec<u8>>, f: FrameView, keys: Set<u128>)
    requires
        0 <= f.part,
        96 <= f.letter,
    ensures
        ({
            let (visits, after) = frame_walk(words, f, keys);
            &&& fresh_keys(words, visits, keys)
            &&& forall|key: u128| #[trigger] after.contains(key) == (keys.contains(key) || lists_key(words, visits, key))
            &&& levels_ok(visits, f.depth as int, f.depth + f.remaining - 1)
            &&& inner_keyed(words, visits, f.depth + f.remaining - 1, after)
            &&& f.remaining > 0 ==> frame_keyed(words, f, after)
        }),
    decreases f.remaining, 122 - f.letter, f.parts.len() - f.part,
{
    let (visits, end) = frame_walk(words, f, keys);
    if f.remaining == 0 {
    } else if f.part < f.parts.len() {
        let v = frame_visit(f);
        let key = visit_key(words, v);
        let next = past_part(f);
        if v.indices.len() <= 1 || keys.contains(key) {
            lemma_frame_walk(words, next, keys);
        } else {
            let seen = keys.insert(key);
            let child = child_frame(f);
            lemma_frame_walk(words, child, seen);
            let (below, mid) = frame_walk(words, child, seen);
            lemma_frame_walk(words, next, mid);
            let (rest, end2) = frame_walk(words, next, mid);
            assert(visits == seq![v] + below + rest);
            let n = below.len() as int;
            assert(visits[0] == v);
            assert forall|i: int| 0 <= i < n implies visits[i + 1] == #[trigger] below[i] by {}
            assert forall|i: int| 0 <= i < rest.len() implies visits[i + 1 + n] == #[trigger] rest[i] by {}
            lemma_joined_keys(words, v, below, rest, keys, mid);
            assert forall|k: u128| #[trigger] end.contains(k) == (keys.contains(k) || lists_key(words, visits, k)) by {
                assert(end2.contains(k) == (mid.contains(k) || lists_key(words, rest, k)));
                assert(mid.contains(k) == (seen.contains(k) || lists_key(words, below, k)));
                if lists_key(words, below, k) {
                    let i = choose|i: int| 0 <= i < below.len() && visit_key(words, #[trigger] below[i]) == k;
                    assert(visit_key(words, visits[i + 1]) == k);
                }
                if lists_key(words, rest, k) {
                    let i = choose|i: int| 0 <= i < rest.len() && visit_key(words, #[trigger] rest[i]) == k;
                    assert(visit_key(words, visits[i + 1 + n]) == k);
                }
                if k == key {
                    assert(visit_key(words, visits[0]) == k);
                }
                if lists_key(words, visits, k) {
                    let i = choose|i: int| 0 <= i < visits.len() && visit_key(words, #[trigger] visits[i]) == k;
                    if i == 0 {
                        assert(seen.contains(k));
                    } else if i <= n {
                        assert(below[i - 1] == visits[i]);
                    } else {
                        assert(rest[i - 1 - n] == visits[i]);
                    }
                }
            }
            assert forall|i: int| 0 <= i < visits.len() implies f.depth <= (#[trigger] visits[i]).depth <= f.depth + f.remaining - 1
                && visits[i].indices.len() > 1 by {
                if 0 < i <= n {
                    assert(below[i - 1] == visits[i]);
                } else if i > n {
                    assert(rest[i - 1 - n] == visits[i]);
                }
            }
            assert(mid.subset_of(end)) by {
                assert forall|k: u128| mid.contains(k) implies end.contains(k) by {
                    assert(end2.contains(k) == (mid.contains(k) || lists_key(words, rest, k)));
                }
            }
            assert forall|i: int| 0 <= i < visits.len() && (#[trigger] visits[i]).depth < f.depth + f.remaining - 1 implies guesses_keyed(
                words,
                visits[i].indices,
                visits[i].masked,
                end,
            ) by {
                if i == 0 {
                    lemma_start_keyed(words, child, mid);
                    lemma_guesses_more(words, v.indices, v.masked, mid, end);
                } else if i <= n {
                    assert(below[i - 1] == visits[i]);
                    lemma_guesses_more(words, visits[i].indices, visits[i].masked, mid, end);
                } else {
                    assert(rest[i - 1 - n] == visits[i]);
                }
            }
            assert(end.contains(key)) by {
                assert(seen.contains(key));
                assert(mid.contains(key) == (seen.contains(key) || lists_key(words, below, key)));
            }
        }
        assert forall|a: int| f.part <= a < f.parts.len() && (#[trigger] f.parts[a]).1.len() > 1 implies end.contains(
            serving_key(words, f.parts[a].1, f.masked | bit_of(f.letter)),
        ) by {
            if a > f.part {
                assert(next.parts[a] == f.parts[a]);
            } else {
                assert(end.contains(key) == (keys.contains(key) || lists_key(words, visits, key)));
            }
        }
    } else if f.letter < 122 {
        let next = next_letter(words, f);
        lemma_frame_walk(words, next, keys);
        assert forall|l: u8| is_lower(l) && l > f.letter && !#[trigger] holds(f.masked, l) implies answers_keyed(
            words,
            ordered_parts(words, f.indices, l),
            0,
            f.masked,
            l,
            end,
        ) by {
            if l == f.letter + 1 {
                assert(next.parts == ordered_parts(words, f.indices, l));
            } else {
                assert(holds(next.masked, l) == holds(f.masked, l));
            }
        }
    }
}

/// Keys stay fresh when the parts of a walk are joined.
proof fn lemma_joined_keys(
    words: Seq<Vec<u8>>,
    v: VisitView,
    below: Seq<VisitView>,
    rest: Seq<VisitView>,
    keys: Set<u128>,
    mid: Set<u128>,
)
    requires
        !keys.contains(visit_key(words, v)),
        fresh_keys(words, below, keys.insert(visit_key(words, v))),
        forall|key: u128| #[trigger] mid.contains(key) == (keys.insert(visit_key(words, v)).contains(key) || lists_key(words, below, key)),
        fresh_keys(words, rest, mid),
    ensures
        fresh_keys(words, seq![v] + below + rest, keys),
{
    let visits = seq![v] + below + rest;
    let n = below.len() as int;
    let seen = keys.insert(visit_key(words, v));
    assert forall|i: int| 0 <= i < visits.len() implies !keys.contains(visit_key(words, #[trigger] visits[i])) by {
        let k = visit_key(words, visits[i]);
        if 0 < i <= n {
            assert(below[i - 1] == visits[i]);
            assert(!seen.contains(k));
        } else if i > n {
            assert(rest[i - 1 - n] == visits[i]);
            assert(!mid.contains(k));
            assert(!seen.contains(k));
        }
    }
    assert forall|i: int, j: int| 0 <= i < j < visits.len() implies visit_key(words, #[trigger] visits[i]) != visit_key(
        words,
        #[trigger] visits[j],
    ) by {
        let k = visit_key(words, visits[j]);
        if j <= n {
            assert(below[j - 1] == visits[j]);
            assert(!seen.contains(k));
            if i > 0 {
                assert(below[i - 1] == visits[i]);
            }
        } else {
            assert(rest[j - 1 - n] == visits[j]);
            assert(!mid.contains(k));
            if i == 0 {
                assert(visits[i] == v);
            } else if i <= n {
                assert(below[i - 1] == visits[i]);
                if visit_key(words, visits[i]) == k {
                    assert(lists_key(words, below, k));
                }
            } else {
                assert(rest[i - 1 - n] == visits[i]);
            }
        }
    }
}

proof fn lemma_guesses_more(words: Seq<Vec<u8>>, indices: Seq<usize>, masked: u32, keys: Set<u128>, more: Set<u128>)
    requires
        guesses_keyed(words, indices, masked, keys),
        keys.subset_of(more),
    ensures
        guesses_keyed(words, indices, masked, more),
{
    assert forall|l: u8| is_lower(l) && !#[trigger] holds(masked, l) implies answers_keyed(
        words,
        ordered_parts(words, indices, l),
        0,
        masked,
        l,
        more,
    ) by {
        assert(answers_keyed(words, ordered_parts(words, indices, l), 0, masked, l, keys));
    }
}

/// A frame at its start has all guesses before it.
proof fn lemma_start_keyed(words: Seq<Vec<u8>>, f: FrameView, keys: Set<u128>)
    requires
        f.letter == 96,
        f.remaining > 0,
        frame_keyed(words, f, keys),
    ensures
        guesses_keyed(words, f.indices, f.masked, keys),
{
}

/// The walk hands out every position once: no two of them have the same key.
pub proof fn lemma_positions_distinct(words: Seq<Vec<u8>>, max_depth: nat, i: int, j: int)
    requires
        1 <= i < j < positions(words, max_depth).len(),
    ensures
        visit_key(words, positions(words, max_depth)[i]) != visit_key(words, positions(words, max_depth)[j]),
{
    let f = start_frame(all_indices(words.len()), 0, 1, max_depth, Seq::empty());
    lemma_frame_walk(words, f, Set::empty());
    let visits = frame_walk(words, f, Set::empty()).0;
    let all = positions(words, max_depth);
    assert(all[i] == visits[i - 1]);
    assert(all[j] == visits[j - 1]);
}

/// Below the root, the walk hands out positions of at most `max_depth` guesses that
/// leave several words.
pub proof fn lemma_positions_levels(words: Seq<Vec<u8>>, max_depth: nat, i: int)
    requires
        1 <= i < positions(words, max_depth).len(),
    ensures
        1 <= positions(words, max_depth)[i].depth <= max_depth,
        positions(words, max_depth)[i].indices.len() > 1,
{
    let f = start_frame(all_indices(words.len()), 0, 1, max_depth, Seq::empty());
    lemma_frame_walk(words, f, Set::empty());
    let visits = frame_walk(words, f, Set::empty()).0;
    assert(positions(words, max_depth)[i] == visits[i - 1]);
}

/// The walk leaves nothing out: whatever one more guess leads to from a position
/// above the last level is among the positions, up to a shared key.
pub proof fn lemma_positions_closed(words: Seq<Vec<u8>>, max_depth: nat, i: int, l: u8, a: int)
    requires
        0 <= i < positions(words, max_depth).len(),
        positions(words, max_depth)[i].depth < max_depth,
        is_lower(l),
        !holds(positions(words, max_depth)[i].masked, l),
        0 <= a < ordered_parts(words, positions(words, max_depth)[i].indices, l).len(),
        ordered_parts(words, positions(words, max_depth)[i].indices, l)[a].1.len() > 1,
    ensures
        lists_key(
            words,
            positions(words, max_depth),
            serving_key(
                words,
                ordered_parts(words, positions(words, max_depth)[i].indices, l)[a].1,
                positions(words, max_depth)[i].masked | bit_of(l),
            ),
        ),
{
    let f = start_frame(all_indices(words.len()), 0, 1, max_depth, Seq::empty());
    lemma_frame_walk(words, f, Set::empty());
    let (visits, keys) = frame_walk(words, f, Set::empty());
    let all = positions(words, max_depth);
    let v = all[i];
    if i == 0 {
        assert(v == root_visit(words));
        lemma_start_keyed(words, f, keys);
    } else {
        assert(v == visits[i - 1]);
    }
    assert(guesses_keyed(words, v.indices, v.masked, keys));
    let key = serving_key(words, ordered_parts(words, v.indices, l)[a].1, v.masked | bit_of(l));
    assert(answers_keyed(words, ordered_parts(words, v.indices, l), 0, v.masked, l, keys));
    assert(keys.contains(key));
    let t = choose|t: int| 0 <= t < visits.len() && visit_key(words, #[trigger] visits[t]) == key;
    assert(all[t + 1] == visits[t]);
    assert(visit_key(words, all[t + 1]) == key);
}

} // verus!
