//! Every position of the walk comes about by play, and is labelled for how it did.
use vstd::prelude::*;

use crate::game::letters::{bit_of, holds, place_mask};
use crate::precompute::label::{answer_kind, label_text};
use crate::precompute::parts::{is_ordered_parts, ordered_parts, part_before};
use crate::precompute::walk::{
    child_frame, frame_visit, frame_walk, letter_parts, longer_path, next_letter, past_part, positions, root_visit,
    start_frame, FrameView, VisitView,
};
use crate::seqs::lemma_filter;
use crate::solver::memoized::all_indices;
use crate::solver::partition::group;
use crate::text::{byte_char, decimal, hexadecimal};

verus! {

/// `v` is what an answer to its letter leaves of a position with these words and guessed
/// letters, with this depth and path for what follows.
pub open spec fn comes_of(words: Seq<Vec<u8>>, indices: Seq<usize>, masked: u32, depth: nat, path: Seq<char>, v: VisitView) -> bool {
    &&& 97 <= v.letter <= 122
    &&& !holds(masked, v.letter)
    &&& ordered_parts(words, indices, v.letter).contains((v.pmask, v.indices))
    &&& v.indices.len() > 1
    &&& v.masked == masked | bit_of(v.letter)
    &&& v.depth == depth
    &&& v.path == path
}

/// The answers that a place has to deal with are those to its letter.
spec fn frame_true(words: Seq<Vec<u8>>, f: FrameView) -> bool {
    &&& 96 <= f.letter <= 122
    &&& 0 <= f.part
    &&& f.letter == 96 ==> f.parts.len() == 0
    &&& f.letter > 96 ==> f.parts == letter_parts(words, f.indices, f.masked, f.letter)
}

/// Visit `i` comes of the place or of an earlier visit.
spec fn has_parent(words: Seq<Vec<u8>>, f: FrameView, visits: Seq<VisitView>, i: int) -> bool {
    ||| comes_of(words, f.indices, f.masked, f.depth, f.path, visits[i])
    ||| exists|j: int|
        0 <= j < i && comes_of(
            words,
            (#[trigger] visits[j]).indices,
            visits[j].masked,
            visits[j].depth + 1,
            longer_path(visits[j].path, visits[j].letter, visits[j].pmask),
            visits[i],
        )
}

proof fn lemma_walk_sound(words: Seq<Vec<u8>>, f: FrameView, keys: Set<u128>)
    requires
        frame_true(words, f),
    ensures
        forall|i: int| 0 <= i < frame_walk(words, f, keys).0.len() ==> #[trigger] has_parent(words, f, frame_walk(words, f, keys).0, i),
    decreases f.remaining, 122 - f.letter, f.parts.len() - f.part,
{
    let visits = frame_walk(words, f, keys).0;
    if f.remaining == 0 {
    } else if f.part < f.parts.len() {
        let v = frame_visit(f);
        let key = crate::solver::serving::serving_key(words, v.indices, v.masked);
        let next = past_part(f);
        if v.indices.len() <= 1 || keys.contains(key) {
            lemma_walk_sound(words, next, keys);
            assert(visits == frame_walk(words, next, keys).0);
            assert forall|i: int| 0 <= i < visits.len() implies #[trigger] has_parent(words, f, visits, i) by {
                assert(has_parent(words, next, visits, i));
            }
        } else {
            let child = child_frame(f);
            let (below, mid) = frame_walk(words, child, keys.insert(key));
            let rest = frame_walk(words, next, mid).0;
            lemma_walk_sound(words, child, keys.insert(key));
            lemma_walk_sound(words, next, mid);
            let n = below.len() as int;
            assert(visits == seq![v] + below + rest);
            assert forall|i: int| 0 <= i < visits.len() implies #[trigger] has_parent(words, f, visits, i) by {
                if i == 0 {
                    assert(visits[0] == v);
                    assert(ordered_parts(words, f.indices, f.letter)[f.part] == (v.pmask, v.indices));
                    assert(comes_of(words, f.indices, f.masked, f.depth, f.path, v));
                } else if i <= n {
                    assert(visits[i] == below[i - 1]);
                    assert(has_parent(words, child, below, i - 1));
                    if comes_of(words, child.indices, child.masked, child.depth, child.path, below[i - 1]) {
                        assert(visits[0] == v);
                        assert(comes_of(
                            words,
                            visits[0].indices,
                            visits[0].masked,
                            visits[0].depth + 1,
                            longer_path(visits[0].path, visits[0].letter, visits[0].pmask),
                            visits[i],
                        ));
                    } else {
                        let j = choose|j: int|
                            0 <= j < i - 1 && comes_of(
                                words,
                                (#[trigger] below[j]).indices,
                                below[j].masked,
                                below[j].depth + 1,
                                longer_path(below[j].path, below[j].letter, below[j].pmask),
                                below[i - 1],
                            );
                        assert(visits[j + 1] == below[j]);
                    }
                } else {
                    assert(visits[i] == rest[i - 1 - n]);
                    assert(has_parent(words, next, rest, i - 1 - n));
                    if !comes_of(words, f.indices, f.masked, f.depth, f.path, visits[i]) {
                        let j = choose|j: int|
                            0 <= j < i - 1 - n && comes_of(
                                words,
                                (#[trigger] rest[j]).indices,
                                rest[j].masked,
                                rest[j].depth + 1,
                                longer_path(rest[j].path, rest[j].letter, rest[j].pmask),
                                rest[i - 1 - n],
                            );
                        assert(visits[j + 1 + n] == rest[j]);
                    }
                }
            }
        }
    } else if f.letter < 122 {
        let next = next_letter(words, f);
        lemma_walk_sound(words, next, keys);
        assert(visits == frame_walk(words, next, keys).0);
        assert forall|i: int| 0 <= i < visits.len() implies #[trigger] has_parent(words, f, visits, i) by {
            assert(has_parent(words, next, visits, i));
        }
    }
}

/// The walk starts with the full list and nothing guessed, and every other position is
/// what an answer to its letter leaves of an earlier one: with that letter guessed in
/// addition, one level deeper, and with the path of that one, its letter and answer
/// added.
pub proof fn lemma_positions_come_of_play(words: Seq<Vec<u8>>, max_depth: nat, i: int)
    requires
        0 <= i < positions(words, max_depth).len(),
    ensures
        positions(words, max_depth)[0].indices == all_indices(words.len()),
        positions(words, max_depth)[0].masked == 0,
        positions(words, max_depth)[0].depth == 0,
        i > 0 ==> exists|j: int|
            0 <= j < i && comes_of(
                words,
                (#[trigger] positions(words, max_depth)[j]).indices,
                positions(words, max_depth)[j].masked,
                positions(words, max_depth)[j].depth + 1,
                if j == 0 {
                    Seq::<char>::empty()
                } else {
                    longer_path(
                        positions(words, max_depth)[j].path,
                        positions(words, max_depth)[j].letter,
                        positions(words, max_depth)[j].pmask,
                    )
                },
                positions(words, max_depth)[i],
            ),
{
    let all = positions(words, max_depth);
    let f = start_frame(all_indices(words.len()), 0, 1, max_depth, Seq::empty());
    let visits = frame_walk(words, f, Set::empty()).0;
    assert(all[0] == root_visit(words));
    if i > 0 {
        lemma_walk_sound(words, f, Set::empty());
        assert(all[i] == visits[i - 1]);
        assert(has_parent(words, f, visits, i - 1));
        if comes_of(words, f.indices, f.masked, f.depth, f.path, visits[i - 1]) {
            assert(all[0].indices == f.indices);
        } else {
            let j = choose|j: int|
                0 <= j < i - 1 && comes_of(
                    words,
                    (#[trigger] visits[j]).indices,
                    visits[j].masked,
                    visits[j].depth + 1,
                    longer_path(visits[j].path, visits[j].letter, visits[j].pmask),
                    visits[i - 1],
                );
            assert(all[j + 1] == visits[j]);
        }
    }
}

/// Answers are listed with the larger ones first, and those of one size by their places.
pub proof fn lemma_answers_in_order(words: Seq<Vec<u8>>, idx: Seq<usize>, l: u8, p: Seq<(u32, Seq<usize>)>, a: int, b: int)
    requires
        is_ordered_parts(words, idx, l, p),
        0 <= a < b < p.len(),
    ensures
        p[a].1.len() >= p[b].1.len(),
        p[a].1.len() == p[b].1.len() ==> p[a].0 < p[b].0,
        p[a].0 != p[b].0,
{
    assert(part_before(p[a], p[b]));
}

/// A path grows at its end: by a plus sign where it is not the first step, the letter in
/// quotes, and whether it was a hit or a miss.
pub proof fn lemma_path_step(path: Seq<char>, letter: u8, pmask: u32)
    ensures
        path.len() == 0 && pmask == 0 ==> longer_path(path, letter, pmask) == seq!['\'', letter as char, '\'', 'm', 'i', 's', 's'],
        path.len() == 0 && pmask != 0 ==> longer_path(path, letter, pmask) == seq!['\'', letter as char, '\'', 'h', 'i', 't'],
        path.len() > 0 ==> longer_path(path, letter, pmask) == path + seq!['+'] + longer_path(Seq::empty(), letter, pmask),
{
    reveal_strlit("+");
    reveal_strlit("'");
    reveal_strlit("'miss");
    reveal_strlit("'hit");
    let none = Seq::<char>::empty();
    if pmask == 0 {
        assert(longer_path(none, letter, pmask) =~= seq!['\'', letter as char, '\'', 'm', 'i', 's', 's']);
    } else {
        assert(longer_path(none, letter, pmask) =~= seq!['\'', letter as char, '\'', 'h', 'i', 't']);
    }
    if path.len() == 0 {
        assert(path =~= none);
    } else {
        assert(longer_path(path, letter, pmask) =~= path + seq!['+'] + longer_path(none, letter, pmask));
    }
}

/// A label tells depth and number of words, and in between how the position was reached:
/// by the letter, whether it hit, and its places where it is the first guess, by the path
/// before it where it is not.
pub proof fn lemma_label(v: VisitView)
    ensures
        v.depth == 0 ==> label_text(v) == "d0 root "@ + decimal(v.indices.len()),
        v.depth > 0 && v.path.len() == 0 && v.pmask == 0 ==> label_text(v) == "d"@ + decimal(v.depth) + " '"@ + seq![v.letter as char]
            + "' miss(0x"@ + hexadecimal(0) + ") "@ + decimal(v.indices.len()),
        v.depth > 0 && v.path.len() == 0 && v.pmask != 0 ==> label_text(v) == "d"@ + decimal(v.depth) + " '"@ + seq![v.letter as char]
            + "' hit(0x"@ + hexadecimal(v.pmask as nat) + ") "@ + decimal(v.indices.len()),
        v.depth > 0 && v.path.len() > 0 && v.pmask == 0 ==> label_text(v) == "d"@ + decimal(v.depth) + " "@ + v.path + "+'"@
            + seq![v.letter as char] + "'miss "@ + decimal(v.indices.len()),
        v.depth > 0 && v.path.len() > 0 && v.pmask != 0 ==> label_text(v) == "d"@ + decimal(v.depth) + " "@ + v.path + "+'"@
            + seq![v.letter as char] + "'hit "@ + decimal(v.indices.len()),
{
    reveal_strlit("' ");
    reveal_strlit("miss");
    reveal_strlit("hit");
    reveal_strlit("(0x");
    reveal_strlit("' miss(0x");
    reveal_strlit("' hit(0x");
    reveal_strlit("'");
    reveal_strlit(" ");
    reveal_strlit("'miss ");
    reveal_strlit("'hit ");
    assert("' "@ + "miss"@ + "(0x"@ =~= "' miss(0x"@);
    assert("' "@ + "hit"@ + "(0x"@ =~= "' hit(0x"@);
    assert("'"@ + "miss"@ + " "@ =~= "'miss "@);
    assert("'"@ + "hit"@ + " "@ =~= "'hit "@);
    let count = decimal(v.indices.len());
    let kind = answer_kind(v.pmask);
    let one = seq![v.letter as char];
    if v.depth > 0 && v.path.len() == 0 {
        let head = "d"@ + decimal(v.depth) + " '"@;
        let tail = hexadecimal(v.pmask as nat) + ") "@ + count;
        assert(head.push(byte_char(v.letter)) =~= head + one);
        assert(label_text(v) =~= head + one + ("' "@ + kind + "(0x"@) + tail);
        if v.pmask == 0 {
            assert(head + one + "' miss(0x"@ + tail =~= head + one + "' miss(0x"@ + hexadecimal(0) + ") "@ + count);
        } else {
            assert(head + one + "' hit(0x"@ + tail =~= head + one + "' hit(0x"@ + hexadecimal(v.pmask as nat) + ") "@ + count);
        }
    } else if v.depth > 0 {
        let head = "d"@ + decimal(v.depth) + " "@ + v.path + "+'"@;
        assert(head.push(byte_char(v.letter)) =~= head + one);
        assert(label_text(v) =~= head + one + ("'"@ + kind + " "@) + count);
    }
}

/// The answers to a letter are all there, each with its words and none twice.
pub proof fn lemma_answers_complete(words: Seq<Vec<u8>>, idx: Seq<usize>, l: u8, p: Seq<(u32, Seq<usize>)>, t: int)
    requires
        is_ordered_parts(words, idx, l, p),
        0 <= t < idx.len(),
    ensures
        exists|a: int| 0 <= a < p.len() && (#[trigger] p[a]).1.contains(idx[t]) && p[a].0 == place_mask(words[idx[t] as int]@, l),
        forall|a: int, i: usize| 0 <= a < p.len() && #[trigger] p[a].1.contains(i) ==> idx.contains(i) && place_mask(words[i as int]@, l) == p[a].0,
        forall|a: int| 0 <= a < p.len() ==> (#[trigger] p[a]).1 == idx.filter(|i: usize| place_mask(words[i as int]@, l) == p[a].0),
{
    let m = place_mask(words[idx[t] as int]@, l);
    let g = group(words, idx, l, m);
    lemma_filter(idx, |i: usize| place_mask(words[i as int]@, l) == m);
    assert(idx.contains(idx[t]));
    assert(g.contains(idx[t]));
    assert(p.contains((m, g)));
    let a = choose|a: int| 0 <= a < p.len() && p[a] == (m, g);
    assert(p[a].1.contains(idx[t]));
    assert forall|a: int, i: usize| 0 <= a < p.len() && #[trigger] p[a].1.contains(i) implies idx.contains(i) && place_mask(
        words[i as int]@,
        l,
    ) == p[a].0 by {
        lemma_filter(idx, |i: usize| place_mask(words[i as int]@, l) == p[a].0);
    }
}

} // verus!
