//! Walking the game tree.
//!
//! The walk goes down the tree letter by letter, up to a number of guesses, and
//! hands out every position once: positions that share a table key count as one.
//! It holds only the path that it stands on and the keys seen so far, so memory
//! grows with the number of distinct positions, not with the size of the tree.
use rustc_hash::FxHashSet;
use vstd::prelude::*;

use crate::game::letters::{bit_of, holds, is_lower, lemma_test_letter, letter_bit, LetterSet};
use crate::precompute::parts::{ordered_parts, part_views, partition_by_letter};
use crate::solver::memoized::{all_indices, index_list, lemma_empty_key, lemma_fold_unique, solvable, word_len};
use crate::solver::partition::lemma_group;
use crate::solver::serving::{
    canonical_hash_for_words, fold_of, fold_required_letters, lemma_fold_of, lookup, serving_key, stored, TtEntry,
};
use crate::solver::signature::idx_ok;
use crate::solver::table::{seen_insert, seen_new};
use crate::text::{byte_char, push_text};

verus! {

/// A position of the walk.
pub ghost struct VisitView {
    pub depth: nat,
    pub path: Seq<char>,
    pub letter: u8,
    pub pmask: u32,
    pub indices: Seq<usize>,
    pub masked: u32,
}

/// A position of the walk: how it was reached, which words are possible and which
/// letters have been guessed.
#[derive(Debug, Clone)]
pub struct Visit {
    /// The number of guesses.
    pub depth: usize,
    /// The guesses before the last one with their answers.
    pub path: String,
    /// The last guess.
    pub letter: u8,
    /// The places at which the last guess stands.
    pub pmask: u32,
    pub indices: Vec<usize>,
    pub masked: LetterSet,
}

impl View for Visit {
    type V = VisitView;

    open spec fn view(&self) -> VisitView {
        VisitView {
            depth: self.depth as nat,
            path: self.path@,
            letter: self.letter,
            pmask: self.pmask,
            indices: self.indices@,
            masked: self.masked,
        }
    }
}

/// The position before any guess.
pub open spec fn root_visit(words: Seq<Vec<u8>>) -> VisitView {
    VisitView { depth: 0, path: Seq::empty(), letter: 0, pmask: 0, indices: all_indices(words.len()), masked: 0 }
}

/// A path with one more guess and its answer.
pub open spec fn longer_path(path: Seq<char>, letter: u8, pmask: u32) -> Seq<char> {
    let start = if path.len() == 0 {
        path
    } else {
        path + "+"@
    };
    (start + "'"@).push(byte_char(letter)) + if pmask == 0 {
        "'miss"@
    } else {
        "'hit"@
    }
}

/// A place in the tree: the walk has dealt with the letters before `letter` and
/// with the first `part` answers to it.
pub ghost struct FrameView {
    pub indices: Seq<usize>,
    pub masked: u32,
    pub depth: nat,
    pub remaining: nat,
    pub path: Seq<char>,
    pub letter: u8,
    pub parts: Seq<(u32, Seq<usize>)>,
    pub part: int,
}

/// The place above all answers of a position.
pub open spec fn start_frame(indices: Seq<usize>, masked: u32, depth: nat, remaining: nat, path: Seq<char>) -> FrameView {
    FrameView { indices, masked, depth, remaining, path, letter: 96, parts: Seq::empty(), part: 0 }
}

/// The answers to a letter; none where it has been guessed.
pub open spec fn letter_parts(words: Seq<Vec<u8>>, indices: Seq<usize>, masked: u32, l: u8) -> Seq<(u32, Seq<usize>)> {
    if holds(masked, l) {
        Seq::empty()
    } else {
        ordered_parts(words, indices, l)
    }
}

/// The visit that the next answer of a frame leads to.
pub open spec fn frame_visit(f: FrameView) -> VisitView {
    let (pmask, indices) = f.parts[f.part];
    VisitView { depth: f.depth, path: f.path, letter: f.letter, pmask, indices, masked: f.masked | bit_of(f.letter) }
}

/// The place below the next answer of a frame.
pub open spec fn child_frame(f: FrameView) -> FrameView {
    let (pmask, indices) = f.parts[f.part];
    start_frame(
        indices,
        f.masked | bit_of(f.letter),
        f.depth + 1,
        (f.remaining - 1) as nat,
        longer_path(f.path, f.letter, pmask),
    )
}

/// The frame past its next answer.
pub open spec fn past_part(f: FrameView) -> FrameView {
    FrameView { part: f.part + 1, ..f }
}

/// The frame at the next letter.
pub open spec fn next_letter(words: Seq<Vec<u8>>, f: FrameView) -> FrameView {
    let l = (f.letter + 1) as u8;
    FrameView { letter: l, parts: letter_parts(words, f.indices, f.masked, l), part: 0, ..f }
}

/// What the walk hands out from this place to the end of its subtree, given the keys
/// seen so far, and the keys seen then.
pub open spec fn frame_walk(words: Seq<Vec<u8>>, f: FrameView, keys: Set<u128>) -> (Seq<VisitView>, Set<u128>)
    decreases f.remaining, 122 - f.letter, f.parts.len() - f.part,
{
    if f.remaining == 0 {
        (Seq::empty(), keys)
    } else if 0 <= f.part < f.parts.len() {
        let v = frame_visit(f);
        let key = serving_key(words, v.indices, v.masked);
        if v.indices.len() <= 1 || keys.contains(key) {
            frame_walk(words, past_part(f), keys)
        } else {
            let below = frame_walk(words, child_frame(f), keys.insert(key));
            let after = frame_walk(words, past_part(f), below.1);
            (seq![v] + below.0 + after.0, after.1)
        }
    } else if f.letter < 122 {
        frame_walk(words, next_letter(words, f), keys)
    } else {
        (Seq::empty(), keys)
    }
}

/// What the walk hands out from a stack of places, the innermost last.
pub open spec fn stack_walk(words: Seq<Vec<u8>>, stack: Seq<FrameView>, keys: Set<u128>) -> Seq<VisitView>
    decreases stack.len(),
{
    if stack.len() == 0 {
        Seq::empty()
    } else {
        let top = frame_walk(words, stack.last(), keys);
        top.0 + stack_walk(words, stack.drop_last(), top.1)
    }
}

/// Every position that the walk hands out: the root, then the tree below it.
pub open spec fn positions(words: Seq<Vec<u8>>, max_depth: nat) -> Seq<VisitView> {
    seq![root_visit(words)] + frame_walk(
        words,
        start_frame(all_indices(words.len()), 0, 1, max_depth, Seq::empty()),
        Set::empty(),
    ).0
}

struct Frame {
    indices: Vec<usize>,
    masked: LetterSet,
    depth: usize,
    remaining: usize,
    path: String,
    letter: u8,
    parts: Vec<(u32, Vec<usize>)>,
    part: usize,
}

impl View for Frame {
    type V = FrameView;

    open(self) spec fn view(&self) -> FrameView {
        FrameView {
            indices: self.indices@,
            masked: self.masked,
            depth: self.depth as nat,
            remaining: self.remaining as nat,
            path: self.path@,
            letter: self.letter,
            parts: part_views(self.parts@),
            part: self.part as int,
        }
    }
}

impl Frame {
    spec fn ok(&self, words: Seq<Vec<u8>>, max_depth: usize) -> bool {
        &&& idx_ok(self.indices@, words.len())
        &&& forall|a: int| 0 <= a < self.parts@.len() ==> idx_ok((#[trigger] self.parts@[a]).1@, words.len())
        &&& self.part <= self.parts@.len()
        &&& 96 <= self.letter <= 122
        &&& self.parts@.len() > 0 ==> is_lower(self.letter)
        &&& self.depth + self.remaining <= max_depth + 1
        &&& self.depth >= 1
    }
}

/// The views of the frames of a stack.
spec fn frame_views(stack: Seq<Frame>) -> Seq<FrameView> {
    Seq::new(stack.len(), |i: int| stack[i]@)
}

/// The key under which a position is looked up.
pub fn dedup_key(words: &[Vec<u8>], indices: &[usize], masked: LetterSet) -> (r: u128)
    requires
        solvable(words@),
        indices@.len() > 0,
        idx_ok(indices@, words@.len()),
    ensures
        r == serving_key(words@, indices@, masked),
{
    let folded: LetterSet = fold_required_letters(words, indices, masked);
    proof {
        lemma_fold_of(words@, indices@, masked);
        lemma_fold_unique(words@, indices@, masked, folded, fold_of(words@, indices@, masked));
        assert(indices@[0] < words@.len());
        assert(words@[indices@[0] as int]@.len() == word_len(words@));
        if word_len(words@) == 0 {
            lemma_empty_key(words@, indices@, folded);
        }
    }
    canonical_hash_for_words(words, indices, folded)
}

/// Whether a position needs no solving: it is trivial, or its exact value is on
/// disk.
pub fn is_cached_exact<D: Fn(u128) -> Option<u32>>(words: &[Vec<u8>], indices: &[usize], masked: LetterSet, disk: &D) -> (r: bool)
    requires
        solvable(words@),
        idx_ok(indices@, words@.len()),
        forall|key: u128| #[trigger] disk.requires((key,)),
    ensures
        indices@.len() <= 1 ==> r,
        indices@.len() > 1 ==> exists|e: Option<TtEntry>| #[trigger] stored(words@, indices@, masked, *disk, e) && r == e is Some,
{
    if indices.len() <= 1 {
        return true;
    }
    let e = lookup(words, indices, masked, disk);
    assert(stored(words@, indices@, masked, *disk, e));
    match e {
        Some(_entry) => true,
        None => false,
    }
}

/// A walk over the positions of a word list.
pub struct PositionWalk<'a> {
    words: &'a [Vec<u8>],
    max_depth: usize,
    started: bool,
    stack: Vec<Frame>,
    seen: FxHashSet<u128>,
}

/// A guess with its answer appended to a path.
pub(crate) fn extend_path(path: &String, letter: u8, pmask: u32) -> (r: String)
    ensures
        r@ == longer_path(path@, letter, pmask),
{
    let mut s = String::new();
    push_text(&mut s, path.as_str());
    if path.as_str().unicode_len() > 0 {
        push_text(&mut s, "+");
    }
    push_text(&mut s, "'");
    s.push(letter as char);
    if pmask == 0 {
        push_text(&mut s, "'miss");
    } else {
        push_text(&mut s, "'hit");
    }
    assert(s@ =~= longer_path(path@, letter, pmask));
    s
}

impl<'a> PositionWalk<'a> {
    /// What is still to be handed out.
    pub closed spec fn rest(&self) -> Seq<VisitView> {
        let below = stack_walk(self.words@, frame_views(self.stack@), self.seen@);
        if self.started {
            below
        } else {
            seq![root_visit(self.words@)] + below
        }
    }

    pub closed spec fn ok(&self) -> bool {
        &&& solvable(self.words@)
        &&& self.max_depth < usize::MAX
        &&& forall|i: int| 0 <= i < self.stack@.len() ==> (#[trigger] self.stack@[i]).ok(self.words@, self.max_depth)
    }

    /// Start a walk over the positions that up to `max_depth` guesses lead to.
    pub fn new(words: &'a [Vec<u8>], max_depth: usize) -> (r: Self)
        requires
            solvable(words@),
            max_depth < usize::MAX,
        ensures
            r.ok(),
            r.rest() == positions(words@, max_depth as nat),
    {
        let mut stack: Vec<Frame> = Vec::new();
        let path = String::new();
        let frame = Frame {
            indices: index_list(words.len()),
            masked: 0,
            depth: 1,
            remaining: max_depth,
            path,
            letter: 96,
            parts: Vec::new(),
            part: 0,
        };
        assert(frame@ == start_frame(all_indices(words@.len()), 0, 1, max_depth as nat, Seq::empty())) by {
            assert(frame.path@ =~= Seq::<char>::empty());
            assert(part_views(frame.parts@) =~= Seq::<(u32, Seq<usize>)>::empty());
        }
        stack.push(frame);
        let r = PositionWalk { words, max_depth, started: false, stack, seen: seen_new() };
        proof {
            let views = frame_views(r.stack@);
            assert(views =~= seq![frame@]);
            assert(views.drop_last() =~= Seq::<FrameView>::empty());
            let top = frame_walk(words@, views.last(), r.seen@);
            assert(stack_walk(words@, views.drop_last(), top.1) =~= Seq::<VisitView>::empty());
            assert(stack_walk(words@, views, r.seen@) =~= top.0);
        }
        r
    }

    /// The next position; `None` at the end of the walk.
    pub fn next(&mut self) -> (r: Option<Visit>)
        requires
            old(self).ok(),
        ensures
            final(self).ok(),
            match r {
                Some(v) => old(self).rest().len() > 0 && v@ == old(self).rest()[0] && final(self).rest() == old(self).rest().skip(1),
                None => old(self).rest().len() == 0 && final(self).rest().len() == 0,
            },
    {
        let ghost start = self.rest();
        if !self.started {
            let root = Visit {
                depth: 0,
                path: String::new(),
                letter: 0,
                pmask: 0,
                indices: index_list(self.words.len()),
                masked: 0,
            };
            assert(root.path@ =~= Seq::<char>::empty());
            self.started = true;
            assert(self.rest() =~= start.skip(1));
            return Some(root);
        }
        loop
            invariant
                self.ok(),
                self.started,
                self.rest() == start,
                start == old(self).rest(),
            decreases
                    self.stack@.len(),
                    if self.stack@.len() == 0 {
                        0int
                    } else {
                        122 - self.stack@.last().letter
                    },
                    if self.stack@.len() == 0 {
                        0int
                    } else {
                        self.stack@.last().parts@.len() - self.stack@.last().part
                    },
        {
            let n: usize = self.stack.len();
            let ghost before = frame_views(self.stack@);
            match self.stack.pop() {
                None => {
                    return None;
                },
                Some(frame) => {
                    let mut top = frame;
                    let ghost lower = before.drop_last();
                    assert(before.last() == top@);
                    assert(frame_views(self.stack@) =~= lower);
                    if top.remaining == 0 {
                        assert(start =~= stack_walk(self.words@, lower, self.seen@));
                        continue;
                    }
                    if top.part < top.parts.len() {
                        let i: usize = top.part;
                        let ghost f = top@;
                        let pmask: u32 = top.parts[i].0;
                        let masked: LetterSet = top.masked | letter_bit(top.letter);
                        assert(idx_ok(top.parts@[i as int].1@, self.words@.len()));
                        top.part = i + 1;
                        assert(top@ == past_part(f));
                        if top.parts[i].1.len() <= 1 {
                            self.stack.push(top);
                            assert(frame_views(self.stack@) =~= lower.push(past_part(f)));
                            assert(lower.push(past_part(f)).drop_last() =~= lower);
                            continue;
                        }
                        let key: u128 = dedup_key(self.words, top.parts[i].1.as_slice(), masked);
                        let ghost keys = self.seen@;
                        if !seen_insert(&mut self.seen, key) {
                            assert(self.seen@ =~= keys);
                            self.stack.push(top);
                            assert(frame_views(self.stack@) =~= lower.push(past_part(f)));
                            assert(lower.push(past_part(f)).drop_last() =~= lower);
                            continue;
                        }
                        let members: Vec<usize> = top.parts[i].1.clone();
                        assert(members@ =~= top.parts@[i as int].1@);
                        let members_below: Vec<usize> = top.parts[i].1.clone();
                        assert(members_below@ =~= top.parts@[i as int].1@);
                        let path = clone_text(&top.path);
                        let child = Frame {
                            indices: members_below,
                            masked,
                            depth: top.depth + 1,
                            remaining: top.remaining - 1,
                            path: extend_path(&top.path, top.letter, pmask),
                            letter: 96,
                            parts: Vec::new(),
                            part: 0,
                        };
                        assert(part_views(child.parts@) =~= Seq::<(u32, Seq<usize>)>::empty());
                        assert(child@ == child_frame(f));
                        let visit = Visit { depth: top.depth, path, letter: top.letter, pmask, indices: members, masked };
                        assert(visit@ == frame_visit(f));
                        self.stack.push(top);
                        self.stack.push(child);
                        proof {
                            let views = frame_views(self.stack@);
                            let mid = lower.push(past_part(f));
                            assert(views =~= mid.push(child_frame(f)));
                            assert(views.drop_last() =~= mid);
                            assert(mid.drop_last() =~= lower);
                            let below = frame_walk(self.words@, child_frame(f), self.seen@);
                            let after = frame_walk(self.words@, past_part(f), below.1);
                            assert(frame_walk(self.words@, f, keys).0 == seq![visit@] + below.0 + after.0);
                            let tail = stack_walk(self.words@, lower, after.1);
                            assert(stack_walk(self.words@, mid, below.1) == after.0 + tail);
                            assert(stack_walk(self.words@, views, self.seen@) == below.0 + (after.0 + tail));
                            assert(start == (seq![visit@] + below.0 + after.0) + tail);
                            assert(start.skip(1) =~= below.0 + (after.0 + tail));
                        }
                        return Some(visit);
                    }
                    if top.letter < 122 {
                        let ghost f = top@;
                        let l: u8 = top.letter + 1;
                        proof {
                            lemma_test_letter(top.masked, l);
                            assert forall|i: int| 0 <= i < self.words@.len() implies (#[trigger] self.words@[i])@.len() <= 32 by {}
                        }
                        let parts: Vec<(u32, Vec<usize>)> = if top.masked & letter_bit(l) != 0 {
                            Vec::new()
                        } else {
                            partition_by_letter(self.words, top.indices.as_slice(), l)
                        };
                        proof {
                            assert forall|a: int| 0 <= a < parts@.len() implies idx_ok((#[trigger] parts@[a]).1@, self.words@.len()) by {
                                lemma_group(self.words@, top.indices@, l, parts@[a].0);
                            }
                            assert(part_views(parts@) =~= letter_parts(self.words@, f.indices, f.masked, l));
                        }
                        top.letter = l;
                        top.parts = parts;
                        top.part = 0;
                        assert(top@ == next_letter(self.words@, f));
                        self.stack.push(top);
                        assert(frame_views(self.stack@) =~= lower.push(next_letter(self.words@, f)));
                        assert(lower.push(next_letter(self.words@, f)).drop_last() =~= lower);
                        continue;
                    }
                    assert(start =~= stack_walk(self.words@, lower, self.seen@));
                },
            }
        }
    }
}

/// A copy of a text.
fn clone_text(text: &String) -> (r: String)
    ensures
        r@ == text@,
{
    let mut s = String::new();
    push_text(&mut s, text.as_str());
    assert(s@ =~= text@);
    s
}

} // verus!
