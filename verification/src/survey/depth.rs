//! The positions at one depth of the game tree.
use std::collections::hash_map::DefaultHasher;
use std::collections::HashSet;
use std::hash::Hasher;

use vstd::bytes::{spec_u32_to_le_bytes, spec_u64_to_le_bytes, u32_to_le_bytes, u64_to_le_bytes};
use vstd::prelude::*;
use vstd::std_specs::hash::DefaultHasherAdditionalSpecFns;

use crate::game::letters::{bit_of, holds, is_lower, lemma_test_letter, letter_bit, LetterSet};
use crate::precompute::parts::{ordered_parts, part_views, partition_by_letter};
use crate::precompute::walk::{
    child_frame, extend_path, frame_visit, letter_parts, longer_path, next_letter, past_part, start_frame, FrameView,
};
use crate::solver::memoized::{all_indices, index_list, solvable};
use crate::solver::partition::lemma_group;
use crate::solver::signature::idx_ok;

verus! {

/// The bytes of the first `n` indices, one after the other.
pub open spec fn index_bytes(idx: Seq<usize>, n: nat) -> Seq<u8>
    decreases n,
{
    if n == 0 {
        Seq::empty()
    } else {
        index_bytes(idx, (n - 1) as nat) + spec_u64_to_le_bytes(idx[n - 1] as u64)
    }
}

/// A hash of the guessed letters and the words of a position.
pub open spec fn state_hash(idx: Seq<usize>, masked: u32) -> u64 {
    DefaultHasher::spec_finish(
        seq![spec_u32_to_le_bytes(masked), spec_u64_to_le_bytes(idx.len() as u64), index_bytes(idx, idx.len())],
    )
}

/// Hash the guessed letters and the words of a position.
pub fn hash_state(indices: &[usize], masked: LetterSet) -> (r: u64)
    ensures
        r == state_hash(indices@, masked),
{
    let letters = u32_to_le_bytes(masked);
    let count = u64_to_le_bytes(indices.len() as u64);
    let mut bytes: Vec<u8> = Vec::new();
    let mut i: usize = 0;
    while i < indices.len()
        invariant
            i <= indices@.len(),
            bytes@ == index_bytes(indices@, i as nat),
        decreases indices@.len() - i,
    {
        let mut next = u64_to_le_bytes(indices[i] as u64);
        bytes.append(&mut next);
        i += 1;
    }
    let mut hasher = DefaultHasher::new();
    hasher.write(letters.as_slice());
    hasher.write(count.as_slice());
    hasher.write(bytes.as_slice());
    assert(hasher@ =~= seq![
        spec_u32_to_le_bytes(masked),
        spec_u64_to_le_bytes(indices@.len() as u64),
        index_bytes(indices@, indices@.len()),
    ]);
    hasher.finish()
}

/// A position at the depth: the guesses with their answers, the words and the guessed
/// letters.
pub ghost struct LeafView {
    pub path: Seq<char>,
    pub indices: Seq<usize>,
    pub masked: u32,
}

/// The leaf that the next answer of a frame leads to.
pub open spec fn frame_leaf(f: FrameView) -> LeafView {
    let v = frame_visit(f);
    LeafView { path: longer_path(f.path, v.letter, v.pmask), indices: v.indices, masked: v.masked }
}

/// The leaves from this place to the end of its subtree, given the hashes seen so far,
/// and the hashes seen then.
pub open spec fn leaf_walk(words: Seq<Vec<u8>>, f: FrameView, keys: Set<u64>) -> (Seq<LeafView>, Set<u64>)
    decreases f.remaining, 122 - f.letter, f.parts.len() - f.part,
{
    if f.remaining == 0 {
        (Seq::empty(), keys)
    } else if 0 <= f.part < f.parts.len() {
        let v = frame_visit(f);
        if v.indices.len() <= 1 {
            leaf_walk(words, past_part(f), keys)
        } else if f.remaining > 1 {
            let below = leaf_walk(words, child_frame(f), keys);
            let after = leaf_walk(words, past_part(f), below.1);
            (below.0 + after.0, after.1)
        } else if keys.contains(state_hash(v.indices, v.masked)) {
            leaf_walk(words, past_part(f), keys)
        } else {
            let after = leaf_walk(words, past_part(f), keys.insert(state_hash(v.indices, v.masked)));
            (seq![frame_leaf(f)] + after.0, after.1)
        }
    } else if f.letter < 122 {
        leaf_walk(words, next_letter(words, f), keys)
    } else {
        (Seq::empty(), keys)
    }
}

/// The leaves from a stack of places, the innermost last.
pub open spec fn stack_leaves(words: Seq<Vec<u8>>, stack: Seq<FrameView>, keys: Set<u64>) -> Seq<LeafView>
    decreases stack.len(),
{
    if stack.len() == 0 {
        Seq::empty()
    } else {
        let top = leaf_walk(words, stack.last(), keys);
        top.0 + stack_leaves(words, stack.drop_last(), top.1)
    }
}

/// How many steps the walk takes from a place to the end of its subtree.
spec fn leaf_steps(words: Seq<Vec<u8>>, f: FrameView) -> nat
    decreases f.remaining, 122 - f.letter, f.parts.len() - f.part,
{
    if f.remaining == 0 {
        1
    } else if 0 <= f.part < f.parts.len() {
        if frame_visit(f).indices.len() > 1 && f.remaining > 1 {
            1 + leaf_steps(words, child_frame(f)) + leaf_steps(words, past_part(f))
        } else {
            1 + leaf_steps(words, past_part(f))
        }
    } else if f.letter < 122 {
        1 + leaf_steps(words, next_letter(words, f))
    } else {
        1
    }
}

spec fn stack_steps(words: Seq<Vec<u8>>, stack: Seq<FrameView>) -> nat
    decreases stack.len(),
{
    if stack.len() == 0 {
        0
    } else {
        leaf_steps(words, stack.last()) + stack_steps(words, stack.drop_last())
    }
}

/// The positions at a depth, each with its own hash.
pub open spec fn positions_at(words: Seq<Vec<u8>>, target: nat) -> Seq<LeafView> {
    if target == 0 {
        seq![LeafView { path: "d0 root"@, indices: all_indices(words.len()), masked: 0 }]
    } else {
        leaf_walk(words, start_frame(all_indices(words.len()), 0, 1, target, Seq::empty()), Set::empty()).0
    }
}

/// The hash by which a position is told from others.
pub open spec fn leaf_key(v: LeafView) -> u64 {
    state_hash(v.indices, v.masked)
}

/// Some position of the list has this hash.
pub open spec fn lists_leaf_key(leaves: Seq<LeafView>, key: u64) -> bool {
    exists|i: int| 0 <= i < leaves.len() && leaf_key(#[trigger] leaves[i]) == key
}

/// No two positions of the list have the same hash, and none has a hash of the set.
pub open spec fn fresh_leaves(leaves: Seq<LeafView>, keys: Set<u64>) -> bool {
    &&& forall|i: int| 0 <= i < leaves.len() ==> !keys.contains(leaf_key(#[trigger] leaves[i]))
    &&& forall|i: int, j: int| 0 <= i < j < leaves.len() ==> leaf_key(#[trigger] leaves[i]) != leaf_key(#[trigger] leaves[j])
}

/// Joining two lists, the second of which keeps clear of the hashes of the first.
proof fn lemma_joined_leaves(a: Seq<LeafView>, b: Seq<LeafView>, keys: Set<u64>, mid: Set<u64>, end: Set<u64>)
    requires
        fresh_leaves(a, keys),
        forall|key: u64| #[trigger] mid.contains(key) == (keys.contains(key) || lists_leaf_key(a, key)),
        fresh_leaves(b, mid),
        forall|key: u64| #[trigger] end.contains(key) == (mid.contains(key) || lists_leaf_key(b, key)),
    ensures
        fresh_leaves(a + b, keys),
        forall|key: u64| #[trigger] end.contains(key) == (keys.contains(key) || lists_leaf_key(a + b, key)),
{
    let n = a.len() as int;
    let c = a + b;
    assert forall|i: int| 0 <= i < n implies c[i] == #[trigger] a[i] by {}
    assert forall|i: int| 0 <= i < b.len() implies c[n + i] == #[trigger] b[i] by {}
    assert forall|i: int| 0 <= i < n implies mid.contains(leaf_key(#[trigger] a[i])) by {
        assert(lists_leaf_key(a, leaf_key(a[i])));
    }
    assert forall|i: int| 0 <= i < c.len() implies !keys.contains(leaf_key(#[trigger] c[i])) by {
        if i < n {
            assert(c[i] == a[i]);
        } else {
            assert(c[i] == b[i - n]);
            assert(!mid.contains(leaf_key(b[i - n])));
        }
    }
    assert forall|i: int, j: int| 0 <= i < j < c.len() implies leaf_key(#[trigger] c[i]) != leaf_key(#[trigger] c[j]) by {
        if j < n {
            assert(c[i] == a[i] && c[j] == a[j]);
        } else if i >= n {
            assert(c[i] == b[i - n] && c[j] == b[j - n]);
        } else {
            assert(c[i] == a[i] && c[j] == b[j - n]);
            assert(!mid.contains(leaf_key(b[j - n])));
        }
    }
    assert forall|key: u64| #[trigger] end.contains(key) == (keys.contains(key) || lists_leaf_key(c, key)) by {
        assert(mid.contains(key) == (keys.contains(key) || lists_leaf_key(a, key)));
        if lists_leaf_key(a, key) {
            let i = choose|i: int| 0 <= i < a.len() && leaf_key(#[trigger] a[i]) == key;
            assert(leaf_key(c[i]) == key);
        }
        if lists_leaf_key(b, key) {
            let i = choose|i: int| 0 <= i < b.len() && leaf_key(#[trigger] b[i]) == key;
            assert(leaf_key(c[n + i]) == key);
        }
        if lists_leaf_key(c, key) {
            let i = choose|i: int| 0 <= i < c.len() && leaf_key(#[trigger] c[i]) == key;
            if i < n {
                assert(leaf_key(a[i]) == key);
            } else {
                assert(leaf_key(b[i - n]) == key);
            }
        }
    }
}

/// What the walk from a place hands out and which hashes it has seen at the end.
proof fn lemma_leaf_walk(words: Seq<Vec<u8>>, f: FrameView, keys: Set<u64>)
    requires
        0 <= f.part,
    ensures
        ({
            let (leaves, after) = leaf_walk(words, f, keys);
            &&& fresh_leaves(leaves, keys)
            &&& forall|key: u64| #[trigger] after.contains(key) == (keys.contains(key) || lists_leaf_key(leaves, key))
            &&& forall|i: int| 0 <= i < leaves.len() ==> (#[trigger] leaves[i]).indices.len() > 1
        }),
    decreases f.remaining, 122 - f.letter, f.parts.len() - f.part,
{
    if f.remaining == 0 {
    } else if f.part < f.parts.len() {
        let v = frame_visit(f);
        let key = state_hash(v.indices, v.masked);
        let next = past_part(f);
        if v.indices.len() <= 1 || f.remaining == 1 && keys.contains(key) {
            lemma_leaf_walk(words, next, keys);
        } else if f.remaining > 1 {
            lemma_leaf_walk(words, child_frame(f), keys);
            let (below, mid) = leaf_walk(words, child_frame(f), keys);
            lemma_leaf_walk(words, next, mid);
            let (rest, end) = leaf_walk(words, next, mid);
            lemma_joined_leaves(below, rest, keys, mid, end);
        } else {
            let one = seq![frame_leaf(f)];
            let mid = keys.insert(key);
            assert(leaf_key(one[0]) == key);
            assert forall|k: u64| #[trigger] mid.contains(k) == (keys.contains(k) || lists_leaf_key(one, k)) by {
                if k == key {
                    assert(leaf_key(one[0]) == k);
                }
            }
            lemma_leaf_walk(words, next, mid);
            let (rest, end) = leaf_walk(words, next, mid);
            lemma_joined_leaves(one, rest, keys, mid, end);
        }
    } else if f.letter < 122 {
        lemma_leaf_walk(words, next_letter(words, f), keys);
    }
}

/// The walk hands every position out once: no two have the same hash. Below the root
/// each of them has several words left.
pub proof fn lemma_leaves_distinct(words: Seq<Vec<u8>>, target: nat)
    ensures
        forall|i: int, j: int|
            0 <= i < j < positions_at(words, target).len() ==> leaf_key(#[trigger] positions_at(words, target)[i]) != leaf_key(
                #[trigger] positions_at(words, target)[j],
            ),
        target > 0 ==> forall|i: int|
            0 <= i < positions_at(words, target).len() ==> (#[trigger] positions_at(words, target)[i]).indices.len() > 1,
{
    if target > 0 {
        lemma_leaf_walk(words, start_frame(all_indices(words.len()), 0, 1, target, Seq::empty()), Set::empty());
    }
}

/// Answer number `a` to letter `l` may be given, and leaves several words.
pub open spec fn may_answer(words: Seq<Vec<u8>>, from: (Seq<usize>, u32), l: u8, a: int) -> bool {
    let parts = ordered_parts(words, from.0, l);
    is_lower(l) && !holds(from.1, l) && 0 <= a < parts.len() && parts[a].1.len() > 1
}

/// The position after that answer.
pub open spec fn answered(words: Seq<Vec<u8>>, from: (Seq<usize>, u32), l: u8, a: int) -> (Seq<usize>, u32) {
    (ordered_parts(words, from.0, l)[a].1, from.1 | bit_of(l))
}

/// `n` guesses, each answered so that several words are left, lead from the first
/// position to the second.
pub open spec fn leads_to(words: Seq<Vec<u8>>, from: (Seq<usize>, u32), n: nat, to: (Seq<usize>, u32)) -> bool
    decreases n,
{
    if n == 0 {
        from == to
    } else {
        exists|l: u8, a: int| #[trigger]
            may_answer(words, from, l, a) && leads_to(words, answered(words, from, l, a), (n - 1) as nat, to)
    }
}

/// The position lies ahead of the place where a walk stands.
spec fn ahead(words: Seq<Vec<u8>>, f: FrameView, to: (Seq<usize>, u32)) -> bool {
    ||| exists|a: int|
        f.part <= a < f.parts.len() && (#[trigger] f.parts[a]).1.len() > 1 && leads_to(
            words,
            (f.parts[a].1, f.masked | bit_of(f.letter)),
            (f.remaining - 1) as nat,
            to,
        )
    ||| exists|l: u8, a: int|
        l > f.letter && #[trigger] may_answer(words, (f.indices, f.masked), l, a) && leads_to(
            words,
            answered(words, (f.indices, f.masked), l, a),
            (f.remaining - 1) as nat,
            to,
        )
}

/// The walk comes past every position that lies ahead.
proof fn lemma_leaf_seen(words: Seq<Vec<u8>>, f: FrameView, keys: Set<u64>, to: (Seq<usize>, u32))
    requires
        0 <= f.part,
        96 <= f.letter,
        f.remaining > 0,
        ahead(words, f, to),
    ensures
        leaf_walk(words, f, keys).1.contains(state_hash(to.0, to.1)),
    decreases f.remaining, 122 - f.letter, f.parts.len() - f.part,
{
    let key = state_hash(to.0, to.1);
    if f.part < f.parts.len() {
        let v = frame_visit(f);
        let next = past_part(f);
        let here = v.indices.len() > 1 && leads_to(words, (v.indices, v.masked), (f.remaining - 1) as nat, to);
        if !here {
            assert(ahead(words, next, to)) by {
                if exists|a: int|
                    f.part <= a < f.parts.len() && (#[trigger] f.parts[a]).1.len() > 1 && leads_to(
                        words,
                        (f.parts[a].1, f.masked | bit_of(f.letter)),
                        (f.remaining - 1) as nat,
                        to,
                    ) {
                    let a = choose|a: int|
                        f.part <= a < f.parts.len() && (#[trigger] f.parts[a]).1.len() > 1 && leads_to(
                            words,
                            (f.parts[a].1, f.masked | bit_of(f.letter)),
                            (f.remaining - 1) as nat,
                            to,
                        );
                    assert(next.parts[a].1.len() > 1);
                } else {
                    let (l, a) = choose|l: u8, a: int|
                        l > f.letter && #[trigger] may_answer(words, (f.indices, f.masked), l, a) && leads_to(
                            words,
                            answered(words, (f.indices, f.masked), l, a),
                            (f.remaining - 1) as nat,
                            to,
                        );
                    assert(may_answer(words, (next.indices, next.masked), l, a));
                }
            }
        }
        if v.indices.len() <= 1 {
            lemma_leaf_seen(words, next, keys, to);
        } else if f.remaining > 1 {
            let mid = leaf_walk(words, child_frame(f), keys).1;
            if here {
                let child = child_frame(f);
                let from = (v.indices, v.masked);
                let (l, a) = choose|l: u8, a: int| #[trigger]
                    may_answer(words, from, l, a) && leads_to(words, answered(words, from, l, a), (f.remaining - 2) as nat, to);
                assert(may_answer(words, (child.indices, child.masked), l, a));
                lemma_leaf_seen(words, child, keys, to);
                lemma_leaf_walk(words, next, mid);
            } else {
                lemma_leaf_seen(words, next, mid, to);
            }
        } else {
            let seen = keys.insert(state_hash(v.indices, v.masked));
            let set = if keys.contains(state_hash(v.indices, v.masked)) {
                keys
            } else {
                seen
            };
            if here {
                assert(set.contains(key));
                lemma_leaf_walk(words, next, set);
            } else {
                lemma_leaf_seen(words, next, set, to);
            }
        }
    } else {
        let from = (f.indices, f.masked);
        let (l, a) = choose|l: u8, a: int|
            l > f.letter && #[trigger] may_answer(words, from, l, a) && leads_to(
                words,
                answered(words, from, l, a),
                (f.remaining - 1) as nat,
                to,
            );
        assert(f.letter < 122);
        let next = next_letter(words, f);
        if l == next.letter {
            assert(next.parts == ordered_parts(words, f.indices, l));
            assert(next.parts[a].1.len() > 1);
        } else {
            assert(may_answer(words, (next.indices, next.masked), l, a));
        }
        assert(ahead(words, next, to));
        lemma_leaf_seen(words, next, keys, to);
    }
}

/// The walk misses no position: whatever the guesses of that depth lead to, while
/// several words are left, is handed out, or a position with the same hash is.
pub proof fn lemma_leaves_complete(words: Seq<Vec<u8>>, target: nat, to: (Seq<usize>, u32))
    requires
        leads_to(words, (all_indices(words.len()), 0), target, to),
    ensures
        lists_leaf_key(positions_at(words, target), state_hash(to.0, to.1)),
{
    let key = state_hash(to.0, to.1);
    if target == 0 {
        assert(leaf_key(positions_at(words, target)[0]) == key);
    } else {
        let f = start_frame(all_indices(words.len()), 0, 1, target, Seq::empty());
        let from = (f.indices, f.masked);
        let (l, a) = choose|l: u8, a: int| #[trigger]
            may_answer(words, from, l, a) && leads_to(words, answered(words, from, l, a), (target - 1) as nat, to);
        assert(may_answer(words, from, l, a));
        lemma_leaf_seen(words, f, Set::empty(), to);
        lemma_leaf_walk(words, f, Set::empty());
        let (leaves, after) = leaf_walk(words, f, Set::empty());
        assert(after.contains(key));
    }
}

/// A position at the depth.
#[derive(Debug, Clone)]
pub struct Leaf {
    /// The guesses with their answers.
    pub path: String,
    pub indices: Vec<usize>,
    pub masked: LetterSet,
}

impl View for Leaf {
    type V = LeafView;

    open spec fn view(&self) -> LeafView {
        LeafView { path: self.path@, indices: self.indices@, masked: self.masked }
    }
}

struct Place {
    indices: Vec<usize>,
    masked: LetterSet,
    remaining: usize,
    path: String,
    letter: u8,
    parts: Vec<(u32, Vec<usize>)>,
    part: usize,
}

impl Place {
    spec fn frame(&self, target: usize) -> FrameView {
        FrameView {
            indices: self.indices@,
            masked: self.masked,
            depth: (target + 1 - self.remaining) as nat,
            remaining: self.remaining as nat,
            path: self.path@,
            letter: self.letter,
            parts: part_views(self.parts@),
            part: self.part as int,
        }
    }

    spec fn ok(&self, words: Seq<Vec<u8>>, target: usize) -> bool {
        &&& idx_ok(self.indices@, words.len())
        &&& forall|a: int| 0 <= a < self.parts@.len() ==> idx_ok((#[trigger] self.parts@[a]).1@, words.len())
        &&& self.part <= self.parts@.len()
        &&& 96 <= self.letter <= 122
        &&& self.parts@.len() > 0 ==> is_lower(self.letter)
        &&& self.remaining <= target
    }
}

spec fn frames(stack: Seq<Place>, target: usize) -> Seq<FrameView> {
    Seq::new(stack.len(), |i: int| stack[i].frame(target))
}

/// A walk over the positions at one depth.
pub struct DepthWalk<'a> {
    words: &'a [Vec<u8>],
    target: usize,
    root_due: bool,
    stack: Vec<Place>,
    seen: HashSet<u64>,
}

impl<'a> DepthWalk<'a> {
    /// What is still to be handed out.
    pub closed spec fn rest(&self) -> Seq<LeafView> {
        if self.root_due {
            positions_at(self.words@, 0)
        } else {
            stack_leaves(self.words@, frames(self.stack@, self.target), self.seen@)
        }
    }

    pub closed spec fn ok(&self) -> bool {
        &&& solvable(self.words@)
        &&& forall|i: int| 0 <= i < self.stack@.len() ==> (#[trigger] self.stack@[i]).ok(self.words@, self.target)
        &&& self.root_due ==> self.stack@.len() == 0
    }

    /// Start a walk over the positions after `target` guesses.
    pub fn new(words: &'a [Vec<u8>], target: usize) -> (r: Self)
        requires
            solvable(words@),
        ensures
            r.ok(),
            r.rest() == positions_at(words@, target as nat),
    {
        broadcast use vstd::std_specs::hash::group_hash_axioms;

        let mut stack: Vec<Place> = Vec::new();
        let seen: HashSet<u64> = HashSet::new();
        if target == 0 {
            return DepthWalk { words, target, root_due: true, stack, seen };
        }
        let place = Place {
            indices: index_list(words.len()),
            masked: 0,
            remaining: target,
            path: String::new(),
            letter: 96,
            parts: Vec::new(),
            part: 0,
        };
        let ghost f = start_frame(all_indices(words@.len()), 0, 1, target as nat, Seq::empty());
        assert(place.frame(target) == f) by {
            assert(place.path@ =~= Seq::<char>::empty());
            assert(part_views(place.parts@) =~= Seq::<(u32, Seq<usize>)>::empty());
        }
        stack.push(place);
        let r = DepthWalk { words, target, root_due: false, stack, seen };
        proof {
            let views = frames(r.stack@, target);
            assert(views =~= seq![f]);
            assert(views.drop_last() =~= Seq::<FrameView>::empty());
            let top = leaf_walk(words@, views.last(), r.seen@);
            assert(stack_leaves(words@, views.drop_last(), top.1) =~= Seq::<LeafView>::empty());
            assert(stack_leaves(words@, views, r.seen@) =~= top.0);
        }
        r
    }

    /// The next position; `None` at the end of the walk.
    pub fn next(&mut self) -> (r: Option<Leaf>)
        requires
            old(self).ok(),
        ensures
            final(self).ok(),
            match r {
                Some(v) => old(self).rest().len() > 0 && v@ == old(self).rest()[0] && final(self).rest() == old(self).rest().skip(1),
                None => old(self).rest().len() == 0 && final(self).rest().len() == 0,
            },
    {
        broadcast use vstd::std_specs::hash::group_hash_axioms;

        let ghost start = self.rest();
        if self.root_due {
            let root = Leaf { path: root_name(), indices: index_list(self.words.len()), masked: 0 };
            self.root_due = false;
            assert(frames(self.stack@, self.target) =~= Seq::<FrameView>::empty());
            assert(self.rest() =~= start.skip(1));
            return Some(root);
        }
        loop
            invariant
                self.ok(),
                !self.root_due,
                self.rest() == start,
                start == old(self).rest(),
            decreases stack_steps(self.words@, frames(self.stack@, self.target)),
        {
            let ghost target = self.target;
            let ghost before = frames(self.stack@, target);
            match self.stack.pop() {
                None => {
                    return None;
                },
                Some(place) => {
                    let mut top = place;
                    let ghost lower = before.drop_last();
                    assert(before.last() == top.frame(target));
                    assert(frames(self.stack@, target) =~= lower);
                    if top.remaining == 0 {
                        assert(start =~= stack_leaves(self.words@, lower, self.seen@));
                        continue;
                    }
                    if top.part < top.parts.len() {
                        let i: usize = top.part;
                        let ghost f = top.frame(target);
                        let pmask: u32 = top.parts[i].0;
                        let masked: LetterSet = top.masked | letter_bit(top.letter);
                        assert(idx_ok(top.parts@[i as int].1@, self.words@.len()));
                        top.part = i + 1;
                        assert(top.frame(target) == past_part(f));
                        let size: usize = top.parts[i].1.len();
                        if size <= 1 {
                            self.stack.push(top);
                            assert(frames(self.stack@, target) =~= lower.push(past_part(f)));
                            assert(lower.push(past_part(f)).drop_last() =~= lower);
                            continue;
                        }
                        let members: Vec<usize> = top.parts[i].1.clone();
                        assert(members@ =~= top.parts@[i as int].1@);
                        let path = extend_path(&top.path, top.letter, pmask);
                        if top.remaining > 1 {
                            let child = Place {
                                indices: members,
                                masked,
                                remaining: top.remaining - 1,
                                path,
                                letter: 96,
                                parts: Vec::new(),
                                part: 0,
                            };
                            assert(part_views(child.parts@) =~= Seq::<(u32, Seq<usize>)>::empty());
                            assert(child.frame(target) == child_frame(f));
                            self.stack.push(top);
                            self.stack.push(child);
                            proof {
                                let views = frames(self.stack@, target);
                                let mid = lower.push(past_part(f));
                                assert(views =~= mid.push(child_frame(f)));
                                assert(views.drop_last() =~= mid);
                                assert(mid.drop_last() =~= lower);
                                let below = leaf_walk(self.words@, child_frame(f), self.seen@);
                                let after = leaf_walk(self.words@, past_part(f), below.1);
                                let tail = stack_leaves(self.words@, lower, after.1);
                                assert(stack_leaves(self.words@, mid, below.1) == after.0 + tail);
                                assert(start == (below.0 + after.0) + tail);
                                assert(below.0 + (after.0 + tail) =~= (below.0 + after.0) + tail);
                                assert(stack_steps(self.words@, views) == leaf_steps(self.words@, child_frame(f)) + stack_steps(self.words@, mid));
                                assert(stack_steps(self.words@, mid) == leaf_steps(self.words@, past_part(f)) + stack_steps(self.words@, lower));
                            }
                            continue;
                        }
                        let key: u64 = hash_state(members.as_slice(), masked);
                        let ghost keys = self.seen@;
                        if self.seen.insert(key) {
                            let leaf = Leaf { path, indices: members, masked };
                            assert(leaf@ == frame_leaf(f));
                            self.stack.push(top);
                            proof {
                                let views = frames(self.stack@, target);
                                assert(views =~= lower.push(past_part(f)));
                                assert(views.drop_last() =~= lower);
                                let after = leaf_walk(self.words@, past_part(f), self.seen@);
                                let tail = stack_leaves(self.words@, lower, after.1);
                                assert(start == (seq![leaf@] + after.0) + tail);
                                assert(start.skip(1) =~= after.0 + tail);
                            }
                            return Some(leaf);
                        }
                        assert(self.seen@ =~= keys);
                        self.stack.push(top);
                        assert(frames(self.stack@, target) =~= lower.push(past_part(f)));
                        assert(lower.push(past_part(f)).drop_last() =~= lower);
                        continue;
                    }
                    if top.letter < 122 {
                        let ghost f = top.frame(target);
                        let l: u8 = top.letter + 1;
                        proof {
                            lemma_test_letter(top.masked, l);
                            assert forall|i: int| 0 <= i < self.words@.len() implies (#[trigger] self.words@[i])@.len() <= 32 by {}
                        }
                        let parts: Vec<(u32, Vec<usize>)> = if top.masked & letter_bit(l) != 0 {
                            Vec::new()
                        } else {
                            partition_by_letter(self.words, top.indices.as_slice(), l)
                        };
                        proof {
                            assert forall|a: int| 0 <= a < parts@.len() implies idx_ok((#[trigger] parts@[a]).1@, self.words@.len()) by {
                                lemma_group(self.words@, top.indices@, l, parts@[a].0);
                            }
                            assert(part_views(parts@) =~= letter_parts(self.words@, f.indices, f.masked, l));
                        }
                        top.letter = l;
                        top.parts = parts;
                        top.part = 0;
                        assert(top.frame(target) == next_letter(self.words@, f));
                        self.stack.push(top);
                        assert(frames(self.stack@, target) =~= lower.push(next_letter(self.words@, f)));
                        assert(lower.push(next_letter(self.words@, f)).drop_last() =~= lower);
                        continue;
                    }
                    assert(start =~= stack_leaves(self.words@, lower, self.seen@));
                },
            }
        }
    }
}

/// The name of the position before any guess.
fn root_name() -> (r: String)
    ensures
        r@ == "d0 root"@,
{
    let mut s = String::new();
    crate::text::push_text(&mut s, "d0 root");
    assert(s@ =~= "d0 root"@);
    s
}

} // verus!
