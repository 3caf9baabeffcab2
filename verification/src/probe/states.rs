//! What a table holds for the answers to a letter, and whether it fits together.
use vstd::prelude::*;

use crate::game::letters::{bit_of, holds, is_lower, letters, lower_word, LetterSet};
use crate::game::rules::{at, is_guess_value, is_open, lemma_best_guess, no_open, occurs, value};
use crate::precompute::walk::dedup_key;
use crate::server::hint::{answer_value, is_largest_value, lemma_guess_value_unique};
use crate::server::laws::{lemma_one_word, lemma_useless_guess};
use crate::solver::memoized::{all_indices, solvable, word_len, MemoizedSolver};
use crate::solver::partition::{is_partition, lemma_group, short_words};
use crate::solver::required::lemma_fold_keeps_value;
use crate::solver::search::{lemma_parts_guess, part_value};
use crate::solver::serving::{decode_tt_entry_raw, fold_of, lemma_fold_of, serving_key};
use crate::solver::signature::{chosen, idx_ok, position_value};
use crate::solver::trust::{disk_true, lemma_fold_reachable, lemma_group_reachable, reachable};
use crate::solver::tt::{claims, tt_bound, tt_letter, tt_value, BOUND_EXACT};

verus! {

/// What a table holds for a position.
#[derive(Debug, Clone, Copy, PartialEq, Eq, Structural)]
pub enum PartState {
    /// One word is left, so nothing is looked up.
    Trivial,
    /// There is no entry.
    Absent,
    /// There is an entry.
    Present {
        /// Its value.
        value: u32,
        /// Its best letter.
        best_letter: Option<u8>,
        /// What kind of bound the value is.
        bound: u32,
    },
}

/// What a lookup says of a position.
pub open spec fn state_of(o: Option<u32>) -> PartState {
    match o {
        None => PartState::Absent,
        Some(packed) => PartState::Present {
            value: tt_value(packed),
            best_letter: tt_letter(packed),
            bound: tt_bound(packed),
        },
    }
}

/// `st` is what the lookup `disk` has for the position.
pub open spec fn state_known<D: Fn(u128) -> Option<u32>>(
    words: Seq<Vec<u8>>,
    idx: Seq<usize>,
    masked: u32,
    disk: D,
    st: PartState,
) -> bool {
    if idx.len() <= 1 {
        st == PartState::Trivial
    } else {
        exists|o: Option<u32>| #[trigger] disk.ensures((serving_key(words, idx, masked),), o) && st == state_of(o)
    }
}

/// What the lookup `disk` has for a position.
pub fn position_state<D: Fn(u128) -> Option<u32>>(words: &[Vec<u8>], indices: &[usize], masked: LetterSet, disk: &D) -> (st: PartState)
    requires
        solvable(words@),
        idx_ok(indices@, words@.len()),
        forall|key: u128| #[trigger] disk.requires((key,)),
    ensures
        state_known(words@, indices@, masked, *disk, st),
        st matches PartState::Present { value, .. } ==> value <= 31,
{
    if indices.len() <= 1 {
        return PartState::Trivial;
    }
    let key: u128 = dedup_key(words, indices, masked);
    let o: Option<u32> = disk(key);
    assert(disk.ensures((serving_key(words@, indices@, masked),), o));
    match o {
        None => PartState::Absent,
        Some(packed) => {
            assert(packed & 0x1F <= 31) by (bit_vector);
            let (value, best_letter, bound) = decode_tt_entry_raw(packed);
            PartState::Present { value, best_letter, bound }
        },
    }
}

/// What the lookup `disk` has for each answer to a letter. `masked` holds the guessed
/// letters with this one.
pub fn part_states<D: Fn(u128) -> Option<u32>>(
    words: &[Vec<u8>],
    parts: &Vec<(u32, Vec<usize>)>,
    masked: LetterSet,
    disk: &D,
) -> (states: Vec<PartState>)
    requires
        solvable(words@),
        forall|a: int| 0 <= a < parts@.len() ==> idx_ok((#[trigger] parts@[a]).1@, words@.len()),
        forall|key: u128| #[trigger] disk.requires((key,)),
    ensures
        states@.len() == parts@.len(),
        forall|a: int| 0 <= a < parts@.len() ==> state_known(words@, (#[trigger] parts@[a]).1@, masked, *disk, states@[a]),
        forall|a: int| 0 <= a < states@.len() ==> ((#[trigger] states@[a]) matches PartState::Present { value, .. } ==> value <= 31),
{
    let mut states: Vec<PartState> = Vec::new();
    let mut i: usize = 0;
    while i < parts.len()
        invariant
            i <= parts@.len(),
            solvable(words@),
            forall|a: int| 0 <= a < parts@.len() ==> idx_ok((#[trigger] parts@[a]).1@, words@.len()),
            forall|key: u128| #[trigger] disk.requires((key,)),
            states@.len() == i,
            forall|a: int| 0 <= a < i ==> state_known(words@, (#[trigger] parts@[a]).1@, masked, *disk, states@[a]),
            forall|a: int| 0 <= a < i ==> ((#[trigger] states@[a]) matches PartState::Present { value, .. } ==> value <= 31),
        decreases parts@.len() - i,
    {
        assert(idx_ok(parts@[i as int].1@, words@.len()));
        let st = position_state(words, parts[i].1.as_slice(), masked, disk);
        states.push(st);
        i += 1;
    }
    states
}

/// How many answers are in which state.
#[derive(Debug, Clone, Copy, PartialEq, Eq, Structural)]
pub struct Tally {
    /// Entries with the exact value.
    pub exact: usize,
    /// Entries with a bound only.
    pub bounded: usize,
    /// Answers without an entry.
    pub absent: usize,
    /// Answers that leave one word.
    pub trivial: usize,
}

/// How many states are like this one, `kind` telling which.
pub open spec fn alike_states(states: Seq<PartState>, kind: spec_fn(PartState) -> bool) -> nat {
    states.filter(kind).len()
}

/// The entry holds an exact value.
pub open spec fn exact_state(st: PartState) -> bool {
    st matches PartState::Present { bound, .. } && bound == BOUND_EXACT
}

/// The entry holds a bound only.
pub open spec fn bounded_state(st: PartState) -> bool {
    st matches PartState::Present { bound, .. } && bound != BOUND_EXACT
}

proof fn lemma_alike_push(states: Seq<PartState>, i: int, kind: spec_fn(PartState) -> bool)
    requires
        0 <= i < states.len(),
    ensures
        alike_states(states.take(i + 1), kind) == alike_states(states.take(i), kind) + if kind(states[i]) {
            1nat
        } else {
            0nat
        },
        alike_states(states.take(i), kind) <= i,
{
    reveal(Seq::filter);
    let longer = states.take(i + 1);
    assert(longer.drop_last() =~= states.take(i));
    assert(longer.last() == states[i]);
    states.take(i).lemma_filter_len(kind);
}

/// Count the states.
pub fn tally(states: &[PartState]) -> (r: Tally)
    ensures
        r.exact == alike_states(states@, |st: PartState| exact_state(st)),
        r.bounded == alike_states(states@, |st: PartState| bounded_state(st)),
        r.absent == alike_states(states@, |st: PartState| st == PartState::Absent),
        r.trivial == alike_states(states@, |st: PartState| st == PartState::Trivial),
{
    let ghost is_exact = |st: PartState| exact_state(st);
    let ghost is_bounded = |st: PartState| bounded_state(st);
    let ghost is_absent = |st: PartState| st == PartState::Absent;
    let ghost is_trivial = |st: PartState| st == PartState::Trivial;
    let mut r = Tally { exact: 0, bounded: 0, absent: 0, trivial: 0 };
    let mut i: usize = 0;
    proof {
        reveal(Seq::filter);
    }
    while i < states.len()
        invariant
            i <= states@.len(),
            is_exact == |st: PartState| exact_state(st),
            is_bounded == |st: PartState| bounded_state(st),
            is_absent == |st: PartState| st == PartState::Absent,
            is_trivial == |st: PartState| st == PartState::Trivial,
            r.exact == alike_states(states@.take(i as int), is_exact),
            r.bounded == alike_states(states@.take(i as int), is_bounded),
            r.absent == alike_states(states@.take(i as int), is_absent),
            r.trivial == alike_states(states@.take(i as int), is_trivial),
        decreases states@.len() - i,
    {
        proof {
            lemma_alike_push(states@, i as int, is_exact);
            lemma_alike_push(states@, i as int, is_bounded);
            lemma_alike_push(states@, i as int, is_absent);
            lemma_alike_push(states@, i as int, is_trivial);
        }
        match states[i] {
            PartState::Trivial => {
                r.trivial += 1;
            },
            PartState::Absent => {
                r.absent += 1;
            },
            PartState::Present { bound, .. } => {
                if bound == BOUND_EXACT {
                    r.exact += 1;
                } else {
                    r.bounded += 1;
                }
            },
        }
        i += 1;
    }
    assert(states@.take(i as int) =~= states@);
    r
}

/// What an answer costs by the table: its miss and the value stored.
pub open spec fn state_cost(part: (u32, Vec<usize>), st: PartState) -> int {
    (if part.0 == 0 {
        1int
    } else {
        0int
    }) + match st {
        PartState::Present { value, .. } => value as int,
        _ => 0int,
    }
}

/// `v` is the most that an answer costs by the table.
pub open spec fn is_total(parts: Seq<(u32, Vec<usize>)>, states: Seq<PartState>, v: int) -> bool {
    &&& forall|a: int| 0 <= a < parts.len() ==> state_cost(#[trigger] parts[a], states[a]) <= v
    &&& exists|a: int| 0 <= a < parts.len() && state_cost(#[trigger] parts[a], states[a]) == v
}

/// What a guess costs by the table; `None` where an answer has no entry.
pub fn letter_total(parts: &Vec<(u32, Vec<usize>)>, states: &[PartState]) -> (r: Option<u32>)
    requires
        parts@.len() > 0,
        states@.len() == parts@.len(),
        forall|a: int| 0 <= a < states@.len() ==> ((#[trigger] states@[a]) matches PartState::Present { value, .. } ==> value <= 31),
    ensures
        match r {
            None => exists|a: int| 0 <= a < states@.len() && #[trigger] states@[a] == PartState::Absent,
            Some(v) => is_total(parts@, states@, v as int) && forall|a: int| 0 <= a < states@.len() ==> #[trigger] states@[a] != PartState::Absent,
        },
        r matches Some(v) ==> forall|a: int|
            0 <= a < parts@.len() ==> {
                let miss: int = if (#[trigger] parts@[a]).0 == 0 { 1 } else { 0 };
                v >= miss && (states@[a] matches PartState::Present { value, .. } ==> v >= miss + value)
            },
        r matches Some(v) ==> exists|a: int|
            0 <= a < parts@.len() && {
                let miss: int = if (#[trigger] parts@[a]).0 == 0 { 1 } else { 0 };
                v == miss + match states@[a] {
                    PartState::Present { value, .. } => value as int,
                    _ => 0int,
                }
            },
{
    let mut worst: u32 = 0;
    let mut i: usize = 0;
    while i < parts.len()
        invariant
            i <= parts@.len(),
            states@.len() == parts@.len(),
            worst <= 32,
            forall|a: int|
                0 <= a < states@.len() ==> ((#[trigger] states@[a]) matches PartState::Present { value, .. } ==> value <= 31),
            forall|a: int| 0 <= a < i ==> #[trigger] states@[a] != PartState::Absent,
            forall|a: int| 0 <= a < i ==> state_cost(#[trigger] parts@[a], states@[a]) <= worst,
            i > 0 ==> exists|a: int| 0 <= a < i && state_cost(#[trigger] parts@[a], states@[a]) == worst,
            i == 0 ==> worst == 0,
        decreases parts@.len() - i,
    {
        let ghost st = states@[i as int];
        let miss: u32 = if parts[i].0 == 0 {
            1
        } else {
            0
        };
        let cost: u32 = match states[i] {
            PartState::Absent => {
                assert(st == PartState::Absent);
                return None;
            },
            PartState::Trivial => miss,
            PartState::Present { value, .. } => miss + value,
        };
        assert(cost == state_cost(parts@[i as int], states@[i as int]));
        if cost > worst {
            worst = cost;
        }
        i += 1;
    }
    Some(worst)
}

/// `b` is the first of the known letters of the lowest cost.
pub open spec fn is_best_known(costs: Seq<(u8, Option<u32>)>, b: int) -> bool {
    &&& 0 <= b < costs.len()
    &&& costs[b].1 is Some
    &&& forall|t: int| 0 <= t < costs.len() && (#[trigger] costs[t]).1 is Some ==> costs[b].1->0 <= costs[t].1->0
    &&& forall|t: int| 0 <= t < b && (#[trigger] costs[t]).1 is Some ==> costs[b].1->0 < costs[t].1->0
}

/// The letter that costs least, among those whose cost is known: the first of
/// several.
pub fn best_known(costs: &[(u8, Option<u32>)]) -> (r: Option<(u8, u32)>)
    ensures
        match r {
            None => forall|t: int| 0 <= t < costs@.len() ==> (#[trigger] costs@[t]).1 is None,
            Some(e) => exists|b: int| #[trigger] is_best_known(costs@, b) && e == (costs@[b].0, costs@[b].1->0),
        },
        r matches Some(e) ==> exists|b: int|
            0 <= b < costs@.len() && #[trigger] costs@[b] == (e.0, Some(e.1)) && forall|t: int|
                0 <= t < b && (#[trigger] costs@[t]).1 is Some ==> costs@[t].1->0 > e.1,
        r matches Some(e) ==> forall|t: int| 0 <= t < costs@.len() && (#[trigger] costs@[t]).1 is Some ==> costs@[t].1->0 >= e.1,
{
    let mut best: Option<usize> = None;
    let mut lowest: u32 = 0;
    let mut i: usize = 0;
    while i < costs.len()
        invariant
            i <= costs@.len(),
            match best {
                None => forall|t: int| 0 <= t < i ==> (#[trigger] costs@[t]).1 is None,
                Some(b) => {
                    &&& b < i
                    &&& costs@[b as int].1 == Some(lowest)
                    &&& forall|t: int| 0 <= t < i && (#[trigger] costs@[t]).1 is Some ==> lowest <= costs@[t].1->0
                    &&& forall|t: int| 0 <= t < b && (#[trigger] costs@[t]).1 is Some ==> lowest < costs@[t].1->0
                },
            },
        decreases costs@.len() - i,
    {
        if let Some(v) = costs[i].1 {
            if best.is_none() || v < lowest {
                best = Some(i);
                lowest = v;
            }
        }
        i += 1;
    }
    match best {
        None => None,
        Some(b) => {
            assert(is_best_known(costs@, b as int));
            Some((costs[b].0, lowest))
        },
    }
}

/// Search the answers to a letter, each with empty tables, for the one that costs
/// most. `masked` holds the guessed letters with this one.
pub fn fresh_total(words: &[Vec<u8>], parts: &Vec<(u32, Vec<usize>)>, masked: LetterSet) -> (worst: u32)
    requires
        solvable(words@),
        parts@.len() > 0,
        forall|a: int| 0 <= a < parts@.len() ==> idx_ok((#[trigger] parts@[a]).1@, words@.len()),
    ensures
        worst <= 26,
        is_largest_value(words@, parts@, masked, worst as int),
{
    let mut worst: u32 = 0;
    let mut i: usize = 0;
    while i < parts.len()
        invariant
            i <= parts@.len(),
            solvable(words@),
            forall|a: int| 0 <= a < parts@.len() ==> idx_ok((#[trigger] parts@[a]).1@, words@.len()),
            worst <= 26,
            forall|a: int| 0 <= a < i ==> answer_value(words@, #[trigger] parts@[a], masked) <= worst,
            i > 0 ==> exists|a: int| 0 <= a < i && answer_value(words@, #[trigger] parts@[a], masked) == worst,
            i == 0 ==> worst == 0,
        decreases parts@.len() - i,
    {
        let ghost part = parts@[i as int];
        assert(idx_ok(part.1@, words@.len()));
        let miss: u32 = if parts[i].0 == 0 {
            1
        } else {
            0
        };
        let mut found: u32 = 0;
        if parts[i].1.len() > 1 {
            let mut solver = MemoizedSolver::new();
            found = solver.solve_position_smp(words, parts[i].1.as_slice(), masked);
        }
        proof {
            if part.1@.len() <= 1 {
                lemma_one_word(words@, part.1@, masked);
            }
            assert(miss + found == answer_value(words@, part, masked));
        }
        if miss + found > worst {
            worst = miss + found;
        }
        i += 1;
    }
    worst
}

/// Where a table is true, an exact entry for a position that play can reach holds the
/// value of the position.
pub proof fn lemma_state_true<D: Fn(u128) -> Option<u32>>(words: Seq<Vec<u8>>, idx: Seq<usize>, masked: u32, disk: D, st: PartState)
    requires
        solvable(words),
        words.len() <= usize::MAX,
        reachable(words, all_indices(words.len()), 0, idx, masked),
        disk_true(words, all_indices(words.len()), 0, word_len(words), disk),
        state_known(words, idx, masked, disk, st),
        st == PartState::Trivial || exact_state(st),
    ensures
        position_value(words, idx, masked) == match st {
            PartState::Present { value, .. } => value as nat,
            _ => 0nat,
        },
{
    let all = all_indices(words.len());
    if idx.len() <= 1 {
        lemma_one_word(words, idx, masked);
    } else {
        let folded = fold_of(words, idx, masked);
        lemma_fold_of(words, idx, masked);
        lemma_fold_keeps_value(words, idx, masked, folded);
        lemma_fold_reachable(words, word_len(words), all, 0, idx, masked, folded);
        let o = choose|o: Option<u32>| #[trigger] disk.ensures((serving_key(words, idx, masked),), o) && st == state_of(o);
        assert(claims(o->0, position_value(words, idx, folded) as int));
    }
}

/// The largest value among the answers is the minimax value of the guess, wherever
/// the game stands.
pub proof fn lemma_worst_is_guess_value(words: Seq<Vec<u8>>, idx: Seq<usize>, masked: u32, l: u8, parts: Seq<(u32, Vec<usize>)>, v: int)
    requires
        short_words(words),
        idx_ok(idx, words.len()),
        is_lower(l),
        is_partition(words, idx, l, parts),
        is_largest_value(words, parts, masked | bit_of(l), v),
    ensures
        is_guess_value(chosen(words, idx), letters(masked), l, v),
{
    assert forall|a: int| 0 <= a < parts.len() implies part_value(words, #[trigger] parts[a], masked, l) <= v by {
        assert(answer_value(words, parts[a], masked | bit_of(l)) <= v);
    }
    let a = choose|a: int| 0 <= a < parts.len() && answer_value(words, #[trigger] parts[a], masked | bit_of(l)) == v;
    assert(part_value(words, parts[a], masked, l) >= v);
    lemma_parts_guess(words, idx, masked, l, parts, v);
}

/// What a true table with exact entries gives as the cost of a guess is its minimax
/// value.
pub proof fn lemma_total_true<D: Fn(u128) -> Option<u32>>(
    words: Seq<Vec<u8>>,
    idx: Seq<usize>,
    masked: u32,
    l: u8,
    parts: Seq<(u32, Vec<usize>)>,
    states: Seq<PartState>,
    disk: D,
    v: int,
)
    requires
        solvable(words),
        words.len() <= usize::MAX,
        idx.no_duplicates(),
        reachable(words, all_indices(words.len()), 0, idx, masked),
        disk_true(words, all_indices(words.len()), 0, word_len(words), disk),
        is_lower(l),
        !holds(masked, l),
        is_partition(words, idx, l, parts),
        states.len() == parts.len(),
        forall|a: int| 0 <= a < parts.len() ==> state_known(words, (#[trigger] parts[a]).1@, masked | bit_of(l), disk, states[a]),
        forall|a: int| 0 <= a < states.len() ==> #[trigger] states[a] == PartState::Trivial || exact_state(states[a]),
        is_total(parts, states, v),
    ensures
        is_guess_value(chosen(words, idx), letters(masked), l, v),
{
    let all = all_indices(words.len());
    assert(short_words(words)) by {
        assert forall|i: int| 0 <= i < words.len() implies (#[trigger] words[i])@.len() <= 32 by {}
    }
    assert forall|a: int| 0 <= a < parts.len() implies answer_value(words, #[trigger] parts[a], masked | bit_of(l)) == state_cost(
        parts[a],
        states[a],
    ) by {
        assert(states[a] == PartState::Trivial || exact_state(states[a]));
        lemma_group(words, idx, l, parts[a].0);
        lemma_group_reachable(words, word_len(words), all, 0, idx, masked, l, parts[a].0);
        lemma_state_true(words, parts[a].1@, masked | bit_of(l), disk, states[a]);
    }
    let a = choose|a: int| 0 <= a < parts.len() && state_cost(#[trigger] parts[a], states[a]) == v;
    assert(answer_value(words, parts[a], masked | bit_of(l)) == v);
    lemma_worst_is_guess_value(words, idx, masked, l, parts, v);
}

/// The cost of every letter that has not been guessed is given.
pub open spec fn covers_letters(costs: Seq<(u8, Option<u32>)>, masked: u32) -> bool {
    forall|l: u8|
        is_lower(l) && !#[trigger] holds(masked, l) ==> exists|t: int|
            0 <= t < costs.len() && (#[trigger] costs[t]).0 == l && costs[t].1 is Some
}

/// A table fits together: where every letter that has not been guessed costs its
/// minimax value, the lowest cost is the value of the position.
pub proof fn lemma_lowest_is_value(words: Seq<Vec<u8>>, idx: Seq<usize>, masked: u32, costs: Seq<(u8, Option<u32>)>, b: int)
    requires
        solvable(words),
        idx.len() > 0,
        idx_ok(idx, words.len()),
        !no_open(chosen(words, idx), letters(masked)),
        forall|t: int|
            0 <= t < costs.len() && (#[trigger] costs[t]).1 is Some ==> is_lower(costs[t].0) && !holds(masked, costs[t].0)
                && is_guess_value(chosen(words, idx), letters(masked), costs[t].0, costs[t].1->0 as int),
        covers_letters(costs, masked),
        is_best_known(costs, b),
    ensures
        costs[b].1->0 == position_value(words, idx, masked),
{
    let s = chosen(words, idx);
    let g = letters(masked);
    let v = value(s, g) as int;
    lemma_best_guess(s, g);
    let l = choose|l: u8| #[trigger] is_open(s, g, l) && is_guess_value(s, g, l, v);
    let x = choose|x: Seq<u8>| #[trigger] s.contains(x) && occurs(l, x);
    let i = choose|i: int| 0 <= i < idx.len() && words[#[trigger] idx[i] as int]@ == x;
    let q = choose|q: int| #[trigger] at(x, q, l);
    assert(idx[i] < words.len());
    assert(lower_word(words[idx[i] as int]@));
    assert(is_lower(x[q]));
    assert(!holds(masked, l));
    let e = choose|e: int| 0 <= e < costs.len() && (#[trigger] costs[e]).0 == l && costs[e].1 is Some;
    lemma_guess_value_unique(s, g, l, v, costs[e].1->0 as int);
    assert(costs[b].1->0 <= v);
    let h = costs[b].0;
    let c = costs[b].1->0 as int;
    if !is_open(s, g, h) {
        lemma_useless_guess(s, g, h, c, x);
    }
}

} // verus!
