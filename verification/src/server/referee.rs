//! The referee: preparing a guess, choosing the answer that is worst for the
//! player, and recording it.
use vstd::prelude::*;

use crate::game::letters::{bit_of, holds, is_lower, letter_bit, LetterSet};
use crate::server::guess_laws::{lemma_filled_elsewhere, lemma_filled_last};
use crate::server::session::{lemma_possible, playable, GameSession};
use crate::solver::memoized::word_len;
use crate::solver::partition::{is_partition, lemma_group, partition, short_words};
use crate::solver::serving::{lookup, stored, TtEntry};
use crate::solver::signature::{idx_ok, list_ok};
use crate::sorting::{in_order, perm_of, sorted_order};

verus! {

/// A guess with the referee's possible answers to it.
#[derive(Debug)]
pub struct GuessPlan {
    pub letter: u8,
    /// The guessed letters with this one.
    pub new_masked: LetterSet,
    /// The possible answers: places of the letter, and the words that give them.
    pub parts: Vec<(u32, Vec<usize>)>,
    /// The value of each part, where it is known.
    pub values: Vec<Option<u32>>,
    /// The parts whose value is not known.
    pub unsolved: Vec<usize>,
    /// The letter that best play would have guessed, where it is known.
    pub optimal_letter: Option<u8>,
    /// The generation of the session that the guess was prepared for.
    pub generation: u64,
}

impl GuessPlan {
    /// The plan is for this state of the session.
    pub open spec fn fits(&self, words: Seq<Vec<u8>>, session: GameSession) -> bool {
        &&& !session.game_over
        &&& self.generation == session.generation
        &&& is_lower(self.letter)
        &&& !holds(session.masked, self.letter)
        &&& self.new_masked == session.masked | bit_of(self.letter)
        &&& is_partition(words, session.remaining@, self.letter, self.parts@)
        &&& self.values@.len() == self.parts@.len()
    }
}

/// `v` is what is known of the value of a part without searching.
pub open spec fn part_known<D: Fn(u128) -> Option<u32>>(
    words: Seq<Vec<u8>>,
    idx: Seq<usize>,
    masked: u32,
    disk: D,
    v: Option<u32>,
) -> bool {
    if idx.len() <= 1 {
        v == Some(0u32)
    } else {
        exists|e: Option<TtEntry>| #[trigger]
            stored(words, idx, masked, disk, e) && v == match e {
                Some(entry) => Some(entry.value),
                None => None,
            }
    }
}

/// `which` lists the places at which no value is known, in order.
pub open spec fn lists_unknown(values: Seq<Option<u32>>, which: Seq<usize>) -> bool {
    &&& forall|s: int, t: int| 0 <= s < t < which.len() ==> which[s] < which[t]
    &&& forall|t: int| 0 <= t < which.len() ==> #[trigger] which[t] < values.len() && values[which[t] as int] is None
    &&& forall|i: int| 0 <= i < values.len() && (#[trigger] values[i]) is None ==> which.contains(i as usize)
}

/// `letter` is the best letter that the lookup has for the position.
pub open spec fn letter_known<D: Fn(u128) -> Option<u32>>(
    words: Seq<Vec<u8>>,
    idx: Seq<usize>,
    masked: u32,
    disk: D,
    letter: Option<u8>,
) -> bool {
    exists|e: Option<TtEntry>| #[trigger]
        stored(words, idx, masked, disk, e) && letter == match e {
            Some(entry) => entry.best_letter,
            None => None,
        }
}

/// What is known of the parts without searching, and which need a search.
pub fn known_values<D: Fn(u128) -> Option<u32>>(
    words: &[Vec<u8>],
    parts: &Vec<(u32, Vec<usize>)>,
    masked: LetterSet,
    disk: &D,
) -> (r: (Vec<Option<u32>>, Vec<usize>))
    requires
        playable(words@),
        forall|a: int| 0 <= a < parts@.len() ==> idx_ok((#[trigger] parts@[a]).1@, words@.len()),
        forall|key: u128| #[trigger] disk.requires((key,)),
    ensures
        r.0@.len() == parts@.len(),
        forall|a: int|
            0 <= a < parts@.len() ==> part_known(words@, (#[trigger] parts@[a]).1@, masked, *disk, r.0@[a]),
        forall|a: int| 0 <= a < r.0@.len() ==> ((#[trigger] r.0@[a]) matches Some(v) ==> v <= 31),
        lists_unknown(r.0@, r.1@),
{
    let mut values: Vec<Option<u32>> = Vec::new();
    let mut unsolved: Vec<usize> = Vec::new();
    let mut i: usize = 0;
    while i < parts.len()
        invariant
            i <= parts@.len(),
            playable(words@),
            forall|a: int| 0 <= a < parts@.len() ==> idx_ok((#[trigger] parts@[a]).1@, words@.len()),
            forall|key: u128| #[trigger] disk.requires((key,)),
            values@.len() == i,
            forall|a: int| 0 <= a < i ==> part_known(words@, (#[trigger] parts@[a]).1@, masked, *disk, values@[a]),
            forall|a: int| 0 <= a < i ==> ((#[trigger] values@[a]) matches Some(v) ==> v <= 31),
            lists_unknown(values@, unsolved@),
        decreases parts@.len() - i,
    {
        let indices = &parts[i].1;
        assert(idx_ok(parts@[i as int].1@, words@.len()));
        let ghost before = values@;
        let ghost which = unsolved@;
        if indices.len() <= 1 {
            values.push(Some(0));
        } else {
            let e = lookup(words, indices.as_slice(), masked, disk);
            assert(stored(words@, indices@, masked, *disk, e));
            match e {
                Some(entry) => {
                    values.push(Some(entry.value));
                },
                None => {
                    values.push(None);
                    unsolved.push(i);
                },
            }
        }
        proof {
            assert forall|t: int| 0 <= t < unsolved@.len() implies #[trigger] unsolved@[t] < values@.len() && values@[unsolved@[t] as int] is None by {
                if t < which.len() {
                    assert(which[t] < before.len() && before[which[t] as int] is None);
                }
            }
            assert forall|a: int| 0 <= a < values@.len() && (#[trigger] values@[a]) is None implies unsolved@.contains(a as usize) by {
                if a < before.len() {
                    assert(before[a] is None);
                    let t = choose|t: int| 0 <= t < which.len() && which[t] == a as usize;
                    assert(unsolved@[t] == a as usize);
                } else {
                    assert(unsolved@[unsolved@.len() - 1] == a as usize);
                }
            }
        }
        i += 1;
    }
    (values, unsolved)
}

/// The words of a playable list are short.
proof fn lemma_playable(words: Seq<Vec<u8>>)
    requires
        playable(words),
    ensures
        short_words(words),
        list_ok(words, word_len(words)),
        word_len(words) <= 32,
{
    assert forall|i: int| 0 <= i < words.len() implies (#[trigger] words[i])@.len() <= 32 by {}
}

/// Prepare a guess: split the words by the possible answers and look each answer
/// up.
pub fn plan_guess<D: Fn(u128) -> Option<u32>>(words: &[Vec<u8>], session: &GameSession, letter: u8, disk: &D) -> (plan: GuessPlan)
    requires
        session.ok(words@),
        !session.game_over,
        is_lower(letter),
        !holds(session.masked, letter),
        forall|key: u128| #[trigger] disk.requires((key,)),
    ensures
        plan.fits(words@, *session),
        plan.letter == letter,
        forall|a: int|
            0 <= a < plan.parts@.len() ==> part_known(
                words@,
                (#[trigger] plan.parts@[a]).1@,
                plan.new_masked,
                *disk,
                plan.values@[a],
            ),
        forall|a: int| 0 <= a < plan.values@.len() ==> ((#[trigger] plan.values@[a]) matches Some(v) ==> v <= 31),
        lists_unknown(plan.values@, plan.unsolved@),
        letter_known(words@, session.remaining@, session.masked, *disk, plan.optimal_letter),
{
    let n: usize = words.len();
    proof {
        lemma_playable(words@);
        lemma_possible(words@, session.masked, session.pattern@);
    }
    let e = lookup(words, session.remaining.as_slice(), session.masked, disk);
    assert(stored(words@, session.remaining@, session.masked, *disk, e));
    let optimal_letter: Option<u8> = match e {
        Some(entry) => entry.best_letter,
        None => None,
    };
    let parts = partition(words, session.remaining.as_slice(), letter);
    let new_masked: LetterSet = session.masked | letter_bit(letter);
    proof {
        assert forall|a: int| 0 <= a < parts@.len() implies idx_ok((#[trigger] parts@[a]).1@, words@.len()) by {
            lemma_group(words@, session.remaining@, letter, parts@[a].0);
        }
    }
    let (values, unsolved) = known_values(words, &parts, new_masked, disk);
    GuessPlan { letter, new_masked, parts, values, unsolved, optimal_letter, generation: session.generation }
}

/// The parts to search, smaller ones first, parts of one size as they were listed.
pub open spec fn smaller_first(parts: Seq<(u32, Vec<usize>)>, which: Seq<usize>) -> spec_fn(int, int) -> bool {
    |s: int, t: int| parts[which[s] as int].1@.len() <= parts[which[t] as int].1@.len()
}

/// The order in which the unsolved parts of a guess are searched: `out` is the
/// list of unsolved parts, rearranged by a stable sort by size.
pub open spec fn is_solve_order(parts: Seq<(u32, Vec<usize>)>, which: Seq<usize>, out: Seq<usize>) -> bool {
    exists|p: Seq<usize>| #[trigger]
        perm_of(p, 0, which.len() as int) && in_order(smaller_first(parts, which), p) && out == Seq::new(
            which.len(),
            |t: int| which[p[t] as int],
        )
}

/// Order some of the parts by size, as they are searched.
pub fn order_by_size(parts: &Vec<(u32, Vec<usize>)>, which: &Vec<usize>) -> (out: Vec<usize>)
    requires
        forall|t: int| 0 <= t < which@.len() ==> (#[trigger] which@[t]) < parts@.len(),
    ensures
        is_solve_order(parts@, which@, out@),
{
    let n: usize = which.len();
    let ghost leq = smaller_first(parts@, which@);
    let le = |s: usize, t: usize| -> (r: bool)
        requires
            s < which@.len(),
            t < which@.len(),
            forall|u: int| 0 <= u < which@.len() ==> (#[trigger] which@[u]) < parts@.len(),
        ensures
            r == (parts@[which@[s as int] as int].1@.len() <= parts@[which@[t as int] as int].1@.len()),
        { parts[which[s]].1.len() <= parts[which[t]].1.len() };
    let order = sorted_order(n, &le, Ghost(leq));
    let mut out: Vec<usize> = Vec::new();
    let mut i: usize = 0;
    while i < n
        invariant
            i <= n,
            n == which@.len(),
            perm_of(order@, 0, n as int),
            out@.len() == i,
            forall|t: int| 0 <= t < i ==> #[trigger] out@[t] == which@[order@[t] as int],
        decreases n - i,
    {
        out.push(which[order[i]]);
        i += 1;
    }
    assert(out@ =~= Seq::new(which@.len(), |t: int| which@[order@[t] as int]));
    out
}

/// The unsolved parts in the order in which they are searched.
pub fn solve_order(plan: &GuessPlan) -> (out: Vec<usize>)
    requires
        forall|t: int| 0 <= t < plan.unsolved@.len() ==> (#[trigger] plan.unsolved@[t]) < plan.parts@.len(),
    ensures
        is_solve_order(plan.parts@, plan.unsolved@, out@),
{
    order_by_size(&plan.parts, &plan.unsolved)
}

/// The values after the searched ones have been filled in: for each part the last
/// result counts.
pub open spec fn filled(values: Seq<Option<u32>>, solved: Seq<(usize, Option<u32>)>, n: nat) -> Seq<Option<u32>>
    decreases n,
{
    if n == 0 {
        values
    } else {
        filled(values, solved, (n - 1) as nat).update(solved[n - 1].0 as int, solved[n - 1].1)
    }
}

/// Fill in what the searches found; `None` where a search ran out of time.
pub fn fill_values(values: &[Option<u32>], solved: &[(usize, Option<u32>)]) -> (out: Vec<Option<u32>>)
    requires
        forall|t: int| 0 <= t < solved@.len() ==> (#[trigger] solved@[t]).0 < values@.len(),
    ensures
        out@ == filled(values@, solved@, solved@.len()),
        out@.len() == values@.len(),
        forall|t: int|
            0 <= t < solved@.len() && (forall|u: int| t < u < solved@.len() ==> (#[trigger] solved@[u]).0 != solved@[t].0) ==> out@[(
            #[trigger] solved@[t]).0 as int] == solved@[t].1,
        forall|i: int|
            0 <= i < values@.len() && (forall|u: int| 0 <= u < solved@.len() ==> (#[trigger] solved@[u]).0 != i) ==> #[trigger] out@[i]
                == values@[i],
{
    let mut out: Vec<Option<u32>> = Vec::new();
    let mut j: usize = 0;
    while j < values.len()
        invariant
            j <= values@.len(),
            out@ == values@.take(j as int),
        decreases values@.len() - j,
    {
        out.push(values[j]);
        assert(out@ =~= values@.take(j + 1));
        j += 1;
    }
    assert(out@ =~= values@);
    let mut i: usize = 0;
    while i < solved.len()
        invariant
            i <= solved@.len(),
            forall|t: int| 0 <= t < solved@.len() ==> (#[trigger] solved@[t]).0 < values@.len(),
            out@ == filled(values@, solved@, i as nat),
            out@.len() == values@.len(),
        decreases solved@.len() - i,
    {
        let (at, v) = solved[i];
        out.set(at, v);
        i += 1;
    }
    proof {
        assert forall|t: int|
            0 <= t < solved@.len() && (forall|u: int| t < u < solved@.len() ==> (#[trigger] solved@[u]).0 != solved@[t].0) implies out@[(
        #[trigger] solved@[t]).0 as int] == solved@[t].1 by {
            lemma_filled_last(values@, solved@, solved@.len(), t);
        }
        assert forall|i: int|
            0 <= i < values@.len() && (forall|u: int| 0 <= u < solved@.len() ==> (#[trigger] solved@[u]).0 != i) implies #[trigger] out@[i]
            == values@[i] by {
            lemma_filled_elsewhere(values@, solved@, solved@.len(), i);
        }
    }
    out
}

/// What an answer costs the player: its miss and the value of what remains. An
/// unknown value counts as the worst.
pub open spec fn answer_cost(part: (u32, Vec<usize>), value: Option<u32>) -> int {
    match value {
        Some(v) => v + if part.0 == 0 {
            1int
        } else {
            0int
        },
        None => u32::MAX as int,
    }
}

/// Answer `a` is better for the referee than `b`: it costs the player more, or as
/// much and leaves more words.
pub open spec fn outranks(parts: Seq<(u32, Vec<usize>)>, values: Seq<Option<u32>>, a: int, b: int) -> bool {
    let ca = answer_cost(parts[a], values[a]);
    let cb = answer_cost(parts[b], values[b]);
    ca > cb || ca == cb && parts[a].1@.len() > parts[b].1@.len()
}

/// `b` is the first answer that no other outranks.
pub open spec fn is_worst(parts: Seq<(u32, Vec<usize>)>, values: Seq<Option<u32>>, b: int) -> bool {
    &&& 0 <= b < parts.len()
    &&& forall|i: int| 0 <= i < parts.len() ==> !#[trigger] outranks(parts, values, i, b)
    &&& forall|i: int| 0 <= i < b ==> #[trigger] outranks(parts, values, b, i)
}

/// Pick the answer that is worst for the player.
pub fn worst_part(parts: &Vec<(u32, Vec<usize>)>, values: &[Option<u32>]) -> (b: usize)
    requires
        parts@.len() > 0,
        values@.len() == parts@.len(),
        forall|a: int| 0 <= a < values@.len() ==> ((#[trigger] values@[a]) matches Some(v) ==> v < u32::MAX),
    ensures
        is_worst(parts@, values@, b as int),
{
    let mut best_idx: usize = 0;
    let mut best_value: u32 = 0;
    let mut i: usize = 0;
    while i < parts.len()
        invariant
            i <= parts@.len(),
            values@.len() == parts@.len(),
            best_idx < parts@.len(),
            best_idx <= i,
            forall|a: int| 0 <= a < values@.len() ==> ((#[trigger] values@[a]) matches Some(v) ==> v < u32::MAX),
            i == 0 ==> best_idx == 0 && best_value == 0,
            i > 0 ==> best_idx < i && best_value == answer_cost(parts@[best_idx as int], values@[best_idx as int]),
            forall|a: int| 0 <= a < i ==> !#[trigger] outranks(parts@, values@, a, best_idx as int),
            forall|a: int| 0 <= a < best_idx ==> #[trigger] outranks(parts@, values@, best_idx as int, a),
        decreases parts@.len() - i,
    {
        let miss_cost: u32 = if parts[i].0 == 0 {
            1
        } else {
            0
        };
        assert(values@[i as int] matches Some(v) ==> v < u32::MAX);
        let value: u32 = match values[i] {
            Some(v) => miss_cost + v,
            None => u32::MAX,
        };
        if value > best_value || (value == best_value && parts[i].1.len() > parts[best_idx].1.len()) {
            proof {
                assert forall|a: int| 0 <= a < i implies #[trigger] outranks(parts@, values@, i as int, a) by {
                    assert(!outranks(parts@, values@, a, best_idx as int));
                }
                assert forall|a: int| 0 <= a <= i implies !#[trigger] outranks(parts@, values@, a, i as int) by {
                    if a < i {
                        assert(outranks(parts@, values@, i as int, a));
                    }
                }
            }
            best_value = value;
            best_idx = i;
        }
        i += 1;
    }
    best_idx
}

} // verus!
