//! Hints: the best letter for the player.
use vstd::prelude::*;

use crate::game::letters::{bit_of, holds, is_lower, lemma_test_letter, letter_bit, letters, lower_word, place_mask, LetterSet};
use crate::game::rules::{at, is_guess_value, is_open, lemma_best_guess, lemma_guess_more_budget, no_open, occurs, value};
use crate::server::encoding::{upper, upper_string};
use crate::server::laws::{lemma_known_true, lemma_one_word, lemma_useless_guess, session_value};
use crate::server::referee::{answer_cost, known_values, part_known};
use crate::server::session::{lemma_possible, seen, GameSession, HIDDEN};
use crate::solver::memoized::{all_indices, disk_believed, never, word_len, MemoizedSolver};
use crate::solver::partition::{has_part, is_partition, lemma_group, partition, short_words};
use crate::solver::search::{lemma_parts_guess, part_value};
use crate::solver::serving::{stored, TtEntry};
use crate::solver::signature::{chosen, idx_ok, position_value};
use crate::solver::trust::disk_true;
use crate::text::byte_char;

verus! {

/// `v` is the largest cost of an answer.
pub open spec fn is_largest_cost(parts: Seq<(u32, Vec<usize>)>, values: Seq<Option<u32>>, v: int) -> bool {
    &&& values.len() == parts.len()
    &&& forall|a: int| 0 <= a < parts.len() ==> answer_cost(#[trigger] parts[a], values[a]) <= v
    &&& exists|a: int| 0 <= a < parts.len() && answer_cost(#[trigger] parts[a], values[a]) == v
}

/// `values` is what is known of the parts without searching.
pub open spec fn all_known<D: Fn(u128) -> Option<u32>>(
    words: Seq<Vec<u8>>,
    parts: Seq<(u32, Vec<usize>)>,
    masked: u32,
    disk: D,
    values: Seq<Option<u32>>,
) -> bool {
    values.len() == parts.len() && forall|a: int|
        0 <= a < parts.len() ==> part_known(words, (#[trigger] parts[a]).1@, masked, disk, values[a])
}

/// Looking up the answers to `l` gives `v` as its cost.
pub open spec fn cost_known<D: Fn(u128) -> Option<u32>>(words: Seq<Vec<u8>>, session: GameSession, disk: D, l: u8, v: u32) -> bool {
    exists|parts: Seq<(u32, Vec<usize>)>, values: Seq<Option<u32>>|
        #![trigger is_partition(words, session.remaining@, l, parts), is_largest_cost(parts, values, v as int)]
        is_partition(words, session.remaining@, l, parts) && all_known(words, parts, session.masked | bit_of(l), disk, values)
            && is_largest_cost(parts, values, v as int) && forall|a: int| 0 <= a < values.len() ==> values[a] is Some
}

/// Some answer to the letter could not be looked up.
pub open spec fn cost_unknown<D: Fn(u128) -> Option<u32>>(
    words: Seq<Vec<u8>>,
    session: GameSession,
    disk: D,
    l: u8,
    parts: Seq<(u32, Vec<usize>)>,
) -> bool {
    is_partition(words, session.remaining@, l, parts) && exists|values: Seq<Option<u32>>| #[trigger]
        all_known(words, parts, session.masked | bit_of(l), disk, values) && exists|a: int|
            0 <= a < values.len() && values[a] is None
}

/// The letters of a hint: those whose cost is known, and those that need a search.
#[derive(Debug)]
pub struct HintPlan {
    /// Letters with their cost.
    pub evals: Vec<(u8, u32)>,
    /// Letters with the answers to them.
    pub needs_solve: Vec<(u8, Vec<(u32, Vec<usize>)>)>,
}

/// Some entry is for this letter.
pub open spec fn has_eval(evals: Seq<(u8, u32)>, l: u8) -> bool {
    exists|t: int| 0 <= t < evals.len() && (#[trigger] evals[t]).0 == l
}

pub open spec fn has_unsolved(needs: Seq<(u8, Vec<(u32, Vec<usize>)>)>, l: u8) -> bool {
    exists|t: int| 0 <= t < needs.len() && (#[trigger] needs[t]).0 == l
}

impl HintPlan {
    /// The plan sorts the letters from `a` on that are below `end` and not guessed.
    pub open spec fn sorts<D: Fn(u128) -> Option<u32>>(&self, words: Seq<Vec<u8>>, session: GameSession, disk: D, end: int) -> bool {
        &&& forall|t: int|
            0 <= t < self.evals@.len() ==> {
                let e = #[trigger] self.evals@[t];
                is_lower(e.0) && e.0 < end && !holds(session.masked, e.0) && cost_known(words, session, disk, e.0, e.1)
            }
        &&& forall|t: int|
            0 <= t < self.needs_solve@.len() ==> {
                let e = #[trigger] self.needs_solve@[t];
                is_lower(e.0) && e.0 < end && !holds(session.masked, e.0) && cost_unknown(words, session, disk, e.0, e.1@)
            }
        &&& forall|s: int, t: int| 0 <= s < t < self.evals@.len() ==> (#[trigger] self.evals@[s]).0 < (#[trigger] self.evals@[t]).0
        &&& forall|s: int, t: int|
            0 <= s < t < self.needs_solve@.len() ==> (#[trigger] self.needs_solve@[s]).0 < (#[trigger] self.needs_solve@[t]).0
        &&& forall|l: u8|
            is_lower(l) && l < end && !#[trigger] holds(session.masked, l) ==> has_eval(self.evals@, l) || has_unsolved(
                self.needs_solve@,
                l,
            )
    }
}

/// The largest cost among the answers, where all values are known.
pub fn largest_cost(parts: &Vec<(u32, Vec<usize>)>, values: &[Option<u32>]) -> (r: u32)
    requires
        parts@.len() > 0,
        values@.len() == parts@.len(),
        forall|a: int| 0 <= a < values@.len() ==> ((#[trigger] values@[a]) matches Some(v) ==> v < u32::MAX),
    ensures
        is_largest_cost(parts@, values@, r as int),
        forall|a: int|
            0 <= a < parts@.len() ==> (#[trigger] values@[a] matches Some(v) ==> r >= v + if parts@[a].0 == 0 {
                1int
            } else {
                0int
            }),
        (forall|a: int| 0 <= a < parts@.len() ==> #[trigger] values@[a] is Some) ==> exists|a: int|
            0 <= a < parts@.len() && r == (#[trigger] values@[a])->0 + if parts@[a].0 == 0 {
                1int
            } else {
                0int
            },
{
    let mut worst: u32 = 0;
    let mut i: usize = 0;
    while i < parts.len()
        invariant
            i <= parts@.len(),
            values@.len() == parts@.len(),
            forall|a: int| 0 <= a < values@.len() ==> ((#[trigger] values@[a]) matches Some(v) ==> v < u32::MAX),
            forall|a: int| 0 <= a < i ==> answer_cost(#[trigger] parts@[a], values@[a]) <= worst,
            i > 0 ==> exists|a: int| 0 <= a < i && answer_cost(#[trigger] parts@[a], values@[a]) == worst,
            i == 0 ==> worst == 0,
        decreases parts@.len() - i,
    {
        let miss_cost: u32 = if parts[i].0 == 0 {
            1
        } else {
            0
        };
        assert(values@[i as int] matches Some(v) ==> v < u32::MAX);
        let cost: u32 = match values[i] {
            Some(v) => miss_cost + v,
            None => u32::MAX,
        };
        assert(cost == answer_cost(parts@[i as int], values@[i as int]));
        if cost > worst {
            worst = cost;
        }
        i += 1;
    }
    worst
}

/// Evaluate every letter that has not been guessed by what can be looked up.
pub fn plan_hint<D: Fn(u128) -> Option<u32>>(words: &[Vec<u8>], session: &GameSession, disk: &D) -> (plan: HintPlan)
    requires
        session.ok(words@),
        forall|key: u128| #[trigger] disk.requires((key,)),
    ensures
        plan.sorts(words@, *session, *disk, 123),
{
    let n: usize = words.len();
    let mut plan = HintPlan { evals: Vec::new(), needs_solve: Vec::new() };
    proof {
        lemma_possible(words@, session.masked, session.pattern@);
        assert forall|i: int| 0 <= i < words@.len() implies (#[trigger] words@[i])@.len() <= 32 by {}
    }
    let mut letter: u8 = 97;
    while letter <= 122
        invariant
            97 <= letter <= 123,
            session.ok(words@),
            n == words@.len(),
            short_words(words@),
            idx_ok(session.remaining@, words@.len()),
            forall|key: u128| #[trigger] disk.requires((key,)),
            plan.sorts(words@, *session, *disk, letter as int),
        decreases 123 - letter,
    {
        proof {
            lemma_test_letter(session.masked, letter);
        }
        let ghost evals = plan.evals@;
        let ghost needs = plan.needs_solve@;
        if session.masked & letter_bit(letter) == 0 {
            let parts = partition(words, session.remaining.as_slice(), letter);
            let masked: LetterSet = session.masked | letter_bit(letter);
            proof {
                assert forall|a: int| 0 <= a < parts@.len() implies idx_ok((#[trigger] parts@[a]).1@, words@.len()) by {
                    lemma_group(words@, session.remaining@, letter, parts@[a].0);
                }
                let first = place_mask(words@[session.remaining@[0] as int]@, letter);
                assert(has_part(parts@, first));
            }
            let (values, unsolved) = known_values(words, &parts, masked, disk);
            assert(all_known(words@, parts@, masked, *disk, values@));
            if unsolved.len() == 0 {
                let cost: u32 = largest_cost(&parts, values.as_slice());
                assert(cost_known(words@, *session, *disk, letter, cost)) by {
                    assert(is_partition(words@, session.remaining@, letter, parts@));
                    assert(is_largest_cost(parts@, values@, cost as int));
                }
                plan.evals.push((letter, cost));
                assert(plan.evals@[plan.evals@.len() - 1].0 == letter);
            } else {
                assert(cost_unknown(words@, *session, *disk, letter, parts@)) by {
                    assert(unsolved@[0] < values@.len() && values@[unsolved@[0] as int] is None);
                }
                plan.needs_solve.push((letter, parts));
                assert(plan.needs_solve@[plan.needs_solve@.len() - 1].0 == letter);
            }
        }
        proof {
            assert forall|l: u8| is_lower(l) && l < letter + 1 && !#[trigger] holds(session.masked, l) implies has_eval(plan.evals@, l)
                || has_unsolved(plan.needs_solve@, l) by {
                if l < letter {
                    if has_eval(evals, l) {
                        let t = choose|t: int| 0 <= t < evals.len() && (#[trigger] evals[t]).0 == l;
                        assert(plan.evals@[t].0 == l);
                    } else {
                        assert(has_unsolved(needs, l));
                        let t = choose|t: int| 0 <= t < needs.len() && (#[trigger] needs[t]).0 == l;
                        assert(plan.needs_solve@[t].0 == l);
                    }
                }
            }
        }
        letter += 1;
    }
    plan
}

/// What an answer leads to: its miss and the value of what remains.
pub open spec fn answer_value(words: Seq<Vec<u8>>, part: (u32, Vec<usize>), masked: u32) -> int {
    position_value(words, part.1@, masked) + if part.0 == 0 {
        1int
    } else {
        0int
    }
}

/// `v` is the largest value that an answer leads to.
pub open spec fn is_largest_value(words: Seq<Vec<u8>>, parts: Seq<(u32, Vec<usize>)>, masked: u32, v: int) -> bool {
    &&& forall|a: int| 0 <= a < parts.len() ==> answer_value(words, #[trigger] parts[a], masked) <= v
    &&& exists|a: int| 0 <= a < parts.len() && answer_value(words, #[trigger] parts[a], masked) == v
}

/// Taking one more answer into account.
proof fn lemma_largest_step(words: Seq<Vec<u8>>, parts: Seq<(u32, Vec<usize>)>, masked: u32, i: int, before: int, after: int)
    requires
        0 <= i < parts.len(),
        i > 0 ==> is_largest_value(words, parts.take(i), masked, before),
        i == 0 ==> before == 0,
        after == if answer_value(words, parts[i], masked) > before {
            answer_value(words, parts[i], masked)
        } else {
            before
        },
    ensures
        is_largest_value(words, parts.take(i + 1), masked, after),
{
    let p = parts.take(i);
    let q = parts.take(i + 1);
    assert(q[i] == parts[i]);
    assert forall|a: int| 0 <= a < q.len() implies answer_value(words, #[trigger] q[a], masked) <= after by {
        if a < i {
            assert(q[a] == p[a]);
        }
    }
    if i > 0 {
        let a = choose|a: int| 0 <= a < p.len() && answer_value(words, #[trigger] p[a], masked) == before;
        assert(q[a] == p[a]);
    }
}

/// Search the answers to a letter for the one that costs the player most. `masked`
/// holds the guessed letters with this one.
pub fn solve_parts<D: Fn(u128) -> Option<u32>>(
    solver: &mut MemoizedSolver,
    parts: &Vec<(u32, Vec<usize>)>,
    masked: LetterSet,
    disk: &D,
) -> (worst: u32)
    requires
        old(solver).wf(),
        old(solver).served() is Some,
        parts@.len() > 0,
        forall|a: int| 0 <= a < parts@.len() ==> idx_ok((#[trigger] parts@[a]).1@, old(solver).served()->0.len()),
        forall|key: u128| #[trigger] disk.requires((key,)),
    ensures
        final(solver).wf(),
        final(solver).served() == old(solver).served(),
        final(solver).table() == old(solver).table(),
        worst <= 59,
        ({
            let words = old(solver).served()->0;
            old(solver).serves_truly() && (forall|a: int|
                0 <= a < parts@.len() ==> disk_believed(words, (#[trigger] parts@[a]).1@, masked, *disk)) ==> is_largest_value(
                words,
                parts@,
                masked,
                worst as int,
            ) && final(solver).serves_truly()
        }),
{
    match solve_parts_until(solver, parts, masked, disk, &never) {
        Some(worst) => worst,
        None => 0,
    }
}

/// The same, given up once `stop` says so. Returns `None` where it was given up; what
/// was found on the way is kept.
pub fn solve_parts_until<D: Fn(u128) -> Option<u32>, S: Fn() -> bool>(
    solver: &mut MemoizedSolver,
    parts: &Vec<(u32, Vec<usize>)>,
    masked: LetterSet,
    disk: &D,
    stop: &S,
) -> (r: Option<u32>)
    requires
        old(solver).wf(),
        old(solver).served() is Some,
        parts@.len() > 0,
        forall|a: int| 0 <= a < parts@.len() ==> idx_ok((#[trigger] parts@[a]).1@, old(solver).served()->0.len()),
        forall|key: u128| #[trigger] disk.requires((key,)),
        stop.requires(()),
    ensures
        final(solver).wf(),
        final(solver).served() == old(solver).served(),
        final(solver).table() == old(solver).table(),
        r matches Some(worst) ==> worst <= 59,
        (forall|b: bool| #[trigger] stop.ensures((), b) ==> !b) ==> r is Some,
        (forall|a: int| 0 <= a < parts@.len() ==> (#[trigger] parts@[a]).1@.len() <= 1) ==> r is Some,
        word_len(old(solver).served()->0) > 0 && (forall|b: bool| #[trigger] stop.ensures((), b) ==> b) && (exists|a: int|
            0 <= a < parts@.len() && (#[trigger] parts@[a]).1@.len() > 1) ==> r is None,
        ({
            let words = old(solver).served()->0;
            old(solver).serves_truly() && (forall|a: int|
                0 <= a < parts@.len() ==> disk_believed(words, (#[trigger] parts@[a]).1@, masked, *disk)) ==> (r matches Some(worst)
                ==> is_largest_value(words, parts@, masked, worst as int)) && final(solver).serves_truly()
        }),
{
    let ghost words = solver.served()->0;
    let ghost trusted = solver.serves_truly() && (forall|a: int|
        0 <= a < parts@.len() ==> disk_believed(words, (#[trigger] parts@[a]).1@, masked, *disk));
    let ghost start = *solver;
    let mut worst: u32 = 0;
    let mut i: usize = 0;
    while i < parts.len()
        invariant
            i <= parts@.len(),
            solver.wf(),
            start == *old(solver),
            solver.served() == start.served(),
            start.served() == Some(words),
            solver.table() == start.table(),
            forall|a: int| 0 <= a < parts@.len() ==> idx_ok((#[trigger] parts@[a]).1@, words.len()),
            forall|key: u128| #[trigger] disk.requires((key,)),
            stop.requires(()),
            worst <= 59,
            trusted == (start.serves_truly() && (forall|a: int|
                0 <= a < parts@.len() ==> disk_believed(words, (#[trigger] parts@[a]).1@, masked, *disk))),
            trusted ==> solver.serves_truly(),
            trusted && i > 0 ==> is_largest_value(words, parts@.take(i as int), masked, worst as int),
            i == 0 ==> worst == 0,
            word_len(words) > 0 && (forall|b: bool| #[trigger] stop.ensures((), b) ==> b) ==> forall|a: int|
                0 <= a < i ==> (#[trigger] parts@[a]).1@.len() <= 1,
        decreases parts@.len() - i,
    {
        let miss_cost: u32 = if parts[i].0 == 0 {
            1
        } else {
            0
        };
        let ghost part = parts@[i as int];
        assert(idx_ok(part.1@, words.len()));
        let ghost before = worst;
        let (value, stopped) = solver.solve_position_until(parts[i].1.as_slice(), masked, disk, stop);
        proof {
            if trusted {
                assert(disk_believed(words, part.1@, masked, *disk));
            }
        }
        if stopped {
            return None;
        }
        if miss_cost + value > worst {
            worst = miss_cost + value;
        }
        proof {
            if trusted {
                if part.1@.len() <= 1 {
                    lemma_one_word(words, part.1@, masked);
                }
                lemma_largest_step(words, parts@, masked, i as int, before as int, worst as int);
            }
        }
        i += 1;
    }
    assert(parts@.take(i as int) =~= parts@);
    Some(worst)
}

/// `b` is the first letter of the lowest cost.
pub open spec fn is_best(evals: Seq<(u8, u32)>, b: int) -> bool {
    &&& 0 <= b < evals.len()
    &&& forall|t: int| 0 <= t < evals.len() ==> evals[b].1 <= (#[trigger] evals[t]).1
    &&& forall|t: int| 0 <= t < b ==> evals[b].1 < (#[trigger] evals[t]).1
}

/// Pick the letter of the lowest cost, the first one of several.
pub fn pick_hint(evals: &[(u8, u32)]) -> (r: Option<usize>)
    ensures
        match r {
            None => evals@.len() == 0,
            Some(b) => is_best(evals@, b as int),
        },
        r matches Some(b) ==> {
            &&& b < evals@.len()
            &&& forall|t: int| 0 <= t < evals@.len() ==> (#[trigger] evals@[t]).1 >= evals@[b as int].1
            &&& forall|t: int| 0 <= t < b ==> (#[trigger] evals@[t]).1 != evals@[b as int].1
        },
{
    if evals.len() == 0 {
        return None;
    }
    let mut best: usize = 0;
    let mut i: usize = 1;
    while i < evals.len()
        invariant
            1 <= i <= evals@.len(),
            best < i,
            forall|t: int| 0 <= t < i ==> evals@[best as int].1 <= (#[trigger] evals@[t]).1,
            forall|t: int| 0 <= t < best ==> evals@[best as int].1 < (#[trigger] evals@[t]).1,
        decreases evals@.len() - i,
    {
        if evals[i].1 < evals[best].1 {
            best = i;
        }
        i += 1;
    }
    Some(best)
}

/// A hint for the player.
#[derive(Debug)]
pub struct HintResponse {
    /// The letter in upper case.
    pub letter: String,
    /// The misses that guessing it leads to under best play.
    pub value: Option<u32>,
    /// "solved" or "degraded".
    pub solve_status: &'static str,
}

/// Turn the evaluated letters into a hint; `None` where no letter could be
/// evaluated.
pub fn hint_response(evals: &[(u8, u32)], any_timeout: bool) -> (r: Option<HintResponse>)
    ensures
        match r {
            None => evals@.len() == 0,
            Some(h) => exists|b: int| #[trigger]
                is_best(evals@, b) && h.letter@ == seq![byte_char(upper(evals@[b].0))] && h.value == Some(evals@[b].1)
                    && h.solve_status@ == if any_timeout {
                    "degraded"@
                } else {
                    "solved"@
                },
        },
        r matches Some(h) ==> {
            &&& h.value is Some
            &&& forall|t: int| 0 <= t < evals@.len() ==> (#[trigger] evals@[t]).1 >= h.value->0
            &&& h.letter@.len() == 1
            &&& exists|t: int|
                0 <= t < evals@.len() && (#[trigger] evals@[t]).1 == h.value->0 && (97 <= evals@[t].0 <= 122 ==> h.letter@[0] as int
                    == evals@[t].0 - 32)
        },
{
    match pick_hint(evals) {
        None => None,
        Some(b) => {
            let (letter, value) = evals[b];
            let mut one: Vec<u8> = Vec::new();
            one.push(letter);
            let text = upper_string(one.as_slice());
            assert(text@ =~= seq![byte_char(upper(letter))]);
            assert(is_best(evals@, b as int));
            Some(
                HintResponse {
                    letter: text,
                    value: Some(value),
                    solve_status: if any_timeout {
                        "degraded"
                    } else {
                        "solved"
                    },
                },
            )
        },
    }
}

/// The guess value of a letter is unique.
pub proof fn lemma_guess_value_unique(s: Set<Seq<u8>>, g: Set<u8>, l: u8, v: int, w: int)
    requires
        !g.contains(l),
        is_guess_value(s, g, l, v),
        is_guess_value(s, g, l, w),
    ensures
        v == w,
{
    if v < w {
        lemma_guess_more_budget(s, g, l, v, w - 1);
    } else if w < v {
        lemma_guess_more_budget(s, g, l, w, v - 1);
    }
}

/// The largest value among the answers is the minimax value of the guess.
pub proof fn lemma_largest_is_guess_value(words: Seq<Vec<u8>>, session: GameSession, l: u8, parts: Seq<(u32, Vec<usize>)>, v: int)
    requires
        session.ok(words),
        words.len() <= usize::MAX,
        is_lower(l),
        is_partition(words, session.remaining@, l, parts),
        is_largest_value(words, parts, session.masked | bit_of(l), v),
    ensures
        is_guess_value(chosen(words, session.remaining@), letters(session.masked), l, v),
{
    let masked = session.masked | bit_of(l);
    lemma_possible(words, session.masked, session.pattern@);
    assert forall|i: int| 0 <= i < words.len() implies (#[trigger] words[i])@.len() <= 32 by {}
    assert forall|a: int| 0 <= a < parts.len() implies part_value(words, #[trigger] parts[a], session.masked, l) <= v by {
        assert(answer_value(words, parts[a], masked) <= v);
    }
    let a = choose|a: int| 0 <= a < parts.len() && answer_value(words, #[trigger] parts[a], masked) == v;
    assert(part_value(words, parts[a], session.masked, l) >= v);
    lemma_parts_guess(words, session.remaining@, session.masked, l, parts, v);
}

/// Where the table on disk is true, what a hint finds in it for a letter is the
/// minimax value of guessing it.
pub proof fn lemma_cost_known_true<D: Fn(u128) -> Option<u32>>(words: Seq<Vec<u8>>, session: GameSession, disk: D, l: u8, v: u32)
    requires
        session.ok(words),
        words.len() <= usize::MAX,
        is_lower(l),
        !holds(session.masked, l),
        disk_true(words, all_indices(words.len()), 0, word_len(words), disk),
        cost_known(words, session, disk, l, v),
    ensures
        is_guess_value(chosen(words, session.remaining@), letters(session.masked), l, v as int),
{
    let masked = session.masked | bit_of(l);
    let (parts, values) = choose|parts: Seq<(u32, Vec<usize>)>, values: Seq<Option<u32>>|
        #![trigger is_partition(words, session.remaining@, l, parts), is_largest_cost(parts, values, v as int)]
        is_partition(words, session.remaining@, l, parts) && all_known(words, parts, masked, disk, values) && is_largest_cost(
            parts,
            values,
            v as int,
        ) && forall|a: int| 0 <= a < values.len() ==> values[a] is Some;
    assert forall|a: int| 0 <= a < parts.len() implies answer_value(words, #[trigger] parts[a], masked) == answer_cost(parts[a], values[a]) by {
        assert(values[a] is Some);
        lemma_known_true(words, session, l, parts[a], disk, values[a]);
    }
    let a = choose|a: int| 0 <= a < parts.len() && answer_cost(#[trigger] parts[a], values[a]) == v as int;
    assert(answer_value(words, parts[a], masked) == v as int);
    lemma_largest_is_guess_value(words, session, l, parts, v as int);
}

/// While some place is hidden, some letter is open.
proof fn lemma_some_open(words: Seq<Vec<u8>>, session: GameSession) -> (w: Seq<u8>)
    requires
        session.ok(words),
        words.len() <= usize::MAX,
        !session.game_over,
    ensures
        chosen(words, session.remaining@).contains(w),
        !no_open(chosen(words, session.remaining@), letters(session.masked)),
{
    let s = chosen(words, session.remaining@);
    let idx = session.remaining@;
    let p = session.pattern@;
    lemma_possible(words, session.masked, p);
    let j = choose|j: int| 0 <= j < p.len() && p[j] == HIDDEN;
    assert(idx.contains(idx[0]));
    let w = words[idx[0] as int]@;
    assert(seen(w, session.masked)[j] == p[j]);
    assert(s.contains(w));
    assert(is_lower(w[j]));
    assert(at(w, j, w[j]));
    assert(is_open(s, letters(session.masked), w[j]));
    w
}

/// An open letter is a letter of the alphabet.
proof fn lemma_open_is_lower(words: Seq<Vec<u8>>, session: GameSession, l: u8)
    requires
        session.ok(words),
        words.len() <= usize::MAX,
        is_open(chosen(words, session.remaining@), letters(session.masked), l),
    ensures
        is_lower(l),
        !holds(session.masked, l),
{
    let s = chosen(words, session.remaining@);
    let idx = session.remaining@;
    lemma_possible(words, session.masked, session.pattern@);
    let x = choose|x: Seq<u8>| #[trigger] s.contains(x) && occurs(l, x);
    let t = choose|t: int| 0 <= t < idx.len() && words[#[trigger] idx[t] as int]@ == x;
    let q = choose|q: int| #[trigger] at(x, q, l);
    assert(idx[t] < words.len());
    assert(lower_word(words[idx[t] as int]@));
    assert(is_lower(x[q]));
}

/// A hint names a best move: where every letter that has not been guessed was
/// evaluated at its minimax value, the letter picked leads to the value of the
/// position.
pub proof fn lemma_hint_optimal(words: Seq<Vec<u8>>, session: GameSession, evals: Seq<(u8, u32)>, b: int)
    requires
        session.ok(words),
        words.len() <= usize::MAX,
        !session.game_over,
        forall|t: int|
            0 <= t < evals.len() ==> {
                let e = #[trigger] evals[t];
                is_lower(e.0) && !holds(session.masked, e.0) && is_guess_value(
                    chosen(words, session.remaining@),
                    letters(session.masked),
                    e.0,
                    e.1 as int,
                )
            },
        forall|l: u8| is_lower(l) && !#[trigger] holds(session.masked, l) ==> has_eval(evals, l),
        is_best(evals, b),
    ensures
        evals[b].1 == session_value(words, session),
        is_guess_value(chosen(words, session.remaining@), letters(session.masked), evals[b].0, session_value(words, session) as int),
{
    let s = chosen(words, session.remaining@);
    let g = letters(session.masked);
    let v = value(s, g) as int;
    let w = lemma_some_open(words, session);
    lemma_best_guess(s, g);
    let l = choose|l: u8| #[trigger] is_open(s, g, l) && is_guess_value(s, g, l, v);
    lemma_open_is_lower(words, session, l);
    assert(has_eval(evals, l));
    let e = choose|e: int| 0 <= e < evals.len() && (#[trigger] evals[e]).0 == l;
    lemma_guess_value_unique(s, g, l, v, evals[e].1 as int);
    assert(evals[b].1 <= v);
    let h = evals[b].0;
    let c = evals[b].1 as int;
    if is_open(s, g, h) {
        assert(v <= c);
    } else {
        lemma_useless_guess(s, g, h, c, w);
    }
}

/// A plan for a hint leaves no letter out: each one that was not guessed either has its
/// cost, looked up, or is to be searched with its answers; and it has nothing else.
pub proof fn lemma_hint_plan<D: Fn(u128) -> Option<u32>>(words: Seq<Vec<u8>>, session: GameSession, disk: D, plan: HintPlan, l: u8)
    requires
        plan.sorts(words, session, disk, 123),
        97 <= l <= 122,
    ensures
        !holds(session.masked, l) ==> (exists|t: int| 0 <= t < plan.evals@.len() && (#[trigger] plan.evals@[t]).0 == l) || exists|t: int|
            0 <= t < plan.needs_solve@.len() && (#[trigger] plan.needs_solve@[t]).0 == l,
        forall|t: int|
            0 <= t < plan.evals@.len() && (#[trigger] plan.evals@[t]).0 == l ==> !holds(session.masked, l) && cost_known(
                words,
                session,
                disk,
                l,
                plan.evals@[t].1,
            ),
        forall|t: int|
            0 <= t < plan.needs_solve@.len() && (#[trigger] plan.needs_solve@[t]).0 == l ==> !holds(session.masked, l) && is_partition(
                words,
                session.remaining@,
                l,
                plan.needs_solve@[t].1@,
            ),
        forall|t: int|
            0 <= t < plan.needs_solve@.len() && (#[trigger] plan.needs_solve@[t]).0 == l ==> exists|a: int|
                0 <= a < plan.needs_solve@[t].1@.len() && (#[trigger] plan.needs_solve@[t].1@[a]).1@.len() > 1 && stored(
                    words,
                    plan.needs_solve@[t].1@[a].1@,
                    session.masked | bit_of(l),
                    disk,
                    None,
                ),
{
    if !holds(session.masked, l) {
        assert(has_eval(plan.evals@, l) || has_unsolved(plan.needs_solve@, l));
    }
    assert forall|t: int| 0 <= t < plan.needs_solve@.len() && (#[trigger] plan.needs_solve@[t]).0 == l implies exists|a: int|
        0 <= a < plan.needs_solve@[t].1@.len() && (#[trigger] plan.needs_solve@[t].1@[a]).1@.len() > 1 && stored(
            words,
            plan.needs_solve@[t].1@[a].1@,
            session.masked | bit_of(l),
            disk,
            None,
        ) by {
        let parts = plan.needs_solve@[t].1@;
        let masked = session.masked | bit_of(l);
        assert(cost_unknown(words, session, disk, l, parts));
        let values = choose|values: Seq<Option<u32>>| #[trigger]
            all_known(words, parts, masked, disk, values) && exists|a: int| 0 <= a < values.len() && values[a] is None;
        let a = choose|a: int| 0 <= a < values.len() && values[a] is None;
        assert(part_known(words, parts[a].1@, masked, disk, values[a]));
        let e = choose|e: Option<TtEntry>| #[trigger]
            stored(words, parts[a].1@, masked, disk, e) && values[a] == match e {
                Some(entry) => Some(entry.value),
                None => None,
            };
        assert(e is None);
    }
}

} // verus!
