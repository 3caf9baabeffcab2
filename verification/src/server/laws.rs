//! What the referee's answers mean for the player.
use vstd::prelude::*;

use crate::game::letters::{bit_of, holds, is_lower, lemma_add_letter, letters};
use crate::game::rules::{
    cost, is_guess_value, is_open, lemma_best_guess, lemma_indistinct, lemma_value, lemma_value_uniform_letter, occurs, reply,
    same_places, uniform, value, wins,
};
use crate::server::answer::answered;
use crate::server::referee::{answer_cost, is_worst, lists_unknown, outranks, part_known, GuessPlan};
use crate::server::session::{budget, lemma_possible, lemma_session_reachable, seen, GameSession, HIDDEN};
use crate::solver::memoized::{all_indices, list_value, word_len};
use crate::solver::partition::{group, lemma_group, short_words};
use crate::solver::search::{lemma_parts_guess, part_value};
use crate::solver::signature::{chosen, idx_ok, position_value};
use crate::solver::trust::{disk_true, lemma_group_reachable};
use crate::solver::serving::{lemma_stored_true, stored, TtEntry};

verus! {

/// The number of misses that the player still has to make under best play.
pub open spec fn session_value(words: Seq<Vec<u8>>, session: GameSession) -> nat {
    position_value(words, session.remaining@, session.masked)
}

/// The values are the true values of the parts.
pub open spec fn values_true(words: Seq<Vec<u8>>, parts: Seq<(u32, Vec<usize>)>, masked: u32, values: Seq<Option<u32>>) -> bool {
    values.len() == parts.len() && forall|a: int|
        0 <= a < parts.len() ==> (#[trigger] values[a]) is Some && values[a]->0 == position_value(words, parts[a].1@, masked)
}

proof fn lemma_session_words(words: Seq<Vec<u8>>, session: GameSession)
    requires
        session.ok(words),
        words.len() <= usize::MAX,
    ensures
        short_words(words),
        idx_ok(session.remaining@, words.len()),
        session.remaining@.no_duplicates(),
{
    lemma_possible(words, session.masked, session.pattern@);
    assert forall|i: int| 0 <= i < words.len() implies (#[trigger] words[i])@.len() <= 32 by {}
}

/// A single word needs no misses.
pub proof fn lemma_one_word(words: Seq<Vec<u8>>, idx: Seq<usize>, masked: u32)
    requires
        forall|s: int, t: int| 0 <= s < idx.len() && 0 <= t < idx.len() ==> words[#[trigger] idx[s] as int]@ == words[#[trigger] idx[t] as int]@,
    ensures
        position_value(words, idx, masked) == 0,
{
    let s = chosen(words, idx);
    let g = letters(masked);
    assert forall|l: u8| l != 0 && !g.contains(l) implies #[trigger] uniform(s, l) by {}
    lemma_indistinct(s, g);
    lemma_value(s, g, 0);
}

/// A letter that no possible word holds costs a miss and tells nothing.
pub proof fn lemma_useless_guess(s: Set<Seq<u8>>, g: Set<u8>, l: u8, c: int, w: Seq<u8>)
    requires
        l != 0,
        !g.contains(l),
        !is_open(s, g, l),
        s.contains(w),
        is_guess_value(s, g, l, c),
    ensures
        c == value(s, g) + 1,
{
    assert forall|x: Seq<u8>, y: Seq<u8>| #[trigger] s.contains(x) && #[trigger] s.contains(y) implies same_places(l, x, y) by {
        assert(!occurs(l, x) && !occurs(l, y));
    }
    assert forall|x: Seq<u8>| #[trigger] s.contains(x) implies reply(s, l, x) == s && cost(l, x) == 1 by {
        assert(!occurs(l, x));
        assert(reply(s, l, x) =~= s);
    }
    lemma_value_uniform_letter(s, g, l);
    lemma_value(s, g.insert(l), c - 1);
    lemma_value(s, g.insert(l), c - 2);
    assert(reply(s, l, w) == s && cost(l, w) == 1);
    if !wins(s, g.insert(l), c - 1) {
        assert(wins(reply(s, l, w), g.insert(l), c - cost(l, w)));
    }
}

/// The referee answers optimally: where the values of the answers are right, what
/// the chosen answer costs the player is the minimax value of the guess, and no
/// answer costs more.
pub proof fn lemma_referee_optimal(
    words: Seq<Vec<u8>>,
    session: GameSession,
    plan: GuessPlan,
    values: Seq<Option<u32>>,
    b: int,
)
    requires
        session.ok(words),
        words.len() <= usize::MAX,
        plan.fits(words, session),
        values_true(words, plan.parts@, plan.new_masked, values),
        is_worst(plan.parts@, values, b),
    ensures
        is_guess_value(
            chosen(words, session.remaining@),
            letters(session.masked),
            plan.letter,
            answer_cost(plan.parts@[b], values[b]),
        ),
        forall|a: int|
            0 <= a < plan.parts@.len() ==> #[trigger] answer_cost(plan.parts@[a], values[a]) <= answer_cost(plan.parts@[b], values[b]),
{
    let parts = plan.parts@;
    let c = answer_cost(parts[b], values[b]);
    lemma_session_words(words, session);
    assert forall|a: int| 0 <= a < parts.len() implies #[trigger] answer_cost(parts[a], values[a]) <= c by {
        assert(!outranks(parts, values, a, b));
    }
    assert forall|a: int| 0 <= a < parts.len() implies part_value(words, #[trigger] parts[a], session.masked, plan.letter) <= c by {
        assert(values[a] is Some);
        assert(answer_cost(parts[a], values[a]) <= c);
    }
    assert(values[b] is Some);
    assert(part_value(words, parts[b], session.masked, plan.letter) >= c);
    lemma_parts_guess(words, session.remaining@, session.masked, plan.letter, parts, c);
}

/// Once every place is revealed there is nothing left to guess.
pub proof fn lemma_all_seen(words: Seq<Vec<u8>>, session: GameSession)
    requires
        session.ok(words),
        words.len() <= usize::MAX,
        !session.pattern@.contains(HIDDEN),
    ensures
        session_value(words, session) == 0,
        forall|t: int| 0 <= t < session.remaining@.len() ==> words[(#[trigger] session.remaining@[t]) as int]@ == session.pattern@,
{
    let idx = session.remaining@;
    lemma_possible(words, session.masked, session.pattern@);
    assert forall|t: int| 0 <= t < idx.len() implies words[(#[trigger] idx[t]) as int]@ == session.pattern@ by {
        assert(idx.contains(idx[t]));
        let w = words[idx[t] as int]@;
        assert forall|j: int| 0 <= j < w.len() implies w[j] == #[trigger] session.pattern@[j] by {
            assert(seen(w, session.masked)[j] == session.pattern@[j]);
        }
        assert(w =~= session.pattern@);
    }
    lemma_one_word(words, idx, session.masked);
}

/// A player who has to make more misses than are left to them cannot win: whatever
/// they guess, the referee's answer ends the game as lost or leaves them in the
/// same trouble.
pub proof fn lemma_player_never_wins(
    words: Seq<Vec<u8>>,
    before: GameSession,
    plan: GuessPlan,
    values: Seq<Option<u32>>,
    b: int,
    after: GameSession,
)
    requires
        before.ok(words),
        words.len() <= usize::MAX,
        plan.fits(words, before),
        session_value(words, before) > before.guesses_left,
        values_true(words, plan.parts@, plan.new_masked, values),
        is_worst(plan.parts@, values, b),
        answered(before, plan.letter, plan.parts@[b], after),
        after.ok(words),
    ensures
        after.lost() || !after.game_over && session_value(words, after) > after.guesses_left,
{
    let s = chosen(words, before.remaining@);
    let g = letters(before.masked);
    let l = plan.letter;
    let part = plan.parts@[b];
    let c = answer_cost(part, values[b]);
    lemma_session_words(words, before);
    lemma_referee_optimal(words, before, plan, values, b);
    lemma_add_letter(before.masked, l);
    assert(values[b] is Some && values[b]->0 == session_value(words, after));
    if is_open(s, g, l) {
        lemma_best_guess(s, g);
        assert(value(s, g) <= c);
    } else {
        assert(s.contains(words[before.remaining@[0] as int]@));
        lemma_useless_guess(s, g, l, c, words[before.remaining@[0] as int]@);
    }
    assert(c > before.guesses_left);
    if after.won {
        lemma_all_seen(words, after);
    }
}

/// A game that starts with a budget one below the minimax value of its word list
/// starts out hopeless for the player.
pub proof fn lemma_start_hopeless(words: Seq<Vec<u8>>, session: GameSession, minimax: u32)
    requires
        minimax == list_value(words),
        minimax > 0,
        session.remaining@ == all_indices(words.len()),
        session.masked == 0,
        session.guesses_left == budget(Some(minimax)),
    ensures
        session_value(words, session) > session.guesses_left,
{
}

/// Where the table on disk is true, what it has for an answer to a letter is the
/// value of what the answer leaves.
pub proof fn lemma_known_true<D: Fn(u128) -> Option<u32>>(
    words: Seq<Vec<u8>>,
    session: GameSession,
    l: u8,
    part: (u32, Vec<usize>),
    disk: D,
    v: Option<u32>,
)
    requires
        session.ok(words),
        words.len() <= usize::MAX,
        is_lower(l),
        !holds(session.masked, l),
        part.1@ == group(words, session.remaining@, l, part.0),
        part.1@.len() > 0,
        disk_true(words, all_indices(words.len()), 0, word_len(words), disk),
        part_known(words, part.1@, session.masked | bit_of(l), disk, v),
    ensures
        v is Some ==> v->0 == position_value(words, part.1@, session.masked | bit_of(l)),
{
    let all = all_indices(words.len());
    let masked = session.masked | bit_of(l);
    lemma_session_words(words, session);
    lemma_session_reachable(words, session);
    lemma_group(words, session.remaining@, l, part.0);
    lemma_group_reachable(words, word_len(words), all, 0, session.remaining@, session.masked, l, part.0);
    if part.1@.len() <= 1 {
        lemma_one_word(words, part.1@, masked);
    } else {
        let e = choose|e: Option<TtEntry>| #[trigger]
            stored(words, part.1@, masked, disk, e) && v == match e {
                Some(entry) => Some(entry.value),
                None => None,
            };
        lemma_stored_true(words, part.1@, masked, disk, e);
    }
}

/// Where the table on disk is true and has every answer, the values of a plan are
/// true, so the referee answers optimally without a search.
pub proof fn lemma_plan_true<D: Fn(u128) -> Option<u32>>(words: Seq<Vec<u8>>, session: GameSession, plan: GuessPlan, disk: D)
    requires
        session.ok(words),
        words.len() <= usize::MAX,
        plan.fits(words, session),
        disk_true(words, all_indices(words.len()), 0, word_len(words), disk),
        forall|a: int|
            0 <= a < plan.parts@.len() ==> part_known(words, (#[trigger] plan.parts@[a]).1@, plan.new_masked, disk, plan.values@[a]),
        lists_unknown(plan.values@, plan.unsolved@),
        plan.unsolved@.len() == 0,
    ensures
        values_true(words, plan.parts@, plan.new_masked, plan.values@),
{
    assert forall|a: int| 0 <= a < plan.parts@.len() implies (#[trigger] plan.values@[a]) is Some && plan.values@[a]->0 == position_value(
        words,
        plan.parts@[a].1@,
        plan.new_masked,
    ) by {
        if plan.values@[a] is None {
            assert(plan.unsolved@.contains(a as usize));
        }
        lemma_known_true(words, session, plan.letter, plan.parts@[a], disk, plan.values@[a]);
    }
}

} // verus!
