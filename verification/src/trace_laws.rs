//! What simulated players and their referee go by.
use vstd::prelude::*;

use crate::game::letters::{bit_of, holds, is_lower};
use crate::game::rules::{at, occurs};
use crate::precompute::parts::{is_ordered_parts, ordered_parts};
use crate::solver::partition::group;
use crate::solver::serving::serving_key;
use crate::solver::tt::tt_value;
use crate::trace::{
    holders, is_extreme, is_pick, is_rank, is_turn_answer, lcg, letter_rank, lists_legal, rank_known, raw_known, scored,
    strategy_named, turn_cost, turn_known, wants_smallest, Strategy,
};

verus! {

/// Each strategy has its name, and any other name stands for the first letter.
pub proof fn lemma_strategy_names(name: Seq<char>)
    ensures
        strategy_named("optimal"@) == Strategy::Optimal,
        strategy_named("adversarial"@) == Strategy::Adversarial,
        strategy_named("random"@) == Strategy::Random,
        strategy_named("least-common"@) == Strategy::LeastCommon,
        name != "optimal"@ && name != "adversarial"@ && name != "random"@ && name != "least-common"@ ==> strategy_named(name)
            == Strategy::First,
{
    reveal_strlit("optimal");
    reveal_strlit("adversarial");
    reveal_strlit("random");
    reveal_strlit("least-common");
    assert("optimal"@.len() == 7 && "adversarial"@.len() == 11 && "random"@.len() == 6 && "least-common"@.len() == 12);
}

/// The generator multiplies and adds, and drops what goes beyond sixty-four bits.
pub proof fn lemma_generator(state: u64)
    ensures
        lcg(state) as int == (state * 6364136223846793005 + 1442695040888963407) % 0x1_0000_0000_0000_0000,
{
    let product = state * 6364136223846793005;
    let low = state.wrapping_mul(6364136223846793005u64);
    assert(low as int == product % 0x1_0000_0000_0000_0000);
    assert(lcg(state) as int == (low + 1442695040888963407) % 0x1_0000_0000_0000_0000);
    vstd::arithmetic::div_mod::lemma_add_mod_noop(product, 1442695040888963407, 0x1_0000_0000_0000_0000);
    vstd::arithmetic::div_mod::lemma_add_mod_noop(low as int, 1442695040888963407, 0x1_0000_0000_0000_0000);
    vstd::arithmetic::div_mod::lemma_mod_twice(product, 0x1_0000_0000_0000_0000);
}

/// A simulated turn goes by the value that the table has, exact or not, and by nothing
/// where one word is left.
pub proof fn lemma_turn_value<D: Fn(u128) -> Option<u32>>(
    words: Seq<Vec<u8>>,
    idx: Seq<usize>,
    masked: u32,
    disk: D,
    stored: Option<u32>,
    v: Option<u32>,
)
    requires
        forall|o: Option<u32>| #[trigger] disk.ensures((serving_key(words, idx, masked),), o) ==> o == stored,
        turn_known(words, idx, masked, disk, v),
    ensures
        idx.len() <= 1 ==> v == Some(0u32),
        idx.len() > 1 && stored is None ==> v is None,
        idx.len() > 1 ==> (stored matches Some(packed) ==> v == Some(tt_value(packed))),
{
    if idx.len() > 1 {
        lemma_raw_value(words, idx, masked, disk, stored, v);
    }
}

/// A lookup finds the value that the table has, exact or not.
pub proof fn lemma_raw_value<D: Fn(u128) -> Option<u32>>(
    words: Seq<Vec<u8>>,
    idx: Seq<usize>,
    masked: u32,
    disk: D,
    stored: Option<u32>,
    v: Option<u32>,
)
    requires
        forall|o: Option<u32>| #[trigger] disk.ensures((serving_key(words, idx, masked),), o) ==> o == stored,
        raw_known(words, idx, masked, disk, v),
    ensures
        stored is None ==> v is None,
        stored matches Some(packed) ==> v == Some(tt_value(packed)),
{
    let o = choose|o: Option<u32>| #[trigger]
        disk.ensures((serving_key(words, idx, masked),), o) && v == match o {
            Some(packed) => Some(tt_value(packed)),
            None => None,
        };
    assert(o == stored);
}

/// The referee of a simulated turn takes the first of the solved answers that cost most,
/// a miss counted; where none is solved, the last of those that leave most words.
pub proof fn lemma_turn_answer(parts: Seq<(u32, Vec<usize>)>, values: Seq<Option<u32>>, b: int, a: int)
    requires
        values.len() == parts.len(),
        is_turn_answer(parts, values, b),
        0 <= a < parts.len(),
    ensures
        0 <= b < parts.len(),
        values[a] is Some ==> values[b] is Some && ({
            let cost_a = values[a]->0 + if parts[a].0 == 0 { 1int } else { 0int };
            let cost_b = values[b]->0 + if parts[b].0 == 0 { 1int } else { 0int };
            cost_a <= cost_b && (cost_a == cost_b ==> b <= a)
        }),
        values[b] is None ==> values[a] is None && parts[a].1@.len() <= parts[b].1@.len() && (parts[a].1@.len() == parts[b].1@.len() ==> a <= b),
{
    assert(turn_cost(parts[b], 0) >= 0);
    if values[b] is None {
        assert(!(exists|x: int| 0 <= x < parts.len() && (#[trigger] values[x]) is Some));
        assert(values[a] is None);
    }
}

/// What a solved answer costs: its value, and a miss where the letter does not stand.
pub proof fn lemma_turn_cost(part: (u32, Vec<usize>), v: u32)
    ensures
        part.0 != 0 ==> turn_cost(part, v) == v,
        part.0 == 0 ==> turn_cost(part, v) == v + 1,
{
}

/// The letters that may be guessed are those from `a` to `z` that were not.
pub proof fn lemma_legal(masked: u32, legal: Seq<u8>)
    requires
        lists_legal(masked, legal),
    ensures
        forall|l: u8| #[trigger] legal.contains(l) <==> 97 <= l <= 122 && !holds(masked, l),
        forall|s: int, t: int| 0 <= s < t < legal.len() ==> legal[s] < legal[t],
{
    assert forall|l: u8| #[trigger] legal.contains(l) <==> 97 <= l <= 122 && !holds(masked, l) by {
        if legal.contains(l) {
            let t = choose|t: int| 0 <= t < legal.len() && legal[t] == l;
            assert(is_lower(legal[t]));
        }
    }
}

/// A word counts for a letter where the letter stands in it, and each word counts once.
pub proof fn lemma_holders_counted(words: Seq<Vec<u8>>, idx: Seq<usize>, l: u8, n: nat)
    requires
        n <= idx.len(),
    ensures
        holders(words, idx, l, n) == idx.take(n as int).filter(|i: usize| words[i as int]@.contains(l)).len(),
    decreases n,
{
    let f = |i: usize| words[i as int]@.contains(l);
    reveal(Seq::filter);
    if n == 0 {
        assert(idx.take(0).filter(f) =~= Seq::empty());
    } else {
        lemma_holders_counted(words, idx, l, (n - 1) as nat);
        assert(idx.take(n as int).drop_last() =~= idx.take(n - 1));
        let w = words[idx[n - 1] as int]@;
        if occurs(l, w) {
            let j = choose|j: int| #[trigger] at(w, j, l);
            assert(w[j] == l);
        }
        if w.contains(l) {
            let j = choose|j: int| 0 <= j < w.len() && w[j] == l;
            assert(at(w, j, l));
        }
    }
}

/// How a letter ranks: no lower than any answer counts that leaves several words. Such
/// an answer counts what the table has for it, with its miss, and ninety-nine where the
/// table has nothing.
pub proof fn lemma_rank_reaches<D: Fn(u128) -> Option<u32>>(
    words: Seq<Vec<u8>>,
    idx: Seq<usize>,
    masked: u32,
    disk: D,
    l: u8,
    v: int,
    m: u32,
    stored: Option<u32>,
)
    requires
        is_ordered_parts(words, idx, l, ordered_parts(words, idx, l)),
        letter_rank(words, idx, masked, disk, l, v),
        group(words, idx, l, m).len() > 1,
        forall|o: Option<u32>| #[trigger]
            disk.ensures((serving_key(words, group(words, idx, l, m), masked | bit_of(l)),), o) ==> o == stored,
    ensures
        stored is None ==> v >= 99,
        stored matches Some(packed) ==> v >= tt_value(packed) + if m == 0 {
            1int
        } else {
            0int
        },
{
    let parts = ordered_parts(words, idx, l);
    let g = group(words, idx, l, m);
    let counts = choose|counts: Seq<int>| #[trigger] is_rank(words, parts, masked | bit_of(l), disk, counts, v);
    assert(parts.contains((m, g)));
    let a = choose|a: int| 0 <= a < parts.len() && parts[a] == (m, g);
    assert(counts[a] <= v);
    assert(rank_known(words, parts[a], masked | bit_of(l), disk, counts[a]));
    let o = choose|o: Option<u32>| #[trigger]
        raw_known(words, g, masked | bit_of(l), disk, o) && counts[a] == match o {
            Some(x) => x + if m == 0 {
                1int
            } else {
                0int
            },
            None => 99,
        };
    lemma_raw_value(words, g, masked | bit_of(l), disk, stored, o);
}

/// A letter ranks no higher than one of its answers counts, and at nothing where every
/// answer leaves one word.
pub proof fn lemma_rank_reached<D: Fn(u128) -> Option<u32>>(words: Seq<Vec<u8>>, idx: Seq<usize>, masked: u32, disk: D, l: u8, v: int)
    requires
        is_ordered_parts(words, idx, l, ordered_parts(words, idx, l)),
        letter_rank(words, idx, masked, disk, l, v),
        v != 0,
    ensures
        exists|m: u32, o: Option<u32>|
            #![trigger raw_known(words, group(words, idx, l, m), masked | bit_of(l), disk, o)]
            group(words, idx, l, m).len() > 1 && raw_known(words, group(words, idx, l, m), masked | bit_of(l), disk, o) && v == match o {
                Some(x) => x + if m == 0 {
                    1int
                } else {
                    0int
                },
                None => 99,
            },
{
    let parts = ordered_parts(words, idx, l);
    let counts = choose|counts: Seq<int>| #[trigger] is_rank(words, parts, masked | bit_of(l), disk, counts, v);
    let a = choose|a: int| 0 <= a < counts.len() && counts[a] == v;
    assert(rank_known(words, parts[a], masked | bit_of(l), disk, counts[a]));
    let part = parts[a];
    assert(part.1 == group(words, idx, l, part.0));
    let o = choose|o: Option<u32>| #[trigger]
        raw_known(words, part.1, masked | bit_of(l), disk, o) && v == match o {
            Some(x) => x + if part.0 == 0 {
                1int
            } else {
                0int
            },
            None => 99,
        };
    assert(raw_known(words, group(words, idx, l, part.0), masked | bit_of(l), disk, o));
}

/// The first of the smallest scores is taken, or the first of the largest.
pub proof fn lemma_extreme(scores: Seq<u64>, b: int, t: int)
    requires
        0 <= t < scores.len(),
    ensures
        is_extreme(scores, true, b) ==> 0 <= b < scores.len() && scores[b] <= scores[t] && (scores[b] == scores[t] ==> b <= t),
        is_extreme(scores, false, b) ==> 0 <= b < scores.len() && scores[b] >= scores[t] && (scores[b] == scores[t] ==> b <= t),
{
    assert(scores[t] == scores[t]);
}

/// A player that takes the first letter takes the first one of the alphabet that is
/// left; one that plays at random takes the one that the random number points at.
pub proof fn lemma_plain_picks<D: Fn(u128) -> Option<u32>>(
    words: Seq<Vec<u8>>,
    idx: Seq<usize>,
    masked: u32,
    disk: D,
    number: u64,
    legal: Seq<u8>,
    r: u8,
)
    requires
        lists_legal(masked, legal),
        legal.len() > 0,
    ensures
        is_pick(Strategy::First, words, idx, masked, disk, number, legal, r) ==> legal.contains(r) && forall|l: u8|
            97 <= l <= 122 && !#[trigger] holds(masked, l) ==> r <= l,
        is_pick(Strategy::Random, words, idx, masked, disk, number, legal, r) ==> legal.contains(r) && r == legal[(number as usize) as int
            % legal.len() as int],
{
    lemma_legal(masked, legal);
    if is_pick(Strategy::First, words, idx, masked, disk, number, legal, r) {
        assert(legal[0] == r);
        assert forall|l: u8| 97 <= l <= 122 && !#[trigger] holds(masked, l) implies r <= l by {
            assert(legal.contains(l));
            let t = choose|t: int| 0 <= t < legal.len() && legal[t] == l;
        }
    }
}

/// A player that goes by how common letters are takes the letter of fewest words, and of
/// several the first of the alphabet.
pub proof fn lemma_least_common_pick<D: Fn(u128) -> Option<u32>>(
    words: Seq<Vec<u8>>,
    idx: Seq<usize>,
    masked: u32,
    disk: D,
    number: u64,
    legal: Seq<u8>,
    r: u8,
    l: u8,
)
    requires
        lists_legal(masked, legal),
        is_pick(Strategy::LeastCommon, words, idx, masked, disk, number, legal, r),
        is_lower(l),
        !holds(masked, l),
    ensures
        legal.contains(r),
        holders(words, idx, r, idx.len()) <= holders(words, idx, l, idx.len()),
        holders(words, idx, r, idx.len()) == holders(words, idx, l, idx.len()) ==> r <= l,
{
    assert(legal.contains(l));
    let t = choose|t: int| 0 <= t < legal.len() && legal[t] == l;
    let (scores, b) = choose|scores: Seq<u64>, b: int| #[trigger]
        is_extreme(scores, wants_smallest(Strategy::LeastCommon), b) && scores.len() == legal.len() && r == legal[b] && forall|u: int|
            0 <= u < legal.len() ==> scored(Strategy::LeastCommon, words, idx, masked, disk, legal[u], #[trigger] scores[u]);
    lemma_extreme(scores, b, t);
    assert(scored(Strategy::LeastCommon, words, idx, masked, disk, legal[t], scores[t]));
    assert(scored(Strategy::LeastCommon, words, idx, masked, disk, legal[b], scores[b]));
    if b > t {
        assert(scores[b] < scores[t]);
    }
}

/// A player that plays well takes a letter that ranks lowest by the table, and one that
/// plays badly one that ranks highest.
pub proof fn lemma_ranked_pick<D: Fn(u128) -> Option<u32>>(
    strategy: Strategy,
    words: Seq<Vec<u8>>,
    idx: Seq<usize>,
    masked: u32,
    disk: D,
    number: u64,
    legal: Seq<u8>,
    r: u8,
)
    requires
        strategy == Strategy::Optimal || strategy == Strategy::Adversarial,
        lists_legal(masked, legal),
        legal.len() > 0,
        is_pick(strategy, words, idx, masked, disk, number, legal, r),
    ensures
        legal.contains(r),
        exists|v: int| #[trigger]
            letter_rank(words, idx, masked, disk, r, v) && forall|l: u8|
                is_lower(l) && !#[trigger] holds(masked, l) ==> exists|u: int| #[trigger]
                    letter_rank(words, idx, masked, disk, l, u) && (if strategy == Strategy::Optimal {
                        v <= u
                    } else {
                        v >= u
                    }),
{
    let (scores, b) = choose|scores: Seq<u64>, b: int| #[trigger]
        is_extreme(scores, wants_smallest(strategy), b) && scores.len() == legal.len() && r == legal[b] && forall|t: int|
            0 <= t < legal.len() ==> scored(strategy, words, idx, masked, disk, legal[t], #[trigger] scores[t]);
    let v = scores[b] as int;
    assert(scored(strategy, words, idx, masked, disk, legal[b], scores[b]));
    assert(letter_rank(words, idx, masked, disk, r, v));
    assert forall|l: u8| is_lower(l) && !#[trigger] holds(masked, l) implies exists|u: int| #[trigger]
        letter_rank(words, idx, masked, disk, l, u) && (if strategy == Strategy::Optimal {
            v <= u
        } else {
            v >= u
        }) by {
        assert(legal.contains(l));
        let t = choose|t: int| 0 <= t < legal.len() && legal[t] == l;
        assert(scored(strategy, words, idx, masked, disk, legal[t], scores[t]));
        lemma_extreme(scores, b, t);
        assert(letter_rank(words, idx, masked, disk, l, scores[t] as int));
    }
}

} // verus!
