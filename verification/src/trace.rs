//! Simulated games against the table, for measuring how long turns take.
use vstd::prelude::*;

use crate::game::letters::{
    bit_of, holds, is_lower, lemma_mask_bits, lemma_test_letter, letter_bit, pos_mask, LetterSet,
};
use crate::game::rules::occurs;
use crate::precompute::parts::{ordered_parts, part_views, partition_by_letter};
use crate::precompute::walk::dedup_key;
use crate::server::referee::{is_solve_order, lists_unknown, order_by_size};
use crate::solver::memoized::solvable;
use crate::solver::partition::{is_partition, lemma_group, short_words};
use crate::solver::serving::serving_key;
use crate::solver::signature::idx_ok;
use crate::solver::tt::{cache_unpack, tt_value};

verus! {

/// How a simulated player chooses letters.
#[derive(Debug, Clone, Copy, PartialEq, Eq, Structural)]
pub enum Strategy {
    /// The lowest cost by the table.
    Optimal,
    /// The highest cost by the table.
    Adversarial,
    /// A letter by a random number.
    Random,
    /// The letter in the fewest remaining words.
    LeastCommon,
    /// The first letter of the alphabet that is left.
    First,
}

/// The strategy of a name.
pub open spec fn strategy_named(name: Seq<char>) -> Strategy {
    if name == "optimal"@ {
        Strategy::Optimal
    } else if name == "adversarial"@ {
        Strategy::Adversarial
    } else if name == "random"@ {
        Strategy::Random
    } else if name == "least-common"@ {
        Strategy::LeastCommon
    } else {
        Strategy::First
    }
}

/// The next number of a linear congruential generator.
pub open spec fn lcg(state: u64) -> u64 {
    state.wrapping_mul(6364136223846793005u64).wrapping_add(1442695040888963407u64)
}

/// Advance the generator; returns its new state.
pub fn lcg_next(state: &mut u64) -> (r: u64)
    ensures
        r == lcg(*old(state)),
        *final(state) == r,
{
    *state = state.wrapping_mul(6364136223846793005u64).wrapping_add(1442695040888963407u64);
    *state
}

/// The value that the table has for a position, whatever kind of bound it is.
pub open spec fn raw_known<D: Fn(u128) -> Option<u32>>(
    words: Seq<Vec<u8>>,
    idx: Seq<usize>,
    masked: u32,
    disk: D,
    v: Option<u32>,
) -> bool {
    exists|o: Option<u32>| #[trigger]
        disk.ensures((serving_key(words, idx, masked),), o) && v == match o {
            Some(packed) => Some(tt_value(packed)),
            None => None,
        }
}

/// Look up the value of a position, whatever kind of bound it is.
pub fn raw_value<D: Fn(u128) -> Option<u32>>(words: &[Vec<u8>], indices: &[usize], masked: LetterSet, disk: &D) -> (r: Option<u32>)
    requires
        solvable(words@),
        indices@.len() > 0,
        idx_ok(indices@, words@.len()),
        forall|key: u128| #[trigger] disk.requires((key,)),
    ensures
        raw_known(words@, indices@, masked, *disk, r),
        r matches Some(v) ==> v <= 31,
{
    let key: u128 = dedup_key(words, indices, masked);
    let o: Option<u32> = disk(key);
    assert(disk.ensures((serving_key(words@, indices@, masked),), o));
    match o {
        Some(packed) => {
            let (value, _letter, _bound) = cache_unpack(packed);
            Some(value)
        },
        None => None,
    }
}

/// `v` is what an answer counts for in a simulated turn: nothing where one word is
/// left, what the table has otherwise.
pub open spec fn turn_known<D: Fn(u128) -> Option<u32>>(
    words: Seq<Vec<u8>>,
    idx: Seq<usize>,
    masked: u32,
    disk: D,
    v: Option<u32>,
) -> bool {
    if idx.len() <= 1 {
        v == Some(0u32)
    } else {
        raw_known(words, idx, masked, disk, v)
    }
}

/// The values of the answers to a letter, as far as the table has them.
pub fn turn_values<D: Fn(u128) -> Option<u32>>(
    words: &[Vec<u8>],
    parts: &Vec<(u32, Vec<usize>)>,
    masked: LetterSet,
    disk: &D,
) -> (values: Vec<Option<u32>>)
    requires
        solvable(words@),
        forall|a: int| 0 <= a < parts@.len() ==> idx_ok((#[trigger] parts@[a]).1@, words@.len()),
        forall|key: u128| #[trigger] disk.requires((key,)),
    ensures
        values@.len() == parts@.len(),
        forall|a: int| 0 <= a < parts@.len() ==> turn_known(words@, (#[trigger] parts@[a]).1@, masked, *disk, values@[a]),
        forall|a: int| 0 <= a < values@.len() ==> ((#[trigger] values@[a]) matches Some(v) ==> v <= 31),
{
    let mut values: Vec<Option<u32>> = Vec::new();
    let mut i: usize = 0;
    while i < parts.len()
        invariant
            i <= parts@.len(),
            solvable(words@),
            forall|a: int| 0 <= a < parts@.len() ==> idx_ok((#[trigger] parts@[a]).1@, words@.len()),
            forall|key: u128| #[trigger] disk.requires((key,)),
            values@.len() == i,
            forall|a: int| 0 <= a < i ==> turn_known(words@, (#[trigger] parts@[a]).1@, masked, *disk, values@[a]),
            forall|a: int| 0 <= a < i ==> ((#[trigger] values@[a]) matches Some(v) ==> v <= 31),
        decreases parts@.len() - i,
    {
        assert(idx_ok(parts@[i as int].1@, words@.len()));
        if parts[i].1.len() <= 1 {
            values.push(Some(0));
        } else {
            let v = raw_value(words, parts[i].1.as_slice(), masked, disk);
            values.push(v);
        }
        i += 1;
    }
    values
}

/// The answers without a value, smaller ones first: the order in which a simulated
/// turn searches them.
pub fn turn_order(parts: &Vec<(u32, Vec<usize>)>, values: &[Option<u32>]) -> (out: Vec<usize>)
    requires
        values@.len() == parts@.len(),
    ensures
        exists|which: Seq<usize>| #[trigger] lists_unknown(values@, which) && is_solve_order(parts@, which, out@),
{
    let mut which: Vec<usize> = Vec::new();
    let mut i: usize = 0;
    while i < values.len()
        invariant
            i <= values@.len(),
            forall|s: int, t: int| 0 <= s < t < which@.len() ==> which@[s] < which@[t],
            forall|t: int| 0 <= t < which@.len() ==> #[trigger] which@[t] < i && values@[which@[t] as int] is None,
            forall|a: int| 0 <= a < i && (#[trigger] values@[a]) is None ==> which@.contains(a as usize),
        decreases values@.len() - i,
    {
        let ghost before = which@;
        if values[i].is_none() {
            which.push(i);
            assert(which@[which@.len() - 1] == i);
        }
        proof {
            assert forall|a: int| 0 <= a < i + 1 && (#[trigger] values@[a]) is None implies which@.contains(a as usize) by {
                if a < i {
                    let t = choose|t: int| 0 <= t < before.len() && before[t] == a as usize;
                    assert(which@[t] == a as usize);
                }
            }
        }
        i += 1;
    }
    assert(lists_unknown(values@, which@));
    order_by_size(parts, &which)
}

/// What a solved answer costs.
pub open spec fn turn_cost(part: (u32, Vec<usize>), v: u32) -> int {
    v + if part.0 == 0 {
        1int
    } else {
        0int
    }
}

/// `b` is the first of the solved answers that cost most, or the last of the largest
/// answers where none is solved.
pub open spec fn is_turn_answer(parts: Seq<(u32, Vec<usize>)>, values: Seq<Option<u32>>, b: int) -> bool {
    &&& 0 <= b < parts.len()
    &&& if exists|a: int| 0 <= a < parts.len() && (#[trigger] values[a]) is Some {
        &&& values[b] is Some
        &&& forall|a: int|
            0 <= a < parts.len() && (#[trigger] values[a]) is Some ==> turn_cost(parts[a], values[a]->0) <= turn_cost(
                parts[b],
                values[b]->0,
            )
        &&& forall|a: int|
            0 <= a < b && (#[trigger] values[a]) is Some ==> turn_cost(parts[a], values[a]->0) < turn_cost(parts[b], values[b]->0)
    } else {
        &&& forall|a: int| 0 <= a < parts.len() ==> (#[trigger] parts[a]).1@.len() <= parts[b].1@.len()
        &&& forall|a: int| b < a < parts.len() ==> (#[trigger] parts[a]).1@.len() < parts[b].1@.len()
    }
}

/// The place of the last of the largest parts.
pub fn last_largest(parts: &Vec<(u32, Vec<usize>)>) -> (b: usize)
    requires
        parts@.len() > 0,
    ensures
        b < parts@.len(),
        forall|a: int| 0 <= a < parts@.len() ==> (#[trigger] parts@[a]).1@.len() <= parts@[b as int].1@.len(),
        forall|a: int| b < a < parts@.len() ==> (#[trigger] parts@[a]).1@.len() < parts@[b as int].1@.len(),
{
    let mut largest: usize = 0;
    let mut j: usize = 1;
    while j < parts.len()
        invariant
            1 <= j <= parts@.len(),
            largest < j,
            forall|a: int| 0 <= a < j ==> (#[trigger] parts@[a]).1@.len() <= parts@[largest as int].1@.len(),
            forall|a: int| largest < a < j ==> (#[trigger] parts@[a]).1@.len() < parts@[largest as int].1@.len(),
        decreases parts@.len() - j,
    {
        if parts[j].1.len() >= parts[largest].1.len() {
            largest = j;
        }
        j += 1;
    }
    largest
}

/// The referee's answer in a simulated turn and what it costs; zero where no answer
/// is solved.
pub fn turn_answer(parts: &Vec<(u32, Vec<usize>)>, values: &[Option<u32>]) -> (r: (usize, u32))
    requires
        parts@.len() > 0,
        values@.len() == parts@.len(),
        forall|a: int| 0 <= a < values@.len() ==> ((#[trigger] values@[a]) matches Some(v) ==> v < u32::MAX),
    ensures
        is_turn_answer(parts@, values@, r.0 as int),
        r.1 == match values@[r.0 as int] {
            Some(v) => turn_cost(parts@[r.0 as int], v),
            None => 0,
        },
{
    let mut best: Option<usize> = None;
    let mut best_cost: u32 = 0;
    let mut i: usize = 0;
    while i < parts.len()
        invariant
            i <= parts@.len(),
            values@.len() == parts@.len(),
            forall|a: int| 0 <= a < values@.len() ==> ((#[trigger] values@[a]) matches Some(v) ==> v < u32::MAX),
            match best {
                None => best_cost == 0 && forall|a: int| 0 <= a < i ==> (#[trigger] values@[a]) is None,
                Some(b) => {
                    &&& b < i
                    &&& values@[b as int] is Some
                    &&& best_cost == turn_cost(parts@[b as int], values@[b as int]->0)
                    &&& forall|a: int|
                        0 <= a < i && (#[trigger] values@[a]) is Some ==> turn_cost(parts@[a], values@[a]->0) <= best_cost
                    &&& forall|a: int|
                        0 <= a < b && (#[trigger] values@[a]) is Some ==> turn_cost(parts@[a], values@[a]->0) < best_cost
                },
            },
        decreases parts@.len() - i,
    {
        assert(values@[i as int] matches Some(v) ==> v < u32::MAX);
        if let Some(v) = values[i] {
            let cost: u32 = v + (if parts[i].0 == 0 { 1 } else { 0 });
            if best.is_none() || cost > best_cost {
                best = Some(i);
                best_cost = cost;
            }
        }
        i += 1;
    }
    match best {
        Some(b) => (b, best_cost),
        None => {
            let largest: usize = last_largest(parts);
            assert(values@[largest as int] is None);
            (largest, 0)
        },
    }
}

/// The letters that have not been guessed, in order.
pub open spec fn lists_legal(masked: u32, legal: Seq<u8>) -> bool {
    &&& forall|s: int, t: int| 0 <= s < t < legal.len() ==> legal[s] < legal[t]
    &&& forall|t: int| 0 <= t < legal.len() ==> is_lower(#[trigger] legal[t]) && !holds(masked, legal[t])
    &&& forall|l: u8| is_lower(l) && !#[trigger] holds(masked, l) ==> legal.contains(l)
}

/// The letters that have not been guessed, in order.
pub fn legal_letters(masked: LetterSet) -> (legal: Vec<u8>)
    ensures
        lists_legal(masked, legal@),
{
    let mut legal: Vec<u8> = Vec::new();
    let mut l: u8 = 97;
    while l <= 122
        invariant
            97 <= l <= 123,
            forall|s: int, t: int| 0 <= s < t < legal@.len() ==> legal@[s] < legal@[t],
            forall|t: int| 0 <= t < legal@.len() ==> is_lower(#[trigger] legal@[t]) && legal@[t] < l && !holds(masked, legal@[t]),
            forall|c: u8| is_lower(c) && c < l && !#[trigger] holds(masked, c) ==> legal@.contains(c),
        decreases 123 - l,
    {
        proof {
            lemma_test_letter(masked, l);
        }
        let ghost before = legal@;
        if masked & letter_bit(l) == 0 {
            legal.push(l);
        }
        proof {
            assert forall|c: u8| is_lower(c) && c < l + 1 && !#[trigger] holds(masked, c) implies legal@.contains(c) by {
                if c < l {
                    let t = choose|t: int| 0 <= t < before.len() && before[t] == c;
                    assert(legal@[t] == c);
                } else {
                    assert(legal@[legal@.len() - 1] == c);
                }
            }
        }
        l += 1;
    }
    legal
}

/// How many of the first `n` words hold the letter.
pub open spec fn holders(words: Seq<Vec<u8>>, idx: Seq<usize>, l: u8, n: nat) -> nat
    decreases n,
{
    if n == 0 {
        0
    } else {
        holders(words, idx, l, (n - 1) as nat) + if occurs(l, words[idx[n - 1] as int]@) {
            1nat
        } else {
            0nat
        }
    }
}

fn count_holders(words: &[Vec<u8>], indices: &[usize], letter: u8) -> (r: usize)
    requires
        short_words(words@),
        idx_ok(indices@, words@.len()),
    ensures
        r == holders(words@, indices@, letter, indices@.len()),
{
    let mut n: usize = 0;
    let mut i: usize = 0;
    while i < indices.len()
        invariant
            i <= indices@.len(),
            n <= i,
            short_words(words@),
            idx_ok(indices@, words@.len()),
            n == holders(words@, indices@, letter, i as nat),
        decreases indices@.len() - i,
    {
        proof {
            lemma_mask_bits(words@[indices@[i as int] as int]@, letter);
        }
        if pos_mask(words[indices[i]].as_slice(), letter) != 0 {
            n += 1;
        }
        i += 1;
    }
    n
}

/// What counts for an answer when letters are compared: an unknown value counts
/// as 99, and an answer that leaves one word counts as nothing.
pub open spec fn rank_known<D: Fn(u128) -> Option<u32>>(
    words: Seq<Vec<u8>>,
    part: (u32, Seq<usize>),
    masked: u32,
    disk: D,
    v: int,
) -> bool {
    if part.1.len() <= 1 {
        v == 0
    } else {
        exists|o: Option<u32>| #[trigger]
            raw_known(words, part.1, masked, disk, o) && v == match o {
                Some(x) => x + if part.0 == 0 {
                    1int
                } else {
                    0int
                },
                None => 99,
            }
    }
}

/// `v` is the largest of these counts, which are what the answers count.
pub open spec fn is_rank<D: Fn(u128) -> Option<u32>>(
    words: Seq<Vec<u8>>,
    parts: Seq<(u32, Seq<usize>)>,
    masked: u32,
    disk: D,
    counts: Seq<int>,
    v: int,
) -> bool {
    &&& counts.len() == parts.len()
    &&& forall|a: int| 0 <= a < parts.len() ==> rank_known(words, parts[a], masked, disk, #[trigger] counts[a])
    &&& forall|a: int| 0 <= a < parts.len() ==> #[trigger] counts[a] <= v
    &&& v == 0 || counts.contains(v)
}

/// `v` is how a letter ranks by the table: the most that an answer counts.
pub open spec fn letter_rank<D: Fn(u128) -> Option<u32>>(words: Seq<Vec<u8>>, idx: Seq<usize>, masked: u32, disk: D, l: u8, v: int) -> bool {
    exists|counts: Seq<int>| #[trigger] is_rank(words, ordered_parts(words, idx, l), masked | bit_of(l), disk, counts, v)
}

/// How a letter ranks by the table.
pub fn rank_letter<D: Fn(u128) -> Option<u32>>(words: &[Vec<u8>], indices: &[usize], masked: LetterSet, letter: u8, disk: &D) -> (r: u32)
    requires
        solvable(words@),
        idx_ok(indices@, words@.len()),
        is_lower(letter),
        forall|key: u128| #[trigger] disk.requires((key,)),
    ensures
        letter_rank(words@, indices@, masked, *disk, letter, r as int),
{
    proof {
        assert forall|i: int| 0 <= i < words@.len() implies (#[trigger] words@[i])@.len() <= 32 by {}
    }
    let parts = partition_by_letter(words, indices, letter);
    let new_masked: LetterSet = masked | letter_bit(letter);
    let ghost views = part_views(parts@);
    let ghost mut counts: Seq<int> = Seq::empty();
    let mut worst: u32 = 0;
    let mut i: usize = 0;
    while i < parts.len()
        invariant
            i <= parts@.len(),
            solvable(words@),
            short_words(words@),
            idx_ok(indices@, words@.len()),
            is_partition(words@, indices@, letter, parts@),
            views == part_views(parts@),
            forall|key: u128| #[trigger] disk.requires((key,)),
            counts.len() == i,
            forall|a: int| 0 <= a < i ==> rank_known(words@, views[a], new_masked, *disk, #[trigger] counts[a]),
            forall|a: int| 0 <= a < i ==> #[trigger] counts[a] <= worst,
            worst == 0 || counts.contains(worst as int),
        decreases parts@.len() - i,
    {
        proof {
            lemma_group(words@, indices@, letter, parts@[i as int].0);
        }
        let mut count: u32 = 0;
        if parts[i].1.len() > 1 {
            let v = raw_value(words, parts[i].1.as_slice(), new_masked, disk);
            assert(raw_known(words@, views[i as int].1, new_masked, *disk, v));
            count = match v {
                Some(x) => x + (if parts[i].0 == 0 { 1 } else { 0 }),
                None => 99,
            };
        }
        let ghost before = counts;
        proof {
            counts = counts.push(count as int);
            if before.contains(worst as int) {
                let a = choose|a: int| 0 <= a < before.len() && before[a] == worst as int;
                assert(counts[a] == worst as int);
            }
            assert(counts[i as int] == count as int);
        }
        if count > worst {
            worst = count;
        }
        i += 1;
    }
    assert(is_rank(words@, ordered_parts(words@, indices@, letter), masked | bit_of(letter), *disk, counts, worst as int));
    worst
}

/// `b` is the first place of the smallest score, or of the largest.
pub open spec fn is_extreme(scores: Seq<u64>, smallest: bool, b: int) -> bool {
    &&& 0 <= b < scores.len()
    &&& forall|t: int|
        0 <= t < scores.len() ==> if smallest {
            scores[b] <= #[trigger] scores[t]
        } else {
            scores[b] >= scores[t]
        }
    &&& forall|t: int|
        0 <= t < b ==> if smallest {
            scores[b] < #[trigger] scores[t]
        } else {
            scores[b] > scores[t]
        }
}

fn first_extreme(scores: &Vec<u64>, smallest: bool) -> (b: usize)
    requires
        scores@.len() > 0,
    ensures
        is_extreme(scores@, smallest, b as int),
{
    let mut best: usize = 0;
    let mut i: usize = 1;
    while i < scores.len()
        invariant
            1 <= i <= scores@.len(),
            best < i,
            is_extreme(scores@.take(i as int), smallest, best as int),
        decreases scores@.len() - i,
    {
        let ghost shorter = scores@.take(i as int);
        let take: bool = if smallest {
            scores[i] < scores[best]
        } else {
            scores[i] > scores[best]
        };
        proof {
            let longer = scores@.take(i + 1);
            assert forall|t: int| 0 <= t < i implies longer[t] == #[trigger] shorter[t] by {}
            assert(shorter[best as int] == scores@[best as int]);
        }
        if take {
            best = i;
        }
        i += 1;
    }
    assert(scores@.take(i as int) =~= scores@);
    best
}

/// The strategy looks for the smallest score.
pub open spec fn wants_smallest(strategy: Strategy) -> bool {
    strategy != Strategy::Adversarial
}

/// `score` is what the strategy goes by for a letter.
pub open spec fn scored<D: Fn(u128) -> Option<u32>>(
    strategy: Strategy,
    words: Seq<Vec<u8>>,
    idx: Seq<usize>,
    masked: u32,
    disk: D,
    l: u8,
    score: u64,
) -> bool {
    if strategy == Strategy::LeastCommon {
        score == holders(words, idx, l, idx.len())
    } else {
        letter_rank(words, idx, masked, disk, l, score as int)
    }
}

/// The letter is one that the strategy takes, `number` being the next random number.
pub open spec fn is_pick<D: Fn(u128) -> Option<u32>>(
    strategy: Strategy,
    words: Seq<Vec<u8>>,
    idx: Seq<usize>,
    masked: u32,
    disk: D,
    number: u64,
    legal: Seq<u8>,
    r: u8,
) -> bool {
    if legal.len() == 0 {
        r == 97
    } else {
        match strategy {
            Strategy::First => r == legal[0],
            Strategy::Random => r == legal[(number as usize) as int % legal.len() as int],
            _ => exists|scores: Seq<u64>, b: int| #[trigger]
                is_extreme(scores, wants_smallest(strategy), b) && scores.len() == legal.len() && r == legal[b] && forall|t: int|
                    0 <= t < legal.len() ==> scored(strategy, words, idx, masked, disk, legal[t], #[trigger] scores[t]),
        }
    }
}

/// Pick a letter. The generator is advanced only where the strategy is random and a
/// letter is left.
pub fn pick_letter<D: Fn(u128) -> Option<u32>>(
    strategy: Strategy,
    words: &[Vec<u8>],
    indices: &[usize],
    masked: LetterSet,
    disk: &D,
    rng: &mut u64,
) -> (r: u8)
    requires
        solvable(words@),
        idx_ok(indices@, words@.len()),
        forall|key: u128| #[trigger] disk.requires((key,)),
    ensures
        exists|legal: Seq<u8>| #[trigger]
            lists_legal(masked, legal) && is_pick(strategy, words@, indices@, masked, *disk, lcg(*old(rng)), legal, r) && *final(rng)
                == if strategy == Strategy::Random && legal.len() > 0 {
                lcg(*old(rng))
            } else {
                *old(rng)
            },
{
    let legal = legal_letters(masked);
    assert(lists_legal(masked, legal@));
    let n: usize = legal.len();
    if n == 0 {
        return 97;
    }
    match strategy {
        Strategy::First => legal[0],
        Strategy::Random => {
            let number: u64 = lcg_next(rng);
            let at: usize = (number as usize) % n;
            legal[at]
        },
        _ => {
            proof {
                assert forall|i: int| 0 <= i < words@.len() implies (#[trigger] words@[i])@.len() <= 32 by {}
            }
            let mut scores: Vec<u64> = Vec::new();
            let mut t: usize = 0;
            while t < n
                invariant
                    t <= n,
                    n == legal@.len(),
                    lists_legal(masked, legal@),
                    solvable(words@),
                    short_words(words@),
                    idx_ok(indices@, words@.len()),
                    forall|key: u128| #[trigger] disk.requires((key,)),
                    scores@.len() == t,
                    forall|u: int|
                        0 <= u < t ==> scored(strategy, words@, indices@, masked, *disk, legal@[u], #[trigger] scores@[u]),
                decreases n - t,
            {
                let letter: u8 = legal[t];
                assert(is_lower(legal@[t as int]));
                let score: u64 = match strategy {
                    Strategy::LeastCommon => count_holders(words, indices, letter) as u64,
                    _ => rank_letter(words, indices, masked, letter, disk) as u64,
                };
                scores.push(score);
                t += 1;
            }
            let smallest: bool = match strategy {
                Strategy::Adversarial => false,
                _ => true,
            };
            let b: usize = first_extreme(&scores, smallest);
            assert(is_extreme(scores@, wants_smallest(strategy), b as int));
            legal[b]
        },
    }
}

/// The strategy of a name; any other name stands for the first letter.
pub fn parse_strategy(name: &str) -> (r: Strategy)
    ensures
        r == strategy_named(name@),
{
    if same_text(name, "optimal") {
        Strategy::Optimal
    } else if same_text(name, "adversarial") {
        Strategy::Adversarial
    } else if same_text(name, "random") {
        Strategy::Random
    } else if same_text(name, "least-common") {
        Strategy::LeastCommon
    } else {
        Strategy::First
    }
}

fn same_text(a: &str, b: &str) -> (r: bool)
    ensures
        r == (a@ == b@),
{
    let n: usize = a.unicode_len();
    if n != b.unicode_len() {
        return false;
    }
    let mut i: usize = 0;
    while i < n
        invariant
            i <= n,
            n == a@.len(),
            n == b@.len(),
            forall|j: int| 0 <= j < i ==> a@[j] == b@[j],
        decreases n - i,
    {
        if a.get_char(i) != b.get_char(i) {
            return false;
        }
        i += 1;
    }
    assert(a@ =~= b@);
    true
}

} // verus!
