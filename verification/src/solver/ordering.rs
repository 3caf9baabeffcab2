//! Which letters a search tries, and in what order.
use vstd::prelude::*;

use crate::game::letters::{holds, is_lower, lemma_test_letter, letter_bit, letters, place_mask, LetterSet};
use crate::game::rules::is_open;
use crate::seqs::lemma_filter;
use crate::solver::data::SolverData;
use crate::solver::partition::{group, has_part};
use crate::solver::signature::{chosen, idx_ok};
use crate::sorting::{before, perm_of, sorted_order};

verus! {

/// The size of the largest part among the answers of the first `n` words to
/// letter `l`.
pub open spec fn largest_upto(words: Seq<Vec<u8>>, idx: Seq<usize>, l: u8, n: nat) -> nat
    decreases n,
{
    if n == 0 {
        0
    } else {
        let here = group(words, idx, l, place_mask(words[idx[n - 1] as int]@, l)).len();
        let before = largest_upto(words, idx, l, (n - 1) as nat);
        if here > before {
            here
        } else {
            before
        }
    }
}

/// The size of the largest part that letter `l` can leave.
pub open spec fn largest(words: Seq<Vec<u8>>, idx: Seq<usize>, l: u8) -> nat {
    largest_upto(words, idx, l, idx.len())
}

proof fn lemma_largest_upto(words: Seq<Vec<u8>>, idx: Seq<usize>, l: u8, n: nat)
    requires
        n <= idx.len(),
    ensures
        forall|t: int| 0 <= t < n ==> group(words, idx, l, place_mask(words[#[trigger] idx[t] as int]@, l)).len() <= largest_upto(words, idx, l, n),
        n > 0 ==> exists|t: int| 0 <= t < n && group(words, idx, l, place_mask(words[#[trigger] idx[t] as int]@, l)).len() == largest_upto(words, idx, l, n),
    decreases n,
{
    if n > 0 {
        lemma_largest_upto(words, idx, l, (n - 1) as nat);
        assert(group(words, idx, l, place_mask(words[idx[n - 1] as int]@, l)).len() >= 0);
    }
}

/// Letter `a` comes before `b` or ties with it: a larger history score first,
/// then a smaller frequency rank.
pub open spec fn rank_le(history: Seq<u32>, rank: Seq<u8>, a: u8, b: u8) -> bool {
    if history[a - 97] != history[b - 97] {
        history[a - 97] > history[b - 97]
    } else {
        rank[a - 97] <= rank[b - 97]
    }
}

/// Letter `a` comes before `b` or ties with it when both are scored by the
/// largest part that they leave.
pub open spec fn score_le(
    words: Seq<Vec<u8>>,
    idx: Seq<usize>,
    history: Seq<u32>,
    rank: Seq<u8>,
    a: u8,
    b: u8,
) -> bool {
    if largest(words, idx, a) != largest(words, idx, b) {
        largest(words, idx, a) < largest(words, idx, b)
    } else {
        rank_le(history, rank, a, b)
    }
}

/// How many of `n` letters are scored for a position of `size` words.
pub open spec fn scored_count(n: nat, size: nat) -> nat {
    if n <= 6 {
        0
    } else if n * size < 50_000 {
        n
    } else {
        8
    }
}

/// The letters stand in the order in which a search tries them: those that are
/// scored by their largest part, then the others by history and frequency.
pub open spec fn search_order(
    words: Seq<Vec<u8>>,
    idx: Seq<usize>,
    history: Seq<u32>,
    rank: Seq<u8>,
    r: Seq<u8>,
) -> bool {
    let n = scored_count(r.len(), idx.len());
    forall|t: int, u: int|
        0 <= t < u < r.len() ==> if u < n {
            score_le(words, idx, history, rank, #[trigger] r[t], #[trigger] r[u])
        } else {
            rank_le(history, rank, r[t], r[u])
        }
}

/// `r` lists the letters of the set `m`, each once.
pub open spec fn lists_letters(r: Seq<u8>, m: u32) -> bool {
    &&& r.no_duplicates()
    &&& forall|l: u8| #[trigger] r.contains(l) == holds(m, l)
}

/// The letters of a set in alphabetical order.
fn letters_in(m: LetterSet) -> (r: Vec<u8>)
    ensures
        lists_letters(r@, m),
        r@.len() <= 26,
        forall|t: int| 0 <= t < r@.len() ==> is_lower(#[trigger] r@[t]),
{
    let mut r: Vec<u8> = Vec::new();
    let mut li: u8 = 0;
    while li < 26
        invariant
            li <= 26,
            r@.len() <= li,
            forall|t: int| 0 <= t < r@.len() ==> is_lower(#[trigger] r@[t]) && r@[t] < 97 + li,
            forall|t: int, u: int| 0 <= t < u < r@.len() ==> #[trigger] r@[t] < #[trigger] r@[u],
            forall|l: u8| #[trigger] r@.contains(l) == (l < 97 + li && holds(m, l)),
        decreases 26 - li,
    {
        let letter: u8 = 97 + li;
        let ghost before = r@;
        proof {
            lemma_test_letter(m, letter);
        }
        if m & letter_bit(letter) != 0 {
            r.push(letter);
        }
        proof {
            assert forall|l: u8| #[trigger] r@.contains(l) == (l < 97 + li + 1 && holds(m, l)) by {
                assert(before.contains(l) == (l < 97 + li && holds(m, l)));
                if before.contains(l) {
                    let t = choose|t: int| 0 <= t < before.len() && before[t] == l;
                    assert(r@[t] == l);
                }
                if r@.contains(l) {
                    let t = choose|t: int| 0 <= t < r@.len() && r@[t] == l;
                    if t < before.len() {
                        assert(before[t] == l);
                    }
                }
                if holds(m, letter) {
                    assert(r@[r@.len() - 1] == letter);
                }
            }
        }
        li += 1;
    }
    r
}

/// Members of a reordered list.
proof fn lemma_pick(c: Seq<u8>, o: Seq<usize>, r: Seq<u8>)
    requires
        c.no_duplicates(),
        c.len() <= usize::MAX,
        perm_of(o, 0, c.len() as int),
        r.len() == c.len(),
        forall|t: int| 0 <= t < r.len() ==> #[trigger] r[t] == c[o[t] as int],
    ensures
        r.no_duplicates(),
        forall|l: u8| #[trigger] r.contains(l) == c.contains(l),
{
    assert forall|t: int, u: int| 0 <= t < r.len() && 0 <= u < r.len() && t != u implies r[t] != r[u] by {
        assert(o[t] != o[u]);
    }
    assert forall|l: u8| #[trigger] r.contains(l) == c.contains(l) by {
        if r.contains(l) {
            let t = choose|t: int| 0 <= t < r.len() && r[t] == l;
            assert(c[o[t] as int] == l);
        }
        if c.contains(l) {
            let i = choose|i: int| 0 <= i < c.len() && c[i] == l;
            assert(o.contains(i as usize));
            let t = choose|t: int| 0 <= t < o.len() && o[t] == i as usize;
            assert(r[t] == l);
        }
    }
}

/// The letters in the given order.
fn pick(c: &Vec<u8>, o: &Vec<usize>) -> (r: Vec<u8>)
    requires
        perm_of(o@, 0, c@.len() as int),
    ensures
        r@.len() == c@.len(),
        forall|t: int| 0 <= t < r@.len() ==> #[trigger] r@[t] == c@[o@[t] as int],
{
    let mut r: Vec<u8> = Vec::new();
    let mut i: usize = 0;
    while i < o.len()
        invariant
            i <= o@.len(),
            perm_of(o@, 0, c@.len() as int),
            r@.len() == i,
            forall|t: int| 0 <= t < i ==> #[trigger] r@[t] == c@[o@[t] as int],
        decreases o@.len() - i,
    {
        r.push(c[o[i]]);
        i += 1;
    }
    r
}

impl SolverData {
    /// The size of the largest part that `letter` can leave.
    fn largest_part(
        &self,
        Ghost(words): Ghost<Seq<Vec<u8>>>,
        Ghost(k): Ghost<nat>,
        indices: &[usize],
        letter: u8,
    ) -> (r: usize)
        requires
            self.wf(words, k),
            idx_ok(indices@, words.len()),
            is_lower(letter),
        ensures
            r == largest(words, indices@, letter),
    {
        let parts = self.partition(Ghost(words), Ghost(k), indices, letter);
        let ghost idx = indices@;
        let mut max: usize = 0;
        let mut a: usize = 0;
        while a < parts.len()
            invariant
                a <= parts@.len(),
                forall|b: int| 0 <= b < a ==> (#[trigger] parts@[b]).1@.len() <= max,
                a > 0 ==> exists|b: int| 0 <= b < a && (#[trigger] parts@[b]).1@.len() == max,
                a == 0 ==> max == 0,
            decreases parts@.len() - a,
        {
            let n: usize = parts[a].1.len();
            if n > max {
                max = n;
                assert(parts@[a as int].1@.len() == max);
            }
            a += 1;
        }
        proof {
            let n = idx.len();
            lemma_largest_upto(words, idx, letter, n);
            if n > 0 {
                let t = choose|t: int| 0 <= t < n && group(words, idx, letter, place_mask(words[#[trigger] idx[t] as int]@, letter)).len() == largest(words, idx, letter);
                assert(has_part(parts@, place_mask(words[idx[t] as int]@, letter)));
            }
            if parts@.len() > 0 {
                let b = choose|b: int| 0 <= b < parts@.len() && (#[trigger] parts@[b]).1@.len() == max;
                lemma_filter(idx, |i: usize| place_mask(words[i as int]@, letter) == parts@[b].0);
                assert(parts@[b].1@.len() > 0);
                let first = parts@[b].1@[0];
                assert(idx.contains(first));
                let u = choose|u: int| 0 <= u < idx.len() && idx[u] == first;
                assert(group(words, idx, letter, place_mask(words[idx[u] as int]@, letter)).len() == max);
            }
        }
        max
    }

    /// The candidates by the largest part that they leave, smallest first, ties in
    /// alphabetical order.
    pub(crate) fn letters_by_largest(
        &self,
        Ghost(words): Ghost<Seq<Vec<u8>>>,
        Ghost(k): Ghost<nat>,
        indices: &[usize],
        candidates: LetterSet,
    ) -> (r: Vec<u8>)
        requires
            self.wf(words, k),
            idx_ok(indices@, words.len()),
        ensures
            lists_letters(r@, candidates),
            forall|t: int| 0 <= t < r@.len() ==> is_lower(#[trigger] r@[t]),
            forall|t: int, u: int|
                0 <= t < u < r@.len() ==> largest(words, indices@, #[trigger] r@[t]) <= largest(words, indices@, #[trigger] r@[u]),
    {
        let c = letters_in(candidates);
        let n: usize = c.len();
        let mut scores: Vec<usize> = Vec::new();
        let mut i: usize = 0;
        while i < n
            invariant
                i <= n,
                n == c@.len(),
                self.wf(words, k),
                idx_ok(indices@, words.len()),
                forall|t: int| 0 <= t < c@.len() ==> is_lower(#[trigger] c@[t]),
                scores@.len() == i,
                forall|t: int| 0 <= t < i ==> #[trigger] scores@[t] == largest(words, indices@, c@[t]),
            decreases n - i,
        {
            scores.push(self.largest_part(Ghost(words), Ghost(k), indices, c[i]));
            i += 1;
        }
        let ghost leq = |x: int, y: int| scores@[x] <= scores@[y];
        let le = |x: usize, y: usize| -> (r: bool)
            requires
                x < n,
                y < n,
                scores@.len() == n,
            ensures
                r == (scores@[x as int] <= scores@[y as int]),
            { scores[x] <= scores[y] };
        let order = sorted_order(n, &le, Ghost(leq));
        let r = pick(&c, &order);
        proof {
            lemma_pick(c@, order@, r@);
            assert forall|t: int, u: int| 0 <= t < u < r@.len() implies largest(words, indices@, #[trigger] r@[t])
                <= largest(words, indices@, #[trigger] r@[u]) by {
                assert(before(leq, order@[t] as int, order@[u] as int));
            }
            assert forall|t: int| 0 <= t < r@.len() implies is_lower(#[trigger] r@[t]) by {
                assert(is_lower(c@[order@[t] as int]));
            }
        }
        r
    }

    /// The candidates by falling history score, ties by frequency rank.
    fn ranked_letters(&self, Ghost(words): Ghost<Seq<Vec<u8>>>, Ghost(k): Ghost<nat>, candidates: LetterSet, history: &Vec<u32>) -> (r: Vec<u8>)
        requires
            self.wf(words, k),
            history@.len() == 26,
        ensures
            lists_letters(r@, candidates),
            r@.len() <= 26,
            forall|t: int| 0 <= t < r@.len() ==> is_lower(#[trigger] r@[t]),
            forall|t: int, u: int| 0 <= t < u < r@.len() ==> rank_le(history@, self.freq_rank@, #[trigger] r@[t], #[trigger] r@[u]),
    {
        let c = letters_in(candidates);
        let n: usize = c.len();
        let rank = &self.freq_rank;
        let ghost leq = |x: int, y: int| rank_le(history@, rank@, c@[x], c@[y]);
        let le = |x: usize, y: usize| -> (r: bool)
            requires
                x < n,
                y < n,
                n == c@.len(),
                history@.len() == 26,
                rank@.len() == 26,
                forall|t: int| 0 <= t < c@.len() ==> is_lower(#[trigger] c@[t]),
            ensures
                r == rank_le(history@, rank@, c@[x as int], c@[y as int]),
            {
                let a: usize = (c[x] - 97) as usize;
                let b: usize = (c[y] - 97) as usize;
                if history[a] != history[b] {
                    history[a] > history[b]
                } else {
                    rank[a] <= rank[b]
                }
            };
        let order = sorted_order(n, &le, Ghost(leq));
        let r = pick(&c, &order);
        proof {
            lemma_pick(c@, order@, r@);
            assert forall|t: int, u: int| 0 <= t < u < r@.len() implies rank_le(history@, self.freq_rank@, #[trigger] r@[t], #[trigger] r@[u]) by {
                assert(before(leq, order@[t] as int, order@[u] as int));
            }
            assert forall|t: int| 0 <= t < r@.len() implies is_lower(#[trigger] r@[t]) by {
                assert(is_lower(c@[order@[t] as int]));
            }
        }
        r
    }

    /// The letters to evaluate, in the order in which to try them: the required
    /// letters that split the words where there are any, else every open letter.
    /// The first letters by history are scored by the largest part that they
    /// leave, smallest first; the rest follow by history.
    pub(crate) fn select_letters(
        &self,
        Ghost(words): Ghost<Seq<Vec<u8>>>,
        Ghost(k): Ghost<nat>,
        indices: &[usize],
        masked: LetterSet,
        required_splitting: LetterSet,
        history: &Vec<u32>,
    ) -> (r: Vec<u8>)
        requires
            self.wf(words, k),
            idx_ok(indices@, words.len()),
            history@.len() == 26,
        ensures
            required_splitting != 0 ==> lists_letters(r@, required_splitting),
            required_splitting == 0 ==> r@.no_duplicates(),
            required_splitting == 0 ==> forall|l: u8|
                #![trigger r@.contains(l)]
                #![trigger is_open(chosen(words, indices@), letters(masked), l)]
                r@.contains(l) == is_open(chosen(words, indices@), letters(masked), l),
            forall|t: int| 0 <= t < r@.len() ==> is_lower(#[trigger] r@[t]),
            search_order(words, indices@, history@, self.freq_rank@, r@),
    {
        let candidates: LetterSet = if required_splitting != 0 {
            required_splitting
        } else {
            self.present_letters(Ghost(words), Ghost(k), indices, masked)
        };
        let ranked = self.ranked_letters(Ghost(words), Ghost(k), candidates, history);
        let n: usize = ranked.len();
        if n <= 6 {
            return ranked;
        }
        let size: usize = indices.len();
        proof {
            assert(n as u128 * size as u128 <= 26 * 0xffff_ffff_ffff_ffff) by (nonlinear_arith)
                requires
                    n <= 26,
                    size <= 0xffff_ffff_ffff_ffff,
            ;
        }
        let score_all: bool = (n as u128) * (size as u128) < 50_000;
        let batch: usize = if score_all {
            n
        } else if n < 8 {
            n
        } else {
            8
        };
        let mut scores: Vec<usize> = Vec::new();
        let mut i: usize = 0;
        while i < batch
            invariant
                i <= batch <= n,
                n == ranked@.len(),
                self.wf(words, k),
                idx_ok(indices@, words.len()),
                forall|t: int| 0 <= t < ranked@.len() ==> is_lower(#[trigger] ranked@[t]),
                scores@.len() == i,
                forall|t: int| 0 <= t < i ==> #[trigger] scores@[t] == largest(words, indices@, ranked@[t]),
            decreases batch - i,
        {
            scores.push(self.largest_part(Ghost(words), Ghost(k), indices, ranked[i]));
            i += 1;
        }
        let ghost leq = |x: int, y: int| scores@[x] <= scores@[y];
        let le = |x: usize, y: usize| -> (r: bool)
            requires
                x < batch,
                y < batch,
                scores@.len() == batch,
            ensures
                r == (scores@[x as int] <= scores@[y as int]),
            { scores[x] <= scores[y] };
        let order = sorted_order(batch, &le, Ghost(leq));
        let mut full: Vec<usize> = order.clone();
        assert(full@ =~= order@);
        let mut j: usize = batch;
        while j < n
            invariant
                batch <= j <= n,
                full@.len() == j,
                perm_of(order@, 0, batch as int),
                forall|t: int| 0 <= t < batch ==> #[trigger] full@[t] == order@[t],
                forall|t: int| batch <= t < j ==> #[trigger] full@[t] == t,
            decreases n - j,
        {
            full.push(j);
            j += 1;
        }
        proof {
            assert forall|x: usize| 0 <= x < n implies #[trigger] full@.contains(x) by {
                if x < batch {
                    assert(order@.contains(x));
                    let t = choose|t: int| 0 <= t < order@.len() && order@[t] == x;
                    assert(full@[t] == x);
                } else {
                    assert(full@[x as int] == x);
                }
            }
            assert forall|t: int, u: int| 0 <= t < u < full@.len() implies #[trigger] full@[t] != #[trigger] full@[u] by {
                if u < batch {
                    assert(order@[t] != order@[u]);
                } else if t < batch {
                    assert(order@[t] < batch);
                }
            }
            assert forall|t: int| 0 <= t < full@.len() implies 0 <= #[trigger] full@[t] < n by {
                if t < batch {
                    assert(order@[t] < batch);
                }
            }
        }
        let r = pick(&ranked, &full);
        proof {
            lemma_pick(ranked@, full@, r@);
            assert forall|t: int| 0 <= t < r@.len() implies is_lower(#[trigger] r@[t]) by {
                assert(is_lower(ranked@[full@[t] as int]));
            }
            assert(n * size == n as u128 * size as u128);
            assert forall|t: int, u: int| 0 <= t < u < r@.len() implies if u < scored_count(r@.len(), indices@.len()) {
                score_le(words, indices@, history@, self.freq_rank@, #[trigger] r@[t], #[trigger] r@[u])
            } else {
                rank_le(history@, self.freq_rank@, r@[t], r@[u])
            } by {
                if u < batch {
                    assert(before(leq, order@[t] as int, order@[u] as int));
                    assert(full@[t] == order@[t] && full@[u] == order@[u]);
                    assert(order@[t] < batch && order@[u] < batch);
                    assert(scores@[order@[t] as int] <= scores@[order@[u] as int]);
                    if scores@[order@[t] as int] == scores@[order@[u] as int] {
                        assert(order@[t] < order@[u]);
                        assert(rank_le(history@, self.freq_rank@, ranked@[order@[t] as int], ranked@[order@[u] as int]));
                    }
                } else {
                    assert(full@[u] == u);
                    if t < batch {
                        assert(full@[t] == order@[t] && order@[t] < batch);
                    }
                    assert(full@[t] < full@[u]);
                    assert(rank_le(history@, self.freq_rank@, ranked@[full@[t] as int], ranked@[full@[u] as int]));
                }
            }
        }
        r
    }
}

/// Brings `letter` to the front of the list, keeping the others in order; a
/// letter that is not in the list changes nothing.
pub(crate) fn move_to_front(list: Vec<u8>, letter: u8) -> (r: Vec<u8>)
    requires
        list@.no_duplicates(),
    ensures
        r@.no_duplicates(),
        forall|l: u8| #[trigger] r@.contains(l) == list@.contains(l),
        r@.len() == list@.len(),
        list@.contains(letter) ==> r@ == seq![letter] + list@.remove(list@.index_of(letter)),
        !list@.contains(letter) ==> r@ == list@,
{
    let mut pos: usize = 0;
    while pos < list.len() && list[pos] != letter
        invariant
            pos <= list@.len(),
            forall|t: int| 0 <= t < pos ==> list@[t] != letter,
        decreases list@.len() - pos,
    {
        pos += 1;
    }
    if pos == list.len() {
        return list;
    }
    let mut r: Vec<u8> = Vec::new();
    r.push(letter);
    let mut i: usize = 0;
    while i < list.len()
        invariant
            i <= list@.len(),
            pos < list@.len(),
            list@[pos as int] == letter,
            r@ == seq![letter] + (if i <= pos { list@.take(i as int) } else { list@.take(i as int).remove(pos as int) }),
        decreases list@.len() - i,
    {
        let ghost before = r@;
        if i != pos {
            r.push(list[i]);
        }
        proof {
            if i < pos {
                assert(r@ =~= seq![letter] + list@.take(i + 1));
            } else if i == pos {
                assert(list@.take(i + 1).remove(pos as int) =~= list@.take(i as int));
            } else {
                assert(r@ =~= seq![letter] + list@.take(i + 1).remove(pos as int));
            }
        }
        i += 1;
    }
    proof {
        assert(list@.take(i as int) =~= list@);
        assert(list@.contains(letter)) by {
            assert(list@[pos as int] == letter);
        }
        assert(list@.index_of(letter) == pos);
        let rest = list@.remove(pos as int);
        assert(r@ =~= seq![letter] + rest);
        assert forall|l: u8| #[trigger] r@.contains(l) == list@.contains(l) by {
            if r@.contains(l) {
                let t = choose|t: int| 0 <= t < r@.len() && r@[t] == l;
                if t > 0 {
                    let u = if t - 1 < pos { t - 1 } else { t };
                    assert(list@[u] == l);
                }
            }
            if list@.contains(l) {
                let u = choose|u: int| 0 <= u < list@.len() && list@[u] == l;
                let t = if u == pos { 0int } else if u < pos { u + 1 } else { u };
                assert(r@[t] == l);
            }
        }
    }
    r
}

} // verus!
