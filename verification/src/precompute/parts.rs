//! The answers to a letter in an order that does not depend on the machine.
use vstd::prelude::*;

use crate::game::letters::place_mask;
use crate::solver::partition::{
    group, has_part, is_partition, lemma_group, lemma_reordered, partition, short_words, take_in_order,
};
use crate::solver::signature::idx_ok;
use crate::sorting::{before, sorted_order};

verus! {

/// A larger part comes before a smaller one; of two parts of one size the one with
/// the lower mask comes first.
pub open spec fn part_before(a: (u32, Seq<usize>), b: (u32, Seq<usize>)) -> bool {
    a.1.len() > b.1.len() || a.1.len() == b.1.len() && a.0 < b.0
}

/// `p` lists the answers to `l` with the words that give them, in order.
pub open spec fn is_ordered_parts(words: Seq<Vec<u8>>, idx: Seq<usize>, l: u8, p: Seq<(u32, Seq<usize>)>) -> bool {
    &&& forall|a: int| 0 <= a < p.len() ==> (#[trigger] p[a]).1 == group(words, idx, l, p[a].0) && p[a].1.len() > 0
    &&& forall|a: int, b: int| 0 <= a < b < p.len() ==> part_before(#[trigger] p[a], #[trigger] p[b])
    &&& forall|m: u32| (#[trigger] group(words, idx, l, m)).len() > 0 ==> p.contains((m, group(words, idx, l, m)))
}

/// The answers to a letter, in order.
pub open spec fn ordered_parts(words: Seq<Vec<u8>>, idx: Seq<usize>, l: u8) -> Seq<(u32, Seq<usize>)> {
    choose|p: Seq<(u32, Seq<usize>)>| is_ordered_parts(words, idx, l, p)
}

/// The parts with their words as sequences.
pub open spec fn part_views(parts: Seq<(u32, Vec<usize>)>) -> Seq<(u32, Seq<usize>)> {
    Seq::new(parts.len(), |a: int| (parts[a].0, parts[a].1@))
}

proof fn lemma_same_upto(words: Seq<Vec<u8>>, idx: Seq<usize>, l: u8, p: Seq<(u32, Seq<usize>)>, q: Seq<(u32, Seq<usize>)>, n: nat)
    requires
        is_ordered_parts(words, idx, l, p),
        is_ordered_parts(words, idx, l, q),
        n <= p.len(),
    ensures
        n <= q.len(),
        forall|i: int| 0 <= i < n ==> p[i] == q[i],
    decreases n,
{
    if n > 0 {
        let i = n - 1;
        lemma_same_upto(words, idx, l, p, q, i as nat);
        assert(group(words, idx, l, p[i].0).len() > 0);
        let j = choose|j: int| 0 <= j < q.len() && q[j] == p[i];
        if j < i {
            assert(p[j] == q[j]);
            assert(part_before(p[j], p[i]));
        }
        assert(i < q.len());
        assert(group(words, idx, l, q[i].0).len() > 0);
        let k = choose|k: int| 0 <= k < p.len() && p[k] == q[i];
        if k < i {
            assert(p[k] == q[k]);
            assert(part_before(q[k], q[i]));
        }
        if j > i && k > i {
            assert(part_before(q[i], q[j]));
            assert(part_before(p[i], p[k]));
        }
    }
}

/// There is only one ordered list of answers.
pub proof fn lemma_ordered_parts_unique(
    words: Seq<Vec<u8>>,
    idx: Seq<usize>,
    l: u8,
    p: Seq<(u32, Seq<usize>)>,
    q: Seq<(u32, Seq<usize>)>,
)
    requires
        is_ordered_parts(words, idx, l, p),
        is_ordered_parts(words, idx, l, q),
    ensures
        p == q,
{
    lemma_same_upto(words, idx, l, p, q, p.len());
    lemma_same_upto(words, idx, l, q, p, q.len());
    assert(p =~= q);
}

/// Partition word indices by the places of a letter: larger parts first, parts of
/// one size by their places.
pub fn partition_by_letter(words: &[Vec<u8>], indices: &[usize], letter: u8) -> (parts: Vec<(u32, Vec<usize>)>)
    requires
        short_words(words@),
        idx_ok(indices@, words@.len()),
    ensures
        is_partition(words@, indices@, letter, parts@),
        is_ordered_parts(words@, indices@, letter, part_views(parts@)),
        part_views(parts@) == ordered_parts(words@, indices@, letter),
{
    let parts = partition(words, indices, letter);
    let n: usize = parts.len();
    let ghost first = parts@;
    let ghost leq = |x: int, y: int| !part_before((first[y].0, first[y].1@), (first[x].0, first[x].1@));
    let le = |x: usize, y: usize| -> (r: bool)
        requires
            x < n,
            y < n,
            n == parts@.len(),
        ensures
            r == !part_before((parts@[y as int].0, parts@[y as int].1@), (parts@[x as int].0, parts@[x as int].1@)),
        {
            let a: usize = parts[y].1.len();
            let b: usize = parts[x].1.len();
            !(a > b || a == b && parts[y].0 < parts[x].0)
        };
    let order = sorted_order(n, &le, Ghost(leq));
    let out = take_in_order(parts, &order);
    proof {
        lemma_reordered(words@, indices@, letter, first, out@);
        let p = part_views(out@);
        assert forall|a: int, b: int| 0 <= a < b < p.len() implies part_before(#[trigger] p[a], #[trigger] p[b]) by {
            assert(before(leq, order@[a] as int, order@[b] as int));
            assert(out@[a].0 != out@[b].0);
        }
        assert forall|m: u32| (#[trigger] group(words@, indices@, letter, m)).len() > 0 implies p.contains(
            (m, group(words@, indices@, letter, m)),
        ) by {
            let g = group(words@, indices@, letter, m);
            lemma_group(words@, indices@, letter, m);
            assert(g.contains(g[0]));
            let t = choose|t: int| 0 <= t < indices@.len() && indices@[t] == g[0];
            assert(has_part(out@, place_mask(words@[indices@[t] as int]@, letter)));
            let a = choose|a: int| 0 <= a < out@.len() && (#[trigger] out@[a]).0 == m;
            assert(p[a] == (m, g));
        }
        assert forall|a: int| 0 <= a < p.len() implies (#[trigger] p[a]).1 == group(words@, indices@, letter, p[a].0) && p[a].1.len() > 0 by {
            assert(out@[a].1@.len() > 0);
        }
        assert(is_ordered_parts(words@, indices@, letter, p));
        lemma_ordered_parts_unique(words@, indices@, letter, p, ordered_parts(words@, indices@, letter));
    }
    out
}

} // verus!
