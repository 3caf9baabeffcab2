//! Splitting a position by the referee's possible answers to a letter.
use vstd::prelude::*;

use crate::game::letters::{lemma_mask_bits, lemma_mask_same, place_mask, pos_mask};
use crate::game::rules::{cost, reply};
use crate::seqs::{lemma_filter, lemma_filter_take};
use crate::solver::signature::{chosen, idx_ok};
use crate::solver::table::{groups_insert, groups_into_vec, groups_new, groups_take};
use crate::sorting::{perm_of, sorted_order};

verus! {

/// The indices whose word answers letter `l` with the place mask `m`, in order.
pub open spec fn group(words: Seq<Vec<u8>>, idx: Seq<usize>, l: u8, m: u32) -> Seq<usize> {
    idx.filter(|i: usize| place_mask(words[i as int]@, l) == m)
}

/// Some part belongs to the answer `m`.
pub open spec fn has_part(parts: Seq<(u32, Vec<usize>)>, m: u32) -> bool {
    exists|a: int| 0 <= a < parts.len() && (#[trigger] parts[a]).0 == m
}

/// `parts` holds every possible answer to `l` once, each with the indices of
/// the words that give it, in order.
pub open spec fn is_partition(
    words: Seq<Vec<u8>>,
    idx: Seq<usize>,
    l: u8,
    parts: Seq<(u32, Vec<usize>)>,
) -> bool {
    &&& forall|a: int|
        0 <= a < parts.len() ==> (#[trigger] parts[a]).1@ == group(words, idx, l, parts[a].0)
            && parts[a].1@.len() > 0
    &&& forall|a: int, b: int|
        0 <= a < b < parts.len() ==> (#[trigger] parts[a]).0 != (#[trigger] parts[b]).0
    &&& forall|t: int|
        0 <= t < idx.len() ==> has_part(parts, place_mask(words[#[trigger] idx[t] as int]@, l))
}

/// Words short enough for a place mask.
pub open spec fn short_words(words: Seq<Vec<u8>>) -> bool {
    forall|i: int| 0 <= i < words.len() ==> (#[trigger] words[i])@.len() <= 32
}

/// A group holds the words that the referee's answer leaves.
pub proof fn lemma_group(words: Seq<Vec<u8>>, idx: Seq<usize>, l: u8, m: u32)
    requires
        short_words(words),
        idx_ok(idx, words.len()),
    ensures
        idx_ok(group(words, idx, l, m), words.len()),
        group(words, idx, l, m).len() <= idx.len(),
        idx.no_duplicates() ==> group(words, idx, l, m).no_duplicates(),
        forall|i: usize| #[trigger]
            group(words, idx, l, m).contains(i) == (idx.contains(i) && place_mask(
                words[i as int]@,
                l,
            ) == m),
        forall|i: usize| #[trigger]
            idx.contains(i) && place_mask(words[i as int]@, l) == m ==> chosen(
                words,
                group(words, idx, l, m),
            ) == reply(chosen(words, idx), l, words[i as int]@) && cost(l, words[i as int]@) == (
            if m == 0 {
                1int
            } else {
                0int
            }),
{
    let g = group(words, idx, l, m);
    let s = chosen(words, idx);
    lemma_filter(idx, |i: usize| place_mask(words[i as int]@, l) == m);
    assert forall|t: int| 0 <= t < g.len() implies #[trigger] g[t] < words.len() by {
        assert(idx.contains(g[t]));
    }
    assert forall|i: usize| #[trigger]
        idx.contains(i) && place_mask(words[i as int]@, l) == m implies chosen(words, g) == reply(
        s,
        l,
        words[i as int]@,
    ) && cost(l, words[i as int]@) == (if m == 0 {
        1int
    } else {
        0int
    }) by {
        let w = words[i as int]@;
        lemma_mask_bits(w, l);
        assert forall|v: Seq<u8>| chosen(words, g).contains(v) == reply(s, l, w).contains(v) by {
            if chosen(words, g).contains(v) {
                let t = choose|t: int| 0 <= t < g.len() && words[#[trigger] g[t] as int]@ == v;
                assert(idx.contains(g[t]));
                let u = choose|u: int| 0 <= u < idx.len() && idx[u] == g[t];
                assert(words[idx[u] as int]@ == v);
                lemma_mask_same(w, v, l);
            }
            if reply(s, l, w).contains(v) {
                let u = choose|u: int| 0 <= u < idx.len() && words[#[trigger] idx[u] as int]@ == v;
                lemma_mask_same(w, v, l);
                assert(g.contains(idx[u]));
                let t = choose|t: int| 0 <= t < g.len() && g[t] == idx[u];
                assert(words[g[t] as int]@ == v);
            }
        }
        assert(chosen(words, g) =~= reply(s, l, w));
    }
}

/// Groups the indices by the place masks given beside them.
pub(crate) fn group_by_mask(
    Ghost(words): Ghost<Seq<Vec<u8>>>,
    indices: &[usize],
    Ghost(l): Ghost<u8>,
    masks: &Vec<u32>,
) -> (parts: Vec<(u32, Vec<usize>)>)
    requires
        masks@.len() == indices@.len(),
        forall|t: int|
            0 <= t < indices@.len() ==> #[trigger] masks@[t] == place_mask(
                words[indices@[t] as int]@,
                l,
            ),
    ensures
        is_partition(words, indices@, l, parts@),
{
    let ghost idx = indices@;
    let mut map = groups_new();
    let mut i: usize = 0;
    proof {
        assert(idx.take(0) =~= Seq::empty());
        reveal(Seq::filter);
    }
    while i < indices.len()
        invariant
            i <= indices@.len(),
            idx == indices@,
            masks@.len() == idx.len(),
            forall|t: int|
                0 <= t < idx.len() ==> #[trigger] masks@[t] == place_mask(words[idx[t] as int]@, l),
            forall|m: u32| #[trigger]
                map@.contains_key(m) ==> map@[m]@ == group(words, idx.take(i as int), l, m)
                    && map@[m]@.len() > 0,
            forall|m: u32| !#[trigger]
                map@.contains_key(m) ==> group(words, idx.take(i as int), l, m).len() == 0,
            forall|t: int| 0 <= t < i ==> map@.contains_key(place_mask(words[#[trigger] idx[t] as int]@, l)),
        decreases indices@.len() - i,
    {
        let mask: u32 = masks[i];
        let ghost old_map = map@;
        let mut members: Vec<usize> = match groups_take(&mut map, mask) {
            Some(v) => v,
            None => Vec::new(),
        };
        let ghost before = members@;
        members.push(indices[i]);
        groups_insert(&mut map, mask, members);
        proof {
            let t = idx.take(i as int);
            assert forall|m: u32| #[trigger] group(words, idx.take(i + 1), l, m) == if m == mask {
                group(words, t, l, m).push(idx[i as int])
            } else {
                group(words, t, l, m)
            } by {
                lemma_filter_take(idx, |j: usize| place_mask(words[j as int]@, l) == m, i as int);
            }
            if !old_map.contains_key(mask) {
                assert(group(words, t, l, mask) =~= Seq::empty());
            }
            assert(before == group(words, t, l, mask));
        }
        i += 1;
    }
    proof {
        assert(idx.take(i as int) =~= idx);
    }
    let ghost done = map@;
    let parts = groups_into_vec(map);
    proof {
        assert forall|t: int| 0 <= t < idx.len() implies has_part(
            parts@,
            place_mask(words[#[trigger] idx[t] as int]@, l),
        ) by {
            assert(done.contains_key(place_mask(words[idx[t] as int]@, l)));
        }
    }
    parts
}

/// Partition the words by the places where `letter` stands.
pub fn partition(words: &[Vec<u8>], indices: &[usize], letter: u8) -> (parts: Vec<(u32, Vec<usize>)>)
    requires
        short_words(words@),
        idx_ok(indices@, words@.len()),
    ensures
        is_partition(words@, indices@, letter, parts@),
{
    let mut masks: Vec<u32> = Vec::new();
    let mut i: usize = 0;
    while i < indices.len()
        invariant
            i <= indices@.len(),
            short_words(words@),
            idx_ok(indices@, words@.len()),
            masks@.len() == i,
            forall|t: int|
                0 <= t < i ==> #[trigger] masks@[t] == place_mask(words@[indices@[t] as int]@, letter),
        decreases indices@.len() - i,
    {
        masks.push(pos_mask(words[indices[i]].as_slice(), letter));
        i += 1;
    }
    group_by_mask(Ghost(words@), indices, Ghost(letter), &masks)
}

/// The parts of `q` are those of `p` in another order.
pub open spec fn reordered(p: Seq<(u32, Vec<usize>)>, q: Seq<(u32, Vec<usize>)>) -> bool {
    exists|o: Seq<usize>| #[trigger]
        perm_of(o, 0, p.len() as int) && q.len() == p.len() && forall|a: int|
            0 <= a < q.len() ==> (#[trigger] q[a]).0 == p[o[a] as int].0 && q[a].1@ == p[o[a] as int].1@
}

/// A partition stays one in another order.
pub proof fn lemma_reordered(
    words: Seq<Vec<u8>>,
    idx: Seq<usize>,
    l: u8,
    p: Seq<(u32, Vec<usize>)>,
    q: Seq<(u32, Vec<usize>)>,
)
    requires
        is_partition(words, idx, l, p),
        reordered(p, q),
        p.len() <= usize::MAX,
    ensures
        is_partition(words, idx, l, q),
{
    let o = choose|o: Seq<usize>| #[trigger]
        perm_of(o, 0, p.len() as int) && q.len() == p.len() && forall|a: int|
            0 <= a < q.len() ==> (#[trigger] q[a]).0 == p[o[a] as int].0 && q[a].1@ == p[o[a] as int].1@;
    assert forall|a: int| 0 <= a < q.len() implies (#[trigger] q[a]).1@ == group(words, idx, l, q[a].0)
        && q[a].1@.len() > 0 by {
        assert(p[o[a] as int].1@.len() > 0);
    }
    assert forall|a: int, b: int| 0 <= a < b < q.len() implies (#[trigger] q[a]).0 != (#[trigger] q[b]).0 by {
        assert(o[a] != o[b]);
        assert(p[o[a] as int].0 != p[o[b] as int].0);
    }
    assert forall|t: int| 0 <= t < idx.len() implies has_part(
        q,
        place_mask(words[#[trigger] idx[t] as int]@, l),
    ) by {
        assert(has_part(p, place_mask(words[idx[t] as int]@, l)));
        let b = choose|b: int|
            0 <= b < p.len() && (#[trigger] p[b]).0 == place_mask(words[idx[t] as int]@, l);
        assert(o.contains(b as usize));
        let a = choose|a: int| 0 <= a < o.len() && o[a] == b as usize;
        assert(q[a].0 == p[b].0);
    }
}

/// A miss comes before a hit, and a larger part before a smaller one.
pub open spec fn miss_first(a: (u32, Vec<usize>), b: (u32, Vec<usize>)) -> bool {
    if (a.0 == 0) != (b.0 == 0) {
        a.0 == 0
    } else {
        a.1@.len() >= b.1@.len()
    }
}

/// A larger part comes before a smaller one.
pub open spec fn larger_first(a: (u32, Vec<usize>), b: (u32, Vec<usize>)) -> bool {
    a.1@.len() >= b.1@.len()
}

/// Takes the parts out in the given order.
pub(crate) fn take_in_order(parts: Vec<(u32, Vec<usize>)>, order: &Vec<usize>) -> (out: Vec<(u32, Vec<usize>)>)
    requires
        perm_of(order@, 0, parts@.len() as int),
    ensures
        out@.len() == parts@.len(),
        forall|a: int|
            0 <= a < out@.len() ==> (#[trigger] out@[a]).0 == parts@[order@[a] as int].0 && out@[a].1@
                == parts@[order@[a] as int].1@,
        reordered(parts@, out@),
{
    let mut out: Vec<(u32, Vec<usize>)> = Vec::new();
    let mut i: usize = 0;
    while i < order.len()
        invariant
            i <= order@.len(),
            perm_of(order@, 0, parts@.len() as int),
            out@.len() == i,
            forall|a: int|
                0 <= a < i ==> (#[trigger] out@[a]).0 == parts@[order@[a] as int].0 && out@[a].1@
                    == parts@[order@[a] as int].1@,
        decreases order@.len() - i,
    {
        let part = &parts[order[i]];
        let members: Vec<usize> = part.1.clone();
        assert(members@ =~= part.1@);
        out.push((part.0, members));
        i += 1;
    }
    out
}

/// Orders the parts: the miss first, then larger parts before smaller ones.
pub(crate) fn order_miss_first(parts: Vec<(u32, Vec<usize>)>) -> (out: Vec<(u32, Vec<usize>)>)
    ensures
        reordered(parts@, out@),
        forall|a: int, b: int|
            0 <= a < b < out@.len() ==> miss_first(#[trigger] out@[a], #[trigger] out@[b]),
{
    let n: usize = parts.len();
    let ghost leq = |x: int, y: int| miss_first(parts@[x], parts@[y]);
    let le = |x: usize, y: usize| -> (r: bool)
        requires
            x < n,
            y < n,
            n == parts@.len(),
        ensures
            r == miss_first(parts@[x as int], parts@[y as int]),
        {
            if (parts[x].0 == 0) != (parts[y].0 == 0) {
                parts[x].0 == 0
            } else {
                parts[x].1.len() >= parts[y].1.len()
            }
        };
    let order = sorted_order(n, &le, Ghost(leq));
    let ghost before_take = parts@;
    let out = take_in_order(parts, &order);
    proof {
        assert forall|a: int, b: int| 0 <= a < b < out@.len() implies miss_first(
            #[trigger] out@[a],
            #[trigger] out@[b],
        ) by {
            assert(leq(order@[a] as int, order@[b] as int));
        }
    }
    out
}

/// Orders the parts by size, larger parts first.
pub(crate) fn order_larger_first(parts: Vec<(u32, Vec<usize>)>) -> (out: Vec<(u32, Vec<usize>)>)
    ensures
        reordered(parts@, out@),
        forall|a: int, b: int|
            0 <= a < b < out@.len() ==> larger_first(#[trigger] out@[a], #[trigger] out@[b]),
{
    let n: usize = parts.len();
    let ghost leq = |x: int, y: int| larger_first(parts@[x], parts@[y]);
    let le = |x: usize, y: usize| -> (r: bool)
        requires
            x < n,
            y < n,
            n == parts@.len(),
        ensures
            r == larger_first(parts@[x as int], parts@[y as int]),
        { parts[x].1.len() >= parts[y].1.len() };
    let order = sorted_order(n, &le, Ghost(leq));
    let out = take_in_order(parts, &order);
    proof {
        assert forall|a: int, b: int| 0 <= a < b < out@.len() implies larger_first(
            #[trigger] out@[a],
            #[trigger] out@[b],
        ) by {
            assert(leq(order@[a] as int, order@[b] as int));
        }
    }
    out
}

} // verus!
