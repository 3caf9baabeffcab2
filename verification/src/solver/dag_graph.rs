//! The graph of reveal patterns of a word list: each node is a pattern with the
//! words that are possible where it is seen, and each answer that hits leads to
//! another node.
use vstd::prelude::*;

use crate::game::letters::{
    holds, is_lower, lemma_bit_ops, lemma_has_ops, lemma_test_letter, letter_bit, letters_of, only_letters, place_mask,
    LetterSet,
};
use crate::game::rules::{at, occurs};
use crate::solver::pattern_store::{lemma_pattern_ok, lemma_store_bounded, PatternStore};
use crate::solver::patterns::{
    blank, fits, lemma_closed_has_all, lemma_matching, matching, pattern_letters, pattern_set, reveal_at, shows,
};
use crate::solver::signature::{idx_ok, list_ok};
use crate::solver::table::pattern_ids;

verus! {

/// A word that is possible at a node, with its letters that are still hidden.
pub struct WordEntry {
    pub(crate) word_idx: usize,
    pub(crate) unrevealed_letters: LetterSet,
}

/// A node of the graph: one reveal pattern.
pub struct DagNode {
    pub(crate) pattern: Vec<u8>,
    /// The hidden letters of all words at the node.
    pub(crate) useful_letters: LetterSet,
    /// The letters that the pattern shows.
    pub(crate) revealed_letters: LetterSet,
    pub(crate) word_entries: Vec<WordEntry>,
    /// For each letter, the place mask and the node of each answer that hits.
    pub(crate) hit_children: Vec<Vec<(u32, usize)>>,
}

/// The children of pattern `p` for letter `l` are listed in `succ`.
pub open(crate) spec fn children_ok(
    words: Seq<Vec<u8>>,
    patterns: Seq<Seq<u8>>,
    p: Seq<u8>,
    l: u8,
    succ: Seq<(u32, usize)>,
) -> bool {
    &&& forall|a: int|
        0 <= a < succ.len() ==> (#[trigger] succ[a]).0 != 0 && succ[a].1 < patterns.len()
            && patterns[succ[a].1 as int] == reveal_at(p, l, succ[a].0)
    &&& forall|i: int|
        0 <= i < words.len() && #[trigger] fits(words[i]@, p) && occurs(l, words[i]@) ==> exists|a: int|
            0 <= a < succ.len() && (#[trigger] succ[a]).0 == place_mask(words[i]@, l)
}

/// What a node says of its pattern is right; its children are among `patterns`.
pub open(crate) spec fn node_ok(words: Seq<Vec<u8>>, patterns: Seq<Seq<u8>>, node: DagNode) -> bool {
    let p = node.pattern@;
    let m = matching(words, p);
    &&& shows(words, p)
    &&& only_letters(node.revealed_letters)
    &&& forall|l: u8| #[trigger] holds(node.revealed_letters, l) == (l != 0 && occurs(l, p))
    &&& node.word_entries@.len() == m.len()
    &&& forall|t: int|
        0 <= t < m.len() ==> (#[trigger] node.word_entries@[t]).word_idx == m[t] && only_letters(
            node.word_entries@[t].unrevealed_letters,
        )
    &&& forall|t: int, l: u8|
        0 <= t < m.len() ==> #[trigger] holds(node.word_entries@[t].unrevealed_letters, l) == (occurs(
            l,
            words[m[t] as int]@,
        ) && !occurs(l, p))
    &&& only_letters(node.useful_letters)
    &&& forall|l: u8| #[trigger] holds(node.useful_letters, l) == (is_lower(l) && !occurs(l, p) && exists|i: int|
        0 <= i < words.len() && fits(words[i]@, p) && #[trigger] occurs(l, words[i]@))
    &&& node.hit_children@.len() == 26
    &&& forall|l: u8|
        is_lower(l) && !#[trigger] occurs(l, p) ==> children_ok(words, patterns, p, l, node.hit_children@[l - 97]@)
}

/// The patterns of the nodes.
pub open(crate) spec fn node_patterns(nodes: Seq<DagNode>) -> Seq<Seq<u8>> {
    Seq::new(nodes.len(), |i: int| nodes[i].pattern@)
}

/// The graph of a word list.
pub open(crate) spec fn graph_ok(words: Seq<Vec<u8>>, k: nat, nodes: Seq<DagNode>) -> bool {
    &&& nodes.len() > 0
    &&& nodes[0].pattern@ == blank(k)
    &&& forall|id: int| 0 <= id < nodes.len() ==> node_ok(words, node_patterns(nodes), #[trigger] nodes[id])
}

/// The patterns of a store.
pub open(crate) spec fn store_patterns(store: PatternStore) -> Seq<Seq<u8>> {
    Seq::new(store.nodes@.len(), |i: int| store.nodes@[i].pattern@)
}

proof fn lemma_children_grow(
    words: Seq<Vec<u8>>,
    a: PatternStore,
    b: PatternStore,
    p: Seq<u8>,
    l: u8,
    succ: Seq<(u32, usize)>,
)
    requires
        children_ok(words, store_patterns(a), p, l, succ),
        b.extends(a),
    ensures
        children_ok(words, store_patterns(b), p, l, succ),
{
    assert forall|x: int| 0 <= x < succ.len() implies (#[trigger] succ[x]).0 != 0 && succ[x].1 < store_patterns(b).len()
        && store_patterns(b)[succ[x].1 as int] == reveal_at(p, l, succ[x].0) by {
        assert(b.nodes@[succ[x].1 as int] == a.nodes@[succ[x].1 as int]);
    }
}

proof fn lemma_node_grows(words: Seq<Vec<u8>>, a: PatternStore, b: PatternStore, node: DagNode)
    requires
        node_ok(words, store_patterns(a), node),
        b.extends(a),
    ensures
        node_ok(words, store_patterns(b), node),
{
    let p = node.pattern@;
    assert forall|l: u8| is_lower(l) && !#[trigger] occurs(l, p) implies children_ok(
        words,
        store_patterns(b),
        p,
        l,
        node.hit_children@[l - 97]@,
    ) by {
        lemma_children_grow(words, a, b, p, l, node.hit_children@[l - 97]@);
    }
}

/// The words of a pattern with their hidden letters.
fn word_entries(words: &[Vec<u8>], k: usize, members: &Vec<usize>, revealed: LetterSet, Ghost(p): Ghost<Seq<u8>>) -> (r: Vec<WordEntry>)
    requires
        list_ok(words@, k as nat),
        idx_ok(members@, words@.len()),
        forall|l: u8| #[trigger] holds(revealed, l) == (l != 0 && occurs(l, p)),
    ensures
        r@.len() == members@.len(),
        forall|t: int|
            0 <= t < members@.len() ==> (#[trigger] r@[t]).word_idx == members@[t] && only_letters(
                r@[t].unrevealed_letters,
            ),
        forall|t: int, l: u8|
            0 <= t < members@.len() ==> #[trigger] holds(r@[t].unrevealed_letters, l) == (occurs(
                l,
                words@[members@[t] as int]@,
            ) && !occurs(l, p)),
{
    let mut r: Vec<WordEntry> = Vec::new();
    let mut t: usize = 0;
    while t < members.len()
        invariant
            t <= members@.len(),
            list_ok(words@, k as nat),
            idx_ok(members@, words@.len()),
            forall|l: u8| #[trigger] holds(revealed, l) == (l != 0 && occurs(l, p)),
            r@.len() == t,
            forall|u: int|
                0 <= u < t ==> (#[trigger] r@[u]).word_idx == members@[u] && only_letters(r@[u].unrevealed_letters),
            forall|u: int, l: u8|
                0 <= u < t ==> #[trigger] holds(r@[u].unrevealed_letters, l) == (occurs(
                    l,
                    words@[members@[u] as int]@,
                ) && !occurs(l, p)),
        decreases members@.len() - t,
    {
        let own: u32 = letters_of(words[members[t]].as_slice());
        let hidden: u32 = own & !revealed;
        let ghost before = r@;
        proof {
            lemma_has_ops(own, !revealed);
            lemma_has_ops(revealed, 0);
            lemma_bit_ops(own, !revealed);
            let w = words@[members@[t as int] as int]@;
            assert forall|l: u8| #[trigger] holds(hidden, l) == (occurs(l, w) && !occurs(l, p)) by {
                if occurs(l, w) {
                    let j = choose|j: int| #[trigger] at(w, j, l);
                    assert(is_lower(w[j]));
                }
            }
        }
        r.push(WordEntry { word_idx: members[t], unrevealed_letters: hidden });
        proof {
            assert forall|u: int, l: u8| 0 <= u < t + 1 implies #[trigger] holds(r@[u].unrevealed_letters, l) == (occurs(
                l,
                words@[members@[u] as int]@,
            ) && !occurs(l, p)) by {
                if u < t {
                    assert(r@[u] == before[u]);
                }
            }
        }
        t += 1;
    }
    r
}

/// A graph has a node for every pattern of its list.
proof fn lemma_graph_all(words: Seq<Vec<u8>>, k: nat, nodes: Seq<DagNode>)
    requires
        words.len() > 0,
        words.len() <= usize::MAX,
        list_ok(words, k),
        k <= 32,
        graph_ok(words, k, nodes),
    ensures
        node_patterns(nodes).to_set() == pattern_set(words),
{
    let ps = node_patterns(nodes);
    let s = ps.to_set();
    assert(ps[0] == blank(k));
    assert forall|p: Seq<u8>, i: int, l: u8|
        #![trigger s.contains(p), occurs(l, words[i]@)]
        s.contains(p) && 0 <= i < words.len() && fits(words[i]@, p) && is_lower(l) && occurs(l, words[i]@) && !occurs(
            l,
            p,
        ) implies s.contains(reveal_at(p, l, place_mask(words[i]@, l))) by {
        let id = choose|id: int| 0 <= id < ps.len() && ps[id] == p;
        assert(node_ok(words, ps, nodes[id]));
        let succ = nodes[id].hit_children@[l - 97]@;
        assert(children_ok(words, ps, p, l, succ));
        let a = choose|a: int| 0 <= a < succ.len() && (#[trigger] succ[a]).0 == place_mask(words[i]@, l);
        assert(ps[succ[a].1 as int] == reveal_at(p, l, succ[a].0));
    }
    lemma_closed_has_all(words, k, s);
    assert forall|p: Seq<u8>| s.contains(p) == pattern_set(words).contains(p) by {
        if s.contains(p) {
            let id = choose|id: int| 0 <= id < ps.len() && ps[id] == p;
            assert(node_ok(words, ps, nodes[id]));
        }
        if shows(words, p) {
            assert(s.contains(p));
        }
    }
    assert(s =~= pattern_set(words));
}

/// Builds the graph of a word list from the blank pattern on.
pub(crate) fn build_dag(words: &[Vec<u8>], k: usize) -> (nodes: Vec<DagNode>)
    requires
        words@.len() > 0,
        list_ok(words@, k as nat),
        k <= 32,
    ensures
        graph_ok(words@, k as nat, nodes@),
        node_patterns(nodes@).no_duplicates(),
        node_patterns(nodes@).to_set() == pattern_set(words@),
        nodes@.len() == pattern_set(words@).len(),
{
    let mut store = PatternStore::with_blank(words, k);
    let mut nodes: Vec<DagNode> = Vec::new();
    let mut next: usize = 0;
    let count: usize = words.len();
    proof {
        lemma_store_bounded(store, words@);
    }
    while next < store.nodes.len()
        invariant
            words@.len() > 0,
            words@.len() <= usize::MAX,
            list_ok(words@, k as nat),
            k <= 32,
            next <= store.nodes@.len() <= pattern_set(words@).len(),
            store.nodes@.len() > 0,
            store.nodes@[0].pattern@ == blank(k as nat),
            store.holds_patterns(words@),
            nodes@.len() == next,
            forall|id: int|
                0 <= id < next ==> (#[trigger] nodes@[id]).pattern@ == store.nodes@[id].pattern@ && node_ok(
                    words@,
                    store_patterns(store),
                    nodes@[id],
                ),
        decreases pattern_set(words@).len() - next,
    {
        let ghost p = store.nodes@[next as int].pattern@;
        let ghost m = store.nodes@[next as int].matching@;
        proof {
            lemma_pattern_ok(words@, k as nat, p);
            lemma_matching(words@, p);
        }
        let pattern: Vec<u8> = store.nodes[next].pattern.clone();
        assert(pattern@ =~= p);
        let members: Vec<usize> = store.nodes[next].matching.clone();
        assert(members@ =~= m);
        let revealed: LetterSet = pattern_letters(pattern.as_slice());
        let entries = word_entries(words, k, &members, revealed, Ghost(p));
        let useful: LetterSet = store.useful_letters(words, k, next);
        let mut hit_children: Vec<Vec<(u32, usize)>> = Vec::new();
        let mut li: u8 = 0;
        while li < 26
            invariant
                li <= 26,
                list_ok(words@, k as nat),
                k <= 32,
                next < store.nodes@.len(),
                p == store.nodes@[next as int].pattern@,
                store.nodes@[0].pattern@ == blank(k as nat),
                store.holds_patterns(words@),
                nodes@.len() == next,
                forall|id: int|
                    0 <= id < next ==> (#[trigger] nodes@[id]).pattern@ == store.nodes@[id].pattern@ && node_ok(
                        words@,
                        store_patterns(store),
                        nodes@[id],
                    ),
                forall|l: u8| #[trigger] holds(useful, l) == (is_lower(l) && !occurs(l, p) && exists|i: int|
                    0 <= i < words@.len() && fits(words@[i]@, p) && #[trigger] occurs(l, words@[i]@)),
                hit_children@.len() == li,
                forall|l: u8|
                    l < 97 + li && is_lower(l) && !#[trigger] occurs(l, p) ==> children_ok(
                        words@,
                        store_patterns(store),
                        p,
                        l,
                        hit_children@[l - 97]@,
                    ),
            decreases 26 - li,
        {
            let letter: u8 = 97 + li;
            let ghost before = store;
            let ghost children0 = hit_children@;
            proof {
                lemma_test_letter(useful, letter);
            }
            let succ: Vec<(u32, usize)> = if useful & letter_bit(letter) != 0 {
                store.expand_letter(words, k, next, letter)
            } else {
                Vec::new()
            };
            proof {
                if !occurs(letter, p) {
                    assert(children_ok(words@, store_patterns(store), p, letter, succ@));
                }
            }
            hit_children.push(succ);
            proof {
                assert(store.nodes@[next as int] == before.nodes@[next as int]);
                assert forall|id: int| 0 <= id < next implies (#[trigger] nodes@[id]).pattern@ == store.nodes@[id].pattern@ && node_ok(
                    words@,
                    store_patterns(store),
                    nodes@[id],
                ) by {
                    assert(store.nodes@[id] == before.nodes@[id]);
                    lemma_node_grows(words@, before, store, nodes@[id]);
                }
                assert forall|l: u8| l < 97 + li + 1 && is_lower(l) && !#[trigger] occurs(l, p) implies children_ok(
                    words@,
                    store_patterns(store),
                    p,
                    l,
                    hit_children@[l - 97]@,
                ) by {
                    if l < letter {
                        assert(hit_children@[l - 97] == children0[l - 97]);
                        lemma_children_grow(words@, before, store, p, l, children0[l - 97]@);
                    }
                }
            }
            li += 1;
        }
        proof {
            lemma_store_bounded(store, words@);
        }
        nodes.push(
            DagNode { pattern, useful_letters: useful, revealed_letters: revealed, word_entries: entries, hit_children },
        );
        next += 1;
    }
    proof {
        assert(node_patterns(nodes@) =~= store_patterns(store));
        assert(node_patterns(nodes@).no_duplicates()) by {
            assert forall|i: int, j: int| 0 <= i < nodes@.len() && 0 <= j < nodes@.len() && i != j implies node_patterns(nodes@)[i] != node_patterns(
                nodes@,
            )[j] by {
                assert(pattern_ids(store.ids)[store.nodes@[i].pattern@] == i);
                assert(pattern_ids(store.ids)[store.nodes@[j].pattern@] == j);
            }
        }
        lemma_graph_all(words@, k as nat, nodes@);
        node_patterns(nodes@).unique_seq_to_set();
    }
    nodes
}

} // verus!
