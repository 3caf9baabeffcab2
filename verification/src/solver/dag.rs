//! A solver that walks a graph of reveal patterns, built in advance.
//!
//! A state is a node of the graph together with the wrong guesses that matter
//! there. Wrong guesses that no word of a node could hold are dropped on the way,
//! so that many histories share a state.
use dashmap::DashMap;
use vstd::prelude::*;

use crate::game::letters::{
    bit_of, bits_below, count_letters, holds, is_lower, lemma_add_letter, lemma_bit_ops, lemma_bits_below,
    lemma_has_ops, lemma_has_zero, lemma_mask_bits, lemma_some_letter, letter_bit, letters, only_letters, place_mask,
    LetterSet,
};
use crate::game::rules::{
    guess_wins, is_open, lemma_at_most_25, lemma_guess_more_budget, lemma_value_is, no_open, occurs, required,
};
use crate::seqs::lemma_filter_take;
use crate::solver::bounds::{lemma_open_lower, lemma_value_bits};
use crate::solver::dag_graph::{build_dag, children_ok, graph_ok, node_ok, node_patterns, DagNode};
use crate::solver::dag_search::{
    hidden, lemma_hidden_small, lemma_hit_hides_less, lemma_state_hit, lemma_state_hit_value, lemma_state_miss,
    lemma_state_reachable, lemma_valid, no_wrong, state_ok, valid,
};
use crate::solver::data::SolverData;
use crate::solver::canon::key_of_form;
use crate::solver::dedup::{dedup_and_form, position_form, position_key};
use crate::solver::forms::forms_kept;
use crate::solver::memoized::{
    all_indices, lemma_fold_unique, list_value, list_word_len, never, no_disk, solvable, word_len,
};
use crate::solver::ordering::{lists_letters, move_to_front};
use crate::solver::partition::{
    group, is_partition, lemma_group, lemma_reordered, order_miss_first, short_words,
};
use crate::solver::pattern_store::lemma_pattern_ok;
use crate::solver::patterns::{blank, fits, is_pattern, lemma_blank, lemma_reveal, matching, pattern_set, reveal_at};
use crate::solver::required::{is_fold, lemma_add_counts, lemma_fold_keeps_value};
use crate::solver::search::{
    exact_kept, keys_kept, lemma_forms_grow, lemma_parts_guess, lemma_search_result, part_value, MemoizedSolverInner, SearchState,
};
use crate::solver::signature::{
    chosen, idx_ok, lemma_chosen_plain, list_ok, position_value, signatures,
};
use crate::solver::small::lemma_single;
use crate::solver::table::{
    quick_get, quick_insert, quick_len, quick_map, quick_new, table_entries, table_len, table_map,
};
use crate::solver::trust::{is_known, lemma_fold_reachable, lemma_position_form, lemma_value_matrix, table_sound};
use crate::solver::tt::{cache_unpack, claims, tt_bound, window_ok, CacheLookup, BOUND_EXACT};

verus! {

/// The number of a state: the node in the upper half, the wrong guesses in the
/// lower half.
pub open spec fn state_number(id: int, imp: u32) -> u64 {
    ((id as u32 as u64) << 32u64) | (imp as u64)
}

/// The number of a state.
fn fast_key(node_id: usize, imp_wrong: LetterSet) -> (r: u64)
    ensures
        r == state_number(node_id as int, imp_wrong),
{
    #[verifier::truncate]
    let id: u32 = node_id as u32;
    ((id as u64) << 32u64) | (imp_wrong as u64)
}

/// States have different numbers as long as nodes are numbered within 32 bits.
proof fn lemma_state_numbers(a: int, i: u32, b: int, j: u32)
    requires
        0 <= a <= u32::MAX,
        0 <= b <= u32::MAX,
        state_number(a, i) == state_number(b, j),
    ensures
        a == b,
        i == j,
{
    let x = a as u32;
    let y = b as u32;
    assert(x == y && i == j) by (bit_vector)
        requires
            ((x as u64) << 32u64) | (i as u64) == ((y as u64) << 32u64) | (j as u64),
    ;
}

/// What a search over the graph writes: a transposition table, and the key of
/// each state that has been seen.
pub struct DagState {
    pub(crate) state: SearchState,
    pub(crate) keys: DashMap<u64, u128>,
}

/// What a search over the graph leaves alone, and what it only adds to.
pub open(crate) spec fn same_frame(a: DagState, b: DagState) -> bool {
    &&& a.state.root@ == b.state.root@
    &&& a.state.root_masked@ == b.state.root_masked@
    &&& a.state.key_cache == b.state.key_cache
    &&& forms_kept(a.state.forms@, b.state.forms@)
    &&& exact_kept(table_map(a.state.cache), table_map(b.state.cache))
    &&& keys_kept(table_map(a.state.cache), table_map(b.state.cache))
}

/// Two searches, one after the other, leave alone what both do.
proof fn lemma_frame_on(a: DagState, b: DagState, c: DagState)
    requires
        same_frame(a, b),
        same_frame(b, c),
    ensures
        same_frame(a, c),
{
    assert forall|key: u128| #[trigger]
        table_map(a.state.cache).contains_key(key) && tt_bound(table_map(a.state.cache)[key]) == BOUND_EXACT implies table_map(
        c.state.cache,
    ).contains_key(key) && tt_bound(table_map(c.state.cache)[key]) == BOUND_EXACT by {
        assert(table_map(b.state.cache).contains_key(key));
    }
    assert forall|key: u128| #[trigger] table_map(a.state.cache).contains_key(key) implies table_map(c.state.cache).contains_key(key) by {
        assert(table_map(b.state.cache).contains_key(key));
    }
}

/// Every state number in the table leads to the key of its state, and the key has the
/// form of the state.
pub open(crate) spec fn keys_true(
    words: Seq<Vec<u8>>,
    k: nat,
    nodes: Seq<DagNode>,
    keys: Map<u64, u128>,
    forms: Map<u128, Seq<u8>>,
) -> bool {
    forall|id: int, imp: u32, f: u32|
        #![trigger state_number(id, imp), is_fold(words, valid(words, nodes[id].pattern@, imp), nodes[id].revealed_letters | imp, f)]
        0 <= id < nodes.len() && id <= u32::MAX && state_ok(nodes[id].pattern@, imp) && valid(words, nodes[id].pattern@, imp).len() > 0
            && keys.contains_key(state_number(id, imp)) && is_fold(
            words,
            valid(words, nodes[id].pattern@, imp),
            nodes[id].revealed_letters | imp,
            f,
        ) ==> keys[state_number(id, imp)] == position_key(words, valid(words, nodes[id].pattern@, imp), f, k) && is_known(
            words,
            valid(words, nodes[id].pattern@, imp),
            f,
            k,
            forms,
        )
}

/// More forms leave recorded keys as they are.
proof fn lemma_keys_grow(
    words: Seq<Vec<u8>>,
    k: nat,
    nodes: Seq<DagNode>,
    keys: Map<u64, u128>,
    before: Map<u128, Seq<u8>>,
    after: Map<u128, Seq<u8>>,
)
    requires
        keys_true(words, k, nodes, keys, before),
        forms_kept(before, after),
    ensures
        keys_true(words, k, nodes, keys, after),
{
    assert forall|id: int, imp: u32, f: u32|
        #![trigger state_number(id, imp), is_fold(words, valid(words, nodes[id].pattern@, imp), nodes[id].revealed_letters | imp, f)]
        0 <= id < nodes.len() && id <= u32::MAX && state_ok(nodes[id].pattern@, imp) && valid(words, nodes[id].pattern@, imp).len() > 0
            && keys.contains_key(state_number(id, imp)) && is_fold(
            words,
            valid(words, nodes[id].pattern@, imp),
            nodes[id].revealed_letters | imp,
            f,
        ) implies keys[state_number(id, imp)] == position_key(words, valid(words, nodes[id].pattern@, imp), f, k) && is_known(
        words,
        valid(words, nodes[id].pattern@, imp),
        f,
        k,
        after,
    ) by {
        let idx = valid(words, nodes[id].pattern@, imp);
        assert(is_known(words, idx, f, k, before));
        assert(before.contains_key(position_key(words, idx, f, k)));
    }
}

/// An upper limit for what a search may report, whatever its tables hold.
pub open spec fn state_room(p: Seq<u8>, imp: u32) -> int {
    32 + 27 * hidden(p) + 26 - bits_below(imp, 26)
}

/// A search over the graph of one word list.
pub struct DagSearch<'s, D, S> {
    pub(crate) inner: MemoizedSolverInner<'s, D, S>,
    pub(crate) nodes: &'s Vec<DagNode>,
}

/// The letters of one set that are in the other.
proof fn lemma_disjoint(a: u32, b: u32)
    requires
        only_letters(a),
    ensures
        (a & b == 0) == forall|l: u8| !(#[trigger] holds(a, l) && holds(b, l)),
{
    lemma_has_ops(a, b);
    lemma_bit_ops(a, b);
    lemma_has_zero();
    if a & b != 0 {
        let c = lemma_some_letter(a & b);
        assert(holds(a & b, c));
    }
    if a & b == 0 {
        assert forall|l: u8| !(#[trigger] holds(a, l) && holds(b, l)) by {
            assert(!holds(a & b, l));
        }
    }
}

/// Where no letter is open there is only one signature.
proof fn lemma_nothing_open(words: Seq<Vec<u8>>, k: nat, idx: Seq<usize>, masked: u32)
    requires
        list_ok(words, k),
        idx_ok(idx, words.len()),
        no_open(chosen(words, idx), letters(masked)),
    ensures
        signatures(words, idx, masked).len() <= 1,
{
    lemma_value_matrix(words, idx, masked, k);
    let q = signatures(words, idx, masked);
    let rows = crate::solver::signature::sig_rows(words, idx, masked);
    if q.len() >= 2 {
        assert forall|x: Seq<u8>, j: int| #[trigger] q.contains(x) && 0 <= j < k implies #[trigger] x[j] == 0 by {
            assert(rows.contains(x));
            let t = choose|t: int| 0 <= t < rows.len() && rows[t] == x;
            let w = words[idx[t] as int]@;
            assert(idx[t] < words.len());
            assert(is_lower(w[j]));
            if !holds(masked, w[j]) {
                assert(crate::game::rules::at(w, j, w[j]));
                assert(chosen(words, idx).contains(w));
                assert(is_open(chosen(words, idx), letters(masked), w[j]));
            }
        }
        assert(q.contains(q[0]) && q.contains(q[1]));
        assert(q[0] =~= q[1]);
        assert(q[0] != q[1]);
    }
}

impl<'s, D: Fn(u128) -> Option<u32>, S: Fn() -> bool> DagSearch<'s, D, S> {
    pub open(crate) spec fn wf(&self) -> bool {
        &&& self.inner.wf()
        &&& graph_ok(self.inner.words@, self.inner.k as nat, self.nodes@)
        &&& self.inner.words@.len() <= usize::MAX
    }

    /// The tables may be believed.
    pub open(crate) spec fn trusted(&self, ds: DagState) -> bool {
        &&& self.inner.trusted(ds.state)
        &&& ds.state.root@ == all_indices(self.inner.words@.len())
        &&& ds.state.root_masked@ == 0
        &&& keys_true(self.inner.words@, self.inner.k as nat, self.nodes@, quick_map(ds.keys), ds.state.forms@)
    }

    /// The value of a state.
    pub open(crate) spec fn state_value(&self, id: int, imp: u32) -> int {
        position_value(
            self.inner.words@,
            valid(self.inner.words@, self.nodes@[id].pattern@, imp),
            self.nodes@[id].revealed_letters | imp,
        ) as int
    }

    /// No other position has the key of the state.
    pub open(crate) spec fn unclaimed(&self, ds: DagState, id: int, imp: u32) -> bool {
        let words = self.inner.words@;
        let idx = valid(words, self.nodes@[id].pattern@, imp);
        forall|f: u32| #[trigger]
            is_fold(words, idx, self.nodes@[id].revealed_letters | imp, f) ==> is_known(words, idx, f, self.inner.k as nat, ds.state.forms@)
                || !ds.state.forms@.contains_key(position_key(words, idx, f, self.inner.k as nat))
    }

    /// The state has an entry under its key.
    pub open(crate) spec fn entered(&self, ds: DagState, id: int, imp: u32) -> bool {
        let words = self.inner.words@;
        let idx = valid(words, self.nodes@[id].pattern@, imp);
        forall|f: u32| #[trigger]
            is_fold(words, idx, self.nodes@[id].revealed_letters | imp, f) ==> is_known(words, idx, f, self.inner.k as nat, ds.state.forms@)
                && table_map(ds.state.cache).contains_key(position_key(words, idx, f, self.inner.k as nat))
    }

    /// Records the key of a state. Nodes beyond 32 bits have no number of their own, and
    /// nothing is recorded for them.
    fn remember_key(&self, ds: &mut DagState, node_id: usize, imp: LetterSet, key: u128)
        requires
            self.wf(),
            node_id < self.nodes@.len(),
        ensures
            final(ds).state == old(ds).state,
            node_id <= u32::MAX ==> quick_map(final(ds).keys) == quick_map(old(ds).keys).insert(state_number(node_id as int, imp), key),
            node_id > u32::MAX ==> quick_map(final(ds).keys) == quick_map(old(ds).keys),
            self.trusted(*old(ds)) && (forall|f: u32| #[trigger]
                is_fold(
                    self.inner.words@,
                    valid(self.inner.words@, self.nodes@[node_id as int].pattern@, imp),
                    self.nodes@[node_id as int].revealed_letters | imp,
                    f,
                ) ==> self.inner.keyed(
                    old(ds).state,
                    key,
                    valid(self.inner.words@, self.nodes@[node_id as int].pattern@, imp),
                    f,
                )) ==> self.trusted(*final(ds)),
    {
        let ghost keys0 = quick_map(ds.keys);
        let ghost ds0 = *ds;
        let number: u64 = fast_key(node_id, imp);
        if node_id <= u32::MAX as usize {
            quick_insert(&mut ds.keys, number, key);
        }
        proof {
            let words = self.inner.words@;
            let k = self.inner.k as nat;
            let nodes = self.nodes@;
            if self.trusted(ds0) && (forall|f: u32| #[trigger]
                is_fold(words, valid(words, nodes[node_id as int].pattern@, imp), nodes[node_id as int].revealed_letters | imp, f)
                    ==> self.inner.keyed(ds0.state, key, valid(words, nodes[node_id as int].pattern@, imp), f)) {
                let keys = quick_map(ds.keys);
                assert forall|id: int, i: u32, f: u32|
                    #![trigger state_number(id, i), is_fold(words, valid(words, nodes[id].pattern@, i), nodes[id].revealed_letters | i, f)]
                    0 <= id < nodes.len() && id <= u32::MAX && state_ok(nodes[id].pattern@, i) && valid(words, nodes[id].pattern@, i).len() > 0
                        && keys.contains_key(state_number(id, i)) && is_fold(
                        words,
                        valid(words, nodes[id].pattern@, i),
                        nodes[id].revealed_letters | i,
                        f,
                    ) implies keys[state_number(id, i)] == position_key(words, valid(words, nodes[id].pattern@, i), f, k) && is_known(
                    words,
                    valid(words, nodes[id].pattern@, i),
                    f,
                    k,
                    ds.state.forms@,
                ) by {
                    if node_id <= u32::MAX && state_number(id, i) == state_number(node_id as int, imp) {
                        lemma_state_numbers(id, i, node_id as int, imp);
                    }
                }
            }
        }
    }

    /// Records a state in which nothing is left to tell apart.
    fn remember_settled(&self, ds: &mut DagState, node_id: usize, imp: LetterSet)
        requires
            self.wf(),
            old(ds).state.wf(),
            node_id < self.nodes@.len(),
        ensures
            final(ds).state.wf(),
            same_frame(*old(ds), *final(ds)),
            self.trusted(*old(ds)) && (forall|f: u32| #[trigger]
                is_fold(
                    self.inner.words@,
                    valid(self.inner.words@, self.nodes@[node_id as int].pattern@, imp),
                    self.nodes@[node_id as int].revealed_letters | imp,
                    f,
                ) ==> position_form(
                    self.inner.words@,
                    valid(self.inner.words@, self.nodes@[node_id as int].pattern@, imp),
                    f,
                    self.inner.k as nat,
                ).len() == 0) ==> self.trusted(*final(ds)),
    {
        let ghost ds0 = *ds;
        let form: Vec<u8> = Vec::new();
        let own: bool = ds.state.forms.accept(0, &form);
        proof {
            if self.trusted(ds0) {
                self.lemma_forms_more(ds0, *ds);
            }
        }
        if own {
            proof {
                let idx = valid(self.inner.words@, self.nodes@[node_id as int].pattern@, imp);
                assert forall|f: u32|
                    position_form(self.inner.words@, idx, f, self.inner.k as nat).len() == 0 implies #[trigger] self.inner.keyed(
                    ds.state,
                    0,
                    idx,
                    f,
                ) by {
                    assert(position_form(self.inner.words@, idx, f, self.inner.k as nat) =~= form@);
                }
            }
            self.remember_key(ds, node_id, imp, 0);
        }
    }

    /// More forms leave what is believed as it is.
    proof fn lemma_forms_more(&self, a: DagState, b: DagState)
        requires
            self.trusted(a),
            b.keys == a.keys,
            b.state.cache == a.state.cache,
            b.state.key_cache == a.state.key_cache,
            b.state.root@ == a.state.root@,
            b.state.root_masked@ == a.state.root_masked@,
            forms_kept(a.state.forms@, b.state.forms@),
        ensures
            self.trusted(b),
    {
        reveal(MemoizedSolverInner::trusted);
        lemma_forms_grow(
            self.inner.words@,
            self.inner.k as nat,
            table_map(a.state.cache),
            a.state.key_cache@,
            a.state.forms@,
            b.state.forms@,
        );
        lemma_keys_grow(
            self.inner.words@,
            self.inner.k as nat,
            self.nodes@,
            quick_map(a.keys),
            a.state.forms@,
            b.state.forms@,
        );
    }

    /// The words that are possible in a state.
    fn valid_words(&self, node_id: usize, imp: LetterSet) -> (r: Vec<usize>)
        requires
            self.wf(),
            node_id < self.nodes@.len(),
        ensures
            r@ == valid(self.inner.words@, self.nodes@[node_id as int].pattern@, imp),
    {
        let node = &self.nodes[node_id];
        let ghost words = self.inner.words@;
        let ghost p = node.pattern@;
        let ghost m = matching(words, p);
        let ghost pred = |i: usize| no_wrong(words[i as int]@, p, imp);
        let mut r: Vec<usize> = Vec::new();
        let mut t: usize = 0;
        proof {
            assert(m.take(0) =~= Seq::empty());
            reveal(Seq::filter);
            assert(r@ =~= m.take(0).filter(pred));
        }
        while t < node.word_entries.len()
            invariant
                t <= m.len(),
                words == self.inner.words@,
                p == node.pattern@,
                m == matching(words, p),
                pred == |i: usize| no_wrong(words[i as int]@, p, imp),
                node_ok(words, node_patterns(self.nodes@), *node),
                r@ == m.take(t as int).filter(pred),
            decreases m.len() - t,
        {
            let entry = &node.word_entries[t];
            proof {
                lemma_filter_take(m, pred, t as int);
                lemma_disjoint(entry.unrevealed_letters, imp);
                let w = words[m[t as int] as int]@;
                assert(entry.word_idx == m[t as int]);
                assert((entry.unrevealed_letters & imp == 0) == no_wrong(w, p, imp)) by {
                    if no_wrong(w, p, imp) {
                        assert forall|l: u8| !(#[trigger] holds(entry.unrevealed_letters, l) && holds(imp, l)) by {
                            assert(holds(node.word_entries@[t as int].unrevealed_letters, l) == (occurs(l, w) && !occurs(l, p)));
                        }
                    }
                    if entry.unrevealed_letters & imp == 0 {
                        assert forall|l: u8| #[trigger] holds(imp, l) && occurs(l, w) implies occurs(l, p) by {
                            assert(holds(node.word_entries@[t as int].unrevealed_letters, l) == (occurs(l, w) && !occurs(l, p)));
                            assert(!(holds(entry.unrevealed_letters, l) && holds(imp, l)));
                        }
                    }
                }
            }
            if entry.unrevealed_letters & imp == 0 {
                r.push(entry.word_idx);
            }
            t += 1;
        }
        proof {
            assert(m.take(t as int) =~= m);
        }
        r
    }

    /// The node that an answer leads to.
    fn find_child(&self, node_id: usize, letter: u8, mask: u32, Ghost(i): Ghost<int>) -> (child: usize)
        requires
            self.wf(),
            node_id < self.nodes@.len(),
            is_lower(letter),
            !occurs(letter, self.nodes@[node_id as int].pattern@),
            0 <= i < self.inner.words@.len(),
            fits(self.inner.words@[i]@, self.nodes@[node_id as int].pattern@),
            occurs(letter, self.inner.words@[i]@),
            mask == place_mask(self.inner.words@[i]@, letter),
        ensures
            child < self.nodes@.len(),
            self.nodes@[child as int].pattern@ == reveal_at(self.nodes@[node_id as int].pattern@, letter, mask),
    {
        let node = &self.nodes[node_id];
        let succ = &node.hit_children[(letter - 97) as usize];
        proof {
            assert(node_ok(self.inner.words@, node_patterns(self.nodes@), self.nodes@[node_id as int]));
            assert(children_ok(self.inner.words@, node_patterns(self.nodes@), node.pattern@, letter, succ@));
        }
        let mut a: usize = 0;
        while a < succ.len() && succ[a].0 != mask
            invariant
                a <= succ@.len(),
                forall|b: int| 0 <= b < a ==> (#[trigger] succ@[b]).0 != mask,
            decreases succ@.len() - a,
        {
            a += 1;
        }
        proof {
            assert(fits(self.inner.words@[i]@, node.pattern@));
            assert(a < succ@.len());
        }
        succ[a].1
    }

    /// The number of misses that guessing `letter` leads to, as far as it matters:
    /// exact where it is below `cutoff`, else a lower bound.
    fn evaluate_letter(
        &self,
        ds: &mut DagState,
        node_id: usize,
        imp: LetterSet,
        valid_list: &Vec<usize>,
        letter: u8,
        cutoff: u32,
    ) -> (r: u32)
        requires
            self.wf(),
            old(ds).state.wf(),
            node_id < self.nodes@.len(),
            state_ok(self.nodes@[node_id as int].pattern@, imp),
            valid_list@ == valid(self.inner.words@, self.nodes@[node_id as int].pattern@, imp),
            valid_list@.len() > 0,
            is_lower(letter),
            !occurs(letter, self.nodes@[node_id as int].pattern@),
            !holds(imp, letter),
            cutoff > 0,
        ensures
            final(ds).state.wf(),
            same_frame(*old(ds), *final(ds)),
            r <= state_room(self.nodes@[node_id as int].pattern@, imp),
            self.trusted(*old(ds)) ==> {
                let s = chosen(self.inner.words@, valid_list@);
                let g = letters(self.nodes@[node_id as int].revealed_letters | imp);
                &&& self.trusted(*final(ds))
                &&& r < cutoff ==> guess_wins(s, g, letter, r as int)
                &&& !guess_wins(s, g, letter, r - 1)
            },
        decreases hidden(self.nodes@[node_id as int].pattern@), 26 - bits_below(imp, 26), 0int,
    {
        let ghost words = self.inner.words@;
        let ghost k = self.inner.k as nat;
        let ghost node = self.nodes@[node_id as int];
        let ghost p = node.pattern@;
        let ghost rev = node.revealed_letters;
        let ghost masked = rev | imp;
        let ghost idx = valid_list@;
        let ghost h = self.trusted(*ds);
        proof {
            lemma_valid(words, p, imp);
        }
        let parts0 = self.inner.data.partition(
            Ghost(self.inner.words@),
            Ghost(self.inner.k as nat),
            valid_list.as_slice(),
            letter,
        );
        let n_parts: usize = parts0.len();
        let parts = order_miss_first(parts0);
        proof {
            lemma_valid(words, p, imp);
            assert(short_words(words));
            lemma_reordered(words, idx, letter, parts0@, parts@);
            assert(node_ok(words, node_patterns(self.nodes@), node));
            lemma_pattern_ok(words, k, p);
            lemma_hidden_small(p);
            lemma_add_counts(imp, letter, 26);
            lemma_add_letter(imp, letter);
            lemma_bits_below(imp, 26);
            lemma_bits_below(imp | bit_of(letter), 26);
            lemma_has_ops(rev, imp);
        }
        let mut worst: u32 = 0;
        let mut i: usize = 0;
        while i < parts.len()
            invariant
                i <= parts@.len(),
                self.wf(),
                ds.state.wf(),
                same_frame(*old(ds), *ds),
                words == self.inner.words@,
                k == self.inner.k as nat,
                node_id < self.nodes@.len(),
                node == self.nodes@[node_id as int],
                node_ok(words, node_patterns(self.nodes@), node),
                p == node.pattern@,
                is_pattern(p),
                p.len() == k,
                k <= 32,
                hidden(p) <= 32,
                rev == node.revealed_letters,
                masked == rev | imp,
                state_ok(p, imp),
                idx == valid(words, p, imp),
                idx == valid_list@,
                idx_ok(idx, words.len()),
                short_words(words),
                is_lower(letter),
                !occurs(letter, p),
                !holds(imp, letter),
                state_ok(p, imp | bit_of(letter)),
                bits_below(imp | bit_of(letter), 26) == bits_below(imp, 26) + 1,
                bits_below(imp | bit_of(letter), 26) <= 26,
                is_partition(words, idx, letter, parts@),
                h == self.trusted(*old(ds)),
                h ==> self.trusted(*ds),
                cutoff > 0,
                worst < cutoff,
                worst <= state_room(p, imp),
                h ==> forall|a: int| 0 <= a < i ==> part_value(words, #[trigger] parts@[a], masked, letter) <= worst,
                h && worst > 0 ==> exists|a: int|
                    0 <= a < parts@.len() && part_value(words, #[trigger] parts@[a], masked, letter) >= worst,
            decreases parts@.len() - i,
        {
            let mask: u32 = parts[i].0;
            let ghost part = parts@[i as int];
            let ghost pv = part_value(words, part, masked, letter);
            let ghost first = part.1@[0] as int;
            proof {
                assert(part.1@ == group(words, idx, letter, part.0) && part.1@.len() > 0);
                lemma_group(words, idx, letter, part.0);
                lemma_valid(words, p, imp);
                assert(part.1@.contains(part.1@[0]));
                assert(idx.contains(part.1@[0]));
                lemma_mask_bits(words[first]@, letter);
                assert(fits(words[first]@, p) && place_mask(words[first]@, letter) == mask);
            }
            let val: u32 = if mask == 0 {
                if cutoff <= 1 {
                    proof {
                        assert(part_value(words, parts@[i as int], masked, letter) >= cutoff);
                        lemma_parts_guess(words, idx, masked, letter, parts@, cutoff as int);
                    }
                    return cutoff;
                }
                let child_alpha: u32 = if worst >= 1 { worst - 1 } else { 0 };
                proof {
                    lemma_state_miss(words, k, p, imp, letter);
                    crate::solver::dag::lemma_or_assoc(rev, imp, bit_of(letter));
                }
                1 + self.solve_state(ds, node_id, imp | letter_bit(letter), child_alpha, cutoff - 1)
            } else {
                let child: usize = self.find_child(node_id, letter, mask, Ghost(first));
                let child_useful: LetterSet = self.nodes[child].useful_letters;
                let child_imp: LetterSet = imp & child_useful;
                proof {
                    let q = reveal_at(p, letter, mask);
                    let cn = self.nodes@[child as int];
                    assert(node_ok(words, node_patterns(self.nodes@), cn));
                    lemma_has_ops(imp, child_useful);
                    lemma_state_hit(words, k, p, imp, letter, first, child_useful, child_imp);
                    lemma_hit_hides_less(words[first]@, p, letter);
                    lemma_reveal(words[first]@, p, letter);
                    lemma_bits_below(child_imp, 26);
                    assert forall|c: u8, t: int| #[trigger] holds(imp, c) && 0 <= t < part.1@.len() implies !occurs(c, words[#[trigger] part.1@[t] as int]@) by {
                        assert(part.1@.contains(part.1@[t]));
                        assert(idx.contains(part.1@[t]));
                        assert(no_wrong(words[part.1@[t] as int]@, p, imp));
                    }
                    lemma_state_hit_value(words, k, part.1@, p, q, letter, imp, child_imp, rev, cn.revealed_letters);
                }
                self.solve_state(ds, child, child_imp, worst, cutoff)
            };
            proof {
                assert(h ==> window_ok(pv, val as int, worst as int, cutoff as int) || (worst == 0 && mask == 0 && val == 1 && pv >= 1 && (val < cutoff ==> pv <= val)));
            }
            if val > worst {
                worst = val;
            }
            proof {
                if h {
                    assert(worst >= cutoff || pv <= worst);
                    assert forall|a: int| 0 <= a < i + 1 && worst < cutoff implies part_value(
                        words,
                        #[trigger] parts@[a],
                        masked,
                        letter,
                    ) <= worst by {
                        if a == i {
                            assert(parts@[a] == part);
                        }
                    }
                }
            }
            if worst >= cutoff {
                proof {
                    lemma_parts_guess(words, idx, masked, letter, parts@, worst as int);
                }
                return worst;
            }
            i += 1;
        }
        proof {
            lemma_parts_guess(words, idx, masked, letter, parts@, worst as int);
            if worst == 0 {
                let s = chosen(words, idx);
                assert(s.contains(words[idx[0] as int]@));
                assert(!guess_wins(s, letters(masked), letter, -1));
            }
        }
        worst
    }

    /// The value of a state as far as the window from `alpha` to `beta` asks.
    pub(crate) fn solve_state(&self, ds: &mut DagState, node_id: usize, imp: LetterSet, alpha: u32, beta: u32) -> (r: u32)
        requires
            self.wf(),
            old(ds).state.wf(),
            node_id < self.nodes@.len(),
            state_ok(self.nodes@[node_id as int].pattern@, imp),
            alpha < beta,
        ensures
            final(ds).state.wf(),
            same_frame(*old(ds), *final(ds)),
            r <= alpha || r <= state_room(self.nodes@[node_id as int].pattern@, imp),
            self.trusted(*old(ds)) && valid(self.inner.words@, self.nodes@[node_id as int].pattern@, imp).len() > 0 ==> {
                &&& self.trusted(*final(ds))
                &&& window_ok(self.state_value(node_id as int, imp), r as int, alpha as int, beta as int)
                &&& alpha == 0 && beta == u32::MAX && r > 0 && self.unclaimed(*old(ds), node_id as int, imp) ==> self.entered(
                    *final(ds),
                    node_id as int,
                    imp,
                )
            },
        decreases hidden(self.nodes@[node_id as int].pattern@), 26 - bits_below(imp, 26), 3int,
    {
        let ghost words = self.inner.words@;
        let ghost k = self.inner.k as nat;
        let ghost node = self.nodes@[node_id as int];
        let ghost p = node.pattern@;
        let ghost rev = node.revealed_letters;
        let ghost idx = valid(words, p, imp);
        let ghost v = self.state_value(node_id as int, imp);
        let ghost h = self.trusted(*ds) && idx.len() > 0;
        proof {
            lemma_valid(words, p, imp);
            lemma_bits_below(imp, 26);
            assert(node_ok(words, node_patterns(self.nodes@), node));
        }
        let masked: LetterSet = self.nodes[node_id].revealed_letters | imp;
        if let Some(val) = self.known_state(ds, node_id, imp, alpha, beta) {
            return val;
        }
        let valid_list = self.valid_words(node_id, imp);
        if valid_list.len() <= 1 {
            proof {
                lemma_single(words, idx, masked);
                if h {
                    assert forall|f: u32| #[trigger] is_fold(words, idx, masked, f) implies position_form(words, idx, f, k).len() == 0 by {
                        lemma_single_form(words, k, idx, f);
                    }
                }
            }
            self.remember_settled(ds, node_id, imp);
            return 0;
        }
        let useful: LetterSet = self.inner.data.present_letters(
            Ghost(self.inner.words@),
            Ghost(self.inner.k as nat),
            valid_list.as_slice(),
            masked,
        );
        let ghost s = chosen(words, idx);
        let ghost g = letters(masked);
        if useful == 0 {
            proof {
                lemma_has_zero();
                assert(no_open(s, g)) by {
                    assert forall|l: u8| !#[trigger] is_open(s, g, l) by {
                        assert(!holds(useful, l));
                    }
                }
                lemma_value_is(s, g, 0);
                if h {
                    assert forall|f: u32| #[trigger] is_fold(words, idx, masked, f) implies position_form(words, idx, f, k).len() == 0 by {
                        assert(no_open(s, letters(f))) by {
                            assert forall|l: u8| !#[trigger] is_open(s, letters(f), l) by {
                                assert(!is_open(s, g, l));
                                if is_open(s, letters(f), l) {
                                    assert(holds(masked, l));
                                    assert(holds(f, l));
                                }
                            }
                        }
                        lemma_nothing_open(words, k, idx, f);
                    }
                }
            }
            self.remember_settled(ds, node_id, imp);
            return 0;
        }
        self.solve_open_state(ds, node_id, imp, valid_list, useful, alpha, beta)
    }

    /// Asking for a state leads from `before` to `after` with the answer `r`: where its
    /// key is recorded, the key is looked up and a hit is the answer; else there is
    /// none, and nothing changes.
    pub open(crate) spec fn asks_for(&self, before: DagState, id: int, imp: u32, alpha: u32, beta: u32, r: Option<u32>, after: DagState) -> bool {
        let number = state_number(id, imp);
        if id <= u32::MAX && quick_map(before.keys).contains_key(number) {
            let counted = SearchState { hash_calls: before.state.hash_calls.wrapping_add(1), ..before.state };
            after.keys == before.keys && exists|found: CacheLookup| #[trigger]
                self.inner.looks_up(counted, quick_map(before.keys)[number], alpha, beta, found, after.state) && r == match found {
                    CacheLookup::Hit(val) => Some(val),
                    CacheLookup::Miss { .. } => None,
                }
        } else {
            r is None && after == before
        }
    }

    /// A state that was seen before and is settled by its table entry.
    fn known_state(&self, ds: &mut DagState, node_id: usize, imp: LetterSet, alpha: u32, beta: u32) -> (r: Option<u32>)
        requires
            self.wf(),
            old(ds).state.wf(),
            node_id < self.nodes@.len(),
            state_ok(self.nodes@[node_id as int].pattern@, imp),
            alpha < beta,
        ensures
            final(ds).state.wf(),
            same_frame(*old(ds), *final(ds)),
            self.asks_for(*old(ds), node_id as int, imp, alpha, beta, r, *final(ds)),
            r matches Some(val) ==> val <= 31,
            self.trusted(*old(ds)) && valid(self.inner.words@, self.nodes@[node_id as int].pattern@, imp).len() > 0 ==> {
                &&& self.trusted(*final(ds))
                &&& r matches Some(val) ==> window_ok(self.state_value(node_id as int, imp), val as int, alpha as int, beta as int)
                &&& r is Some ==> self.entered(*final(ds), node_id as int, imp)
                &&& self.unclaimed(*old(ds), node_id as int, imp) ==> self.unclaimed(*final(ds), node_id as int, imp)
            },
    {
        let ghost words = self.inner.words@;
        let ghost k = self.inner.k as nat;
        let ghost node = self.nodes@[node_id as int];
        let ghost idx = valid(words, node.pattern@, imp);
        let ghost h = self.trusted(*ds) && idx.len() > 0;
        let ghost all = all_indices(words.len());
        let ghost masked = node.revealed_letters | imp;
        if node_id > u32::MAX as usize {
            return None;
        }
        let number: u64 = fast_key(node_id, imp);
        if let Some(canon_key) = quick_get(&ds.keys, number) {
            ds.state.hash_calls = ds.state.hash_calls.wrapping_add(1);
            let ghost folded = choose|f: u32| is_fold(words, idx, masked, f);
            proof {
                if h {
                    let d = lemma_fold_exists(words, idx, masked);
                    assert(is_fold(words, idx, masked, folded));
                    assert(state_number(node_id as int, imp) == number);
                    assert(self.inner.keyed(ds.state, canon_key, idx, folded));
                    assert(self.inner.trusted(ds.state)) by {
                        reveal(MemoizedSolverInner::trusted);
                    }
                    assert(node_ok(words, node_patterns(self.nodes@), node));
                    lemma_state_reachable(words, k, node.pattern@, imp, node.revealed_letters);
                    lemma_fold_reachable(words, k, all, 0, idx, masked, folded);
                    lemma_fold_keeps_value(words, idx, masked, folded);
                }
            }
            let ghost counted = ds.state;
            let found = self.inner.cache_lookup(&mut ds.state, canon_key, alpha, beta, Ghost(idx), Ghost(folded));
            assert(self.inner.looks_up(counted, canon_key, alpha, beta, found, ds.state));
            if let CacheLookup::Hit(val) = found {
                return Some(val);
            }
        }
        None
    }

    /// The key of a state with several words, which is recorded, and its required
    /// letters.
    fn key_state(&self, ds: &mut DagState, node_id: usize, imp: LetterSet, valid_list: &Vec<usize>) -> (r: (LetterSet, LetterSet, Option<u128>))
        requires
            self.wf(),
            old(ds).state.wf(),
            node_id < self.nodes@.len(),
            valid_list@ == valid(self.inner.words@, self.nodes@[node_id as int].pattern@, imp),
            valid_list@.len() > 1,
        ensures
            final(ds).state.wf(),
            same_frame(*old(ds), *final(ds)),
            is_fold(self.inner.words@, valid_list@, self.nodes@[node_id as int].revealed_letters | imp, r.0),
            only_letters(r.1),
            forall|l: u8|
                #![trigger holds(r.1, l)]
                holds(r.1, l) == (is_lower(l) && !holds(r.0, l) && required(chosen(self.inner.words@, valid_list@), l)),
            r.2 matches Some(key) ==> self.inner.keyed(final(ds).state, key, valid_list@, r.0),
            self.unclaimed(*old(ds), node_id as int, imp) ==> r.2 is Some,
            r.2 is None ==> old(ds).state.forms@.contains_key(position_key(self.inner.words@, valid_list@, r.0, self.inner.k as nat)),
            self.trusted(*old(ds)) ==> self.trusted(*final(ds)),
    {
        let ghost words = self.inner.words@;
        let ghost idx = valid_list@;
        let masked: LetterSet = self.nodes[node_id].revealed_letters | imp;
        proof {
            lemma_valid(words, self.nodes@[node_id as int].pattern@, imp);
        }
        let (folded, splitting) = self.inner.data.analyze_required_letters(
            Ghost(self.inner.words@),
            Ghost(self.inner.k as nat),
            valid_list.as_slice(),
            masked,
        );
        let (_kept, form) = dedup_and_form(self.inner.words, valid_list.as_slice(), folded);
        let canon_key: u128 = key_of_form(&form);
        let ghost ds0 = *ds;
        let own: bool = ds.state.forms.accept(canon_key, &form);
        proof {
            if self.trusted(ds0) {
                self.lemma_forms_more(ds0, *ds);
            }
        }
        if own {
            proof {
                assert forall|f: u32| #[trigger] is_fold(words, idx, masked, f) implies self.inner.keyed(ds.state, canon_key, idx, f) by {
                    lemma_fold_unique(words, idx, masked, f, folded);
                }
            }
            self.remember_key(ds, node_id, imp, canon_key);
        }
        let ghost ds1 = *ds;
        ds.state.hash_calls = ds.state.hash_calls.wrapping_add(1);
        proof {
            if self.trusted(ds1) {
                assert(self.inner.trusted(ds.state)) by {
                    reveal(MemoizedSolverInner::trusted);
                }
            }
        }
        (
            folded,
            splitting,
            if own {
                Some(canon_key)
            } else {
                None
            },
        )
    }

    /// The candidates in the order in which to try them: the letter of a table
    /// entry first, then by the largest part that they leave.
    fn candidate_letters(&self, valid_list: &Vec<usize>, candidates: LetterSet, tt_move: Option<u8>) -> (list: Vec<u8>)
        requires
            self.wf(),
            idx_ok(valid_list@, self.inner.words@.len()),
            candidates != 0,
            only_letters(candidates),
        ensures
            list@.len() > 0,
            lists_letters(list@, candidates),
            tt_move is Some && holds(candidates, tt_move->0) ==> list@[0] == tt_move->0,
    {
        let mut list = self.inner.data.letters_by_largest(
            Ghost(self.inner.words@),
            Ghost(self.inner.k as nat),
            valid_list.as_slice(),
            candidates,
        );
        let ghost list0 = list@;
        if let Some(tt_letter) = tt_move {
            list = move_to_front(list, tt_letter);
        }
        proof {
            let c = lemma_some_letter(candidates);
            assert(list0.contains(c));
            assert(list@.contains(c));
            assert forall|l: u8| #[trigger] list@.contains(l) == holds(candidates, l) by {
                assert(list0.contains(l) == holds(candidates, l));
            }
        }
        list
    }

    /// A state with several words and an open letter.
    fn solve_open_state(
        &self,
        ds: &mut DagState,
        node_id: usize,
        imp: LetterSet,
        valid_list: Vec<usize>,
        useful: LetterSet,
        alpha: u32,
        beta: u32,
    ) -> (r: u32)
        requires
            self.wf(),
            old(ds).state.wf(),
            node_id < self.nodes@.len(),
            state_ok(self.nodes@[node_id as int].pattern@, imp),
            valid_list@ == valid(self.inner.words@, self.nodes@[node_id as int].pattern@, imp),
            valid_list@.len() > 1,
            useful != 0,
            only_letters(useful),
            forall|l: u8|
                #![trigger holds(useful, l)]
                #![trigger is_open(chosen(self.inner.words@, valid_list@), letters(self.nodes@[node_id as int].revealed_letters | imp), l)]
                holds(useful, l) == is_open(chosen(self.inner.words@, valid_list@), letters(self.nodes@[node_id as int].revealed_letters | imp), l),
            alpha < beta,
        ensures
            final(ds).state.wf(),
            same_frame(*old(ds), *final(ds)),
            r <= alpha || r <= state_room(self.nodes@[node_id as int].pattern@, imp),
            self.trusted(*old(ds)) ==> {
                &&& self.trusted(*final(ds))
                &&& window_ok(self.state_value(node_id as int, imp), r as int, alpha as int, beta as int)
                &&& alpha == 0 && r > 0 && self.unclaimed(*old(ds), node_id as int, imp) ==> self.entered(
                    *final(ds),
                    node_id as int,
                    imp,
                )
            },
        decreases hidden(self.nodes@[node_id as int].pattern@), 26 - bits_below(imp, 26), 2int,
    {
        let ghost words = self.inner.words@;
        let ghost k = self.inner.k as nat;
        let ghost node = self.nodes@[node_id as int];
        let ghost p = node.pattern@;
        let ghost rev = node.revealed_letters;
        let ghost idx = valid_list@;
        let ghost v = self.state_value(node_id as int, imp);
        let ghost h = self.trusted(*ds);
        let ghost all = all_indices(words.len());
        let masked: LetterSet = self.nodes[node_id].revealed_letters | imp;
        let ghost s = chosen(words, idx);
        let ghost g = letters(masked);
        proof {
            lemma_valid(words, p, imp);
            lemma_bits_below(imp, 26);
            assert(node_ok(words, node_patterns(self.nodes@), node));
            if h {
                lemma_state_reachable(words, k, p, imp, rev);
            }
        }
        let (folded, splitting, canon_key) = self.key_state(ds, node_id, imp, &valid_list);
        let all_required: LetterSet = (folded & !masked) | splitting;
        let n_useful: u32 = count_letters(useful);
        let n_required: u32 = count_letters(all_required);
        proof {
            lemma_chosen_plain(words, idx, k);
            lemma_at_most_25(s, g, k);
            lemma_fold_keeps_value(words, idx, masked, folded);
            lemma_all_required(words, k, idx, masked, folded, splitting, all_required);
            lemma_value_bits(s, g, k, useful, all_required);
            if h {
                assert(self.inner.trusted(ds.state)) by {
                    reveal(MemoizedSolverInner::trusted);
                }
                lemma_fold_reachable(words, k, all, 0, idx, masked, folded);
            }
        }
        let max_misses: u32 = n_useful - n_required;
        let beta2: u32 = if beta < max_misses { beta } else { max_misses };
        if alpha >= beta2 {
            return alpha;
        }
        let lookup = match canon_key {
            Some(key) => self.inner.cache_lookup(&mut ds.state, key, alpha, beta2, Ghost(idx), Ghost(folded)),
            None => CacheLookup::Miss { tt_move: None, alpha, beta: beta2 },
        };
        let (tt_move, alpha3, beta3): (Option<u8>, u32, u32) = match lookup {
            CacheLookup::Hit(val) => {
                proof {
                    assert forall|f: u32| #[trigger] is_fold(words, idx, masked, f) implies f == folded by {
                        lemma_fold_unique(words, idx, masked, f, folded);
                    }
                }
                return val;
            },
            CacheLookup::Miss { tt_move, alpha: a, beta: b } => (tt_move, a, b),
        };
        let list = self.candidate_letters(&valid_list, if splitting != 0 { splitting } else { useful }, tt_move);
        proof {
            lemma_has_ops(rev, imp);
            assert forall|l: u8| #[trigger] list@.contains(l) implies is_open(s, g, l) && is_lower(l) && !occurs(l, p) && !holds(imp, l) by {
                if splitting != 0 {
                    assert(holds(splitting, l));
                    assert(holds(all_required, l));
                } else {
                    assert(holds(useful, l));
                }
                assert(is_open(s, g, l));
                assert(!holds(masked, l));
            }
        }
        let ghost looked = *ds;
        assert(same_frame(*old(ds), looked));
        let (best, best_letter) = self.try_letters(ds, node_id, imp, &valid_list, &list, alpha3, beta3);
        proof {
            if h {
                assert(!no_open(s, g)) by {
                    let c = lemma_some_letter(useful);
                    assert(is_open(s, g, c));
                }
                if splitting != 0 {
                    assert forall|l: u8| #[trigger] list@.contains(l) implies required(s, l) by {
                        assert(holds(splitting, l));
                    }
                } else {
                    assert forall|l: u8| #[trigger] is_open(s, g, l) implies list@.contains(l) by {
                        assert(holds(useful, l));
                    }
                }
                lemma_search_result(s, g, splitting != 0, list@, best, best_letter, alpha3, beta3);
                assert(window_ok(v, best as int, alpha3 as int, beta3 as int));
                assert(window_ok(v, best as int, alpha as int, beta2 as int));
                assert(best <= 31);
            }
        }
        let ghost tried = *ds;
        if let Some(key) = canon_key {
            self.inner.cache_store(&mut ds.state, key, best, best_letter, alpha3, beta3, Ghost(idx), Ghost(folded));
            assert(table_map(ds.state.cache).contains_key(key));
            assert(keys_kept(table_map(tried.state.cache), table_map(ds.state.cache)));
        }
        proof {
            lemma_frame_on(*old(ds), looked, tried);
            lemma_frame_on(*old(ds), tried, *ds);
            assert forall|f: u32| #[trigger] is_fold(words, idx, masked, f) implies f == folded by {
                lemma_fold_unique(words, idx, masked, f, folded);
            }
        }
        best
    }

    /// Tries the letters one after the other, each against the best result so
    /// far.
    fn try_letters(
        &self,
        ds: &mut DagState,
        node_id: usize,
        imp: LetterSet,
        valid_list: &Vec<usize>,
        list: &Vec<u8>,
        alpha: u32,
        beta: u32,
    ) -> (r: (u32, u8))
        requires
            self.wf(),
            old(ds).state.wf(),
            node_id < self.nodes@.len(),
            state_ok(self.nodes@[node_id as int].pattern@, imp),
            valid_list@ == valid(self.inner.words@, self.nodes@[node_id as int].pattern@, imp),
            valid_list@.len() > 0,
            list@.len() > 0,
            forall|l: u8| #[trigger] list@.contains(l) ==> is_lower(l) && !occurs(l, self.nodes@[node_id as int].pattern@) && !holds(imp, l),
            alpha < beta,
        ensures
            final(ds).state.wf(),
            same_frame(*old(ds), *final(ds)),
            r.0 <= state_room(self.nodes@[node_id as int].pattern@, imp),
            list@.contains(r.1),
            self.trusted(*old(ds)) ==> {
                let s = chosen(self.inner.words@, valid_list@);
                let g = letters(self.nodes@[node_id as int].revealed_letters | imp);
                &&& self.trusted(*final(ds))
                &&& r.0 < beta ==> guess_wins(s, g, r.1, r.0 as int)
                &&& r.0 > alpha ==> forall|l: u8| #[trigger] list@.contains(l) ==> !guess_wins(s, g, l, r.0 - 1)
            },
        decreases hidden(self.nodes@[node_id as int].pattern@), 26 - bits_below(imp, 26), 1int,
    {
        let ghost s = chosen(self.inner.words@, valid_list@);
        let ghost g = letters(self.nodes@[node_id as int].revealed_letters | imp);
        let ghost h = self.trusted(*ds);
        let mut best: u32 = u32::MAX;
        let mut best_letter: u8 = list[0];
        let mut i: usize = 0;
        proof {
            assert(list@.contains(list@[0]));
            lemma_bits_below(imp, 26);
            lemma_valid(self.inner.words@, self.nodes@[node_id as int].pattern@, imp);
            lemma_has_ops(self.nodes@[node_id as int].revealed_letters, imp);
            assert(node_ok(self.inner.words@, node_patterns(self.nodes@), self.nodes@[node_id as int]));
            lemma_pattern_ok(self.inner.words@, self.inner.k as nat, self.nodes@[node_id as int].pattern@);
            lemma_hidden_small(self.nodes@[node_id as int].pattern@);
        }
        while i < list.len() && (i == 0 || !(best <= alpha || best == 0))
            invariant
                i <= list@.len(),
                self.wf(),
                ds.state.wf(),
                same_frame(*old(ds), *ds),
                node_id < self.nodes@.len(),
                state_ok(self.nodes@[node_id as int].pattern@, imp),
                valid_list@ == valid(self.inner.words@, self.nodes@[node_id as int].pattern@, imp),
                valid_list@.len() > 0,
                s == chosen(self.inner.words@, valid_list@),
                g == letters(self.nodes@[node_id as int].revealed_letters | imp),
                forall|l: u8| holds(self.nodes@[node_id as int].revealed_letters | imp, l) == #[trigger] g.contains(l),
                forall|l: u8| #[trigger] list@.contains(l) ==> is_lower(l) && !occurs(l, self.nodes@[node_id as int].pattern@) && !holds(imp, l),
                forall|l: u8| #[trigger] list@.contains(l) ==> !g.contains(l),
                hidden(self.nodes@[node_id as int].pattern@) <= 32,
                bits_below(imp, 26) <= 26,
                alpha < beta,
                h == self.trusted(*old(ds)),
                h ==> self.trusted(*ds),
                i == 0 ==> best == u32::MAX,
                i > 0 ==> best <= state_room(self.nodes@[node_id as int].pattern@, imp),
                list@.contains(best_letter),
                h && i > 0 && best < beta ==> guess_wins(s, g, best_letter, best as int),
                h && i > 0 ==> forall|t: int| 0 <= t < i ==> !guess_wins(s, g, #[trigger] list@[t], best - 1),
            decreases list@.len() - i,
        {
            let letter: u8 = list[i];
            let cutoff: u32 = if best < beta { best } else { beta };
            proof {
                assert(list@.contains(list@[i as int]));
            }
            let val: u32 = self.evaluate_letter(ds, node_id, imp, valid_list, letter, cutoff);
            let ghost before = best;
            if val < best {
                best = val;
                best_letter = letter;
            }
            proof {
                if h {
                    assert forall|t: int| 0 <= t < i + 1 implies !guess_wins(s, g, #[trigger] list@[t], best - 1) by {
                        let l = list@[t];
                        assert(list@.contains(l));
                        if guess_wins(s, g, l, best - 1) {
                            if t == i {
                                lemma_guess_more_budget(s, g, l, best - 1, val - 1);
                            } else {
                                lemma_guess_more_budget(s, g, l, best - 1, before - 1);
                            }
                        }
                    }
                }
            }
            i += 1;
        }
        proof {
            if h && best > alpha {
                assert forall|l: u8| #[trigger] list@.contains(l) implies !guess_wins(s, g, l, best - 1) by {
                    if best == 0 {
                        assert(s.contains(self.inner.words@[valid_list@[0] as int]@));
                        assert(!guess_wins(s, g, l, -1));
                    } else {
                        let t = choose|t: int| 0 <= t < list@.len() && list@[t] == l;
                        assert(!guess_wins(s, g, list@[t], best - 1));
                    }
                }
            }
        }
        (best, best_letter)
    }
}

/// Solver over the graph of reveal patterns of a word list.
///
/// States are told apart by node and wrong guesses, and share table entries by
/// the hash of their canonical form.
pub struct DagSolver<'a> {
    words: &'a [Vec<u8>],
    k: usize,
    data: SolverData,
    nodes: Vec<DagNode>,
    tables: DagState,
}

impl<'a> DagSolver<'a> {
    pub closed spec fn wf(&self) -> bool {
        &&& self.words@.len() > 0
        &&& self.words@.len() <= usize::MAX
        &&& solvable(self.words@)
        &&& self.k == word_len(self.words@)
        &&& self.data.wf(self.words@, self.k as nat)
        &&& graph_ok(self.words@, self.k as nat, self.nodes@)
        &&& self.tables.state.wf()
        &&& self.tables.state.root@ == all_indices(self.words@.len())
        &&& self.tables.state.root_masked@ == 0
        &&& self.tables.state.key_cache@.len() == 0
        &&& table_sound(table_map(self.tables.state.cache), self.tables.state.forms@)
        &&& keys_true(self.words@, self.k as nat, self.nodes@, quick_map(self.tables.keys), self.tables.state.forms@)
        &&& self.root_unclaimed()
    }

    /// No other position has the key of the full list, where the list needs one.
    closed spec fn root_unclaimed(&self) -> bool {
        list_value(self.words@) > 0 ==> forall|f: u32| #[trigger]
            is_fold(self.words@, all_indices(self.words@.len()), 0, f) ==> is_known(
                self.words@,
                all_indices(self.words@.len()),
                f,
                self.k as nat,
                self.tables.state.forms@,
            ) || !self.tables.state.forms@.contains_key(position_key(self.words@, all_indices(self.words@.len()), f, self.k as nat))
    }

    /// The word list.
    pub closed spec fn word_list(&self) -> Seq<Vec<u8>> {
        self.words@
    }

    /// The entries of the transposition table.
    pub closed spec fn table(&self) -> Map<u128, u32> {
        table_map(self.tables.state.cache)
    }

    /// The keys of the states that have been seen, by state number.
    pub closed spec fn state_keys(&self) -> Map<u64, u128> {
        quick_map(self.tables.keys)
    }

    /// The number of nodes.
    pub closed spec fn size(&self) -> nat {
        self.nodes@.len()
    }

    pub closed spec fn hash_count(&self) -> u64 {
        self.tables.state.hash_calls
    }

    pub closed spec fn hit_count(&self) -> u64 {
        self.tables.state.cache_hits
    }

    /// Build the solver for a word list.
    pub fn new(words: &'a [Vec<u8>]) -> (r: Self)
        requires
            words@.len() > 0,
            solvable(words@),
            word_len(words@) <= 16,
        ensures
            r.wf(),
            r.word_list() == words@,
            r.table() == Map::<u128, u32>::empty(),
            r.state_keys() == Map::<u64, u128>::empty(),
            r.hash_count() == 0,
            r.hit_count() == 0,
            r.size() == pattern_set(words@).len(),
    {
        let k: usize = list_word_len(words);
        let count: usize = words.len();
        let data = SolverData::new(words, k);
        let nodes = build_dag(words, k);
        let state = SearchState::new(Ghost(all_indices(words@.len())), Ghost(0));
        let keys = quick_new();
        proof {
            assert(table_map(state.cache) =~= Map::<u128, u32>::empty());
            assert(quick_map(keys) =~= Map::<u64, u128>::empty());
        }
        DagSolver { words, k, data, nodes, tables: DagState { state, keys } }
    }

    /// The minimax-optimal number of misses for the word list. Entries are only added to
    /// the table or replaced by others, exact ones by exact ones; where there is a miss
    /// at all, the full list has a true entry afterwards.
    pub fn solve(&mut self) -> (r: u32)
        requires
            old(self).wf(),
        ensures
            final(self).wf(),
            final(self).word_list() == old(self).word_list(),
            final(self).size() == old(self).size(),
            r == list_value(old(self).word_list()),
            exact_kept(old(self).table(), final(self).table()),
            keys_kept(old(self).table(), final(self).table()),
            r > 0 ==> forall|f: u32| #[trigger]
                is_fold(old(self).word_list(), all_indices(old(self).word_list().len()), 0, f) ==> {
                    let words = old(self).word_list();
                    let key = position_key(words, all_indices(words.len()), f, word_len(words));
                    final(self).table().contains_key(key) && claims(final(self).table()[key], r as int)
                },
    {
        let ghost words = self.words@;
        let ghost all = all_indices(words.len());
        proof {
            lemma_blank(words, self.k as nat);
            lemma_root_state(words, self.k as nat, self.nodes@);
            lemma_has_zero();
        }
        if self.k == 0 {
            proof {
                crate::solver::memoized::lemma_empty_words(words, all, 0);
            }
            return 0;
        }
        let inner = MemoizedSolverInner { words: self.words, k: self.k, data: &self.data, disk: &no_disk, stop: &never };
        let search = DagSearch { inner, nodes: &self.nodes };
        proof {
            assert(search.inner.trusted(self.tables.state)) by {
                reveal(MemoizedSolverInner::trusted);
            }
            assert(search.trusted(self.tables));
            lemma_bits_below(0, 26);
            lemma_hidden_small(blank(self.k as nat));
        }
        let ghost before = self.tables;
        let r: u32 = search.solve_state(&mut self.tables, 0, 0, 0, u32::MAX);
        proof {
            reveal(MemoizedSolverInner::trusted);
            if r > 0 {
                assert(search.unclaimed(before, 0, 0));
                assert(search.entered(self.tables, 0, 0));
                assert forall|f: u32| #[trigger] is_fold(words, all, 0, f) implies self.table().contains_key(
                    position_key(words, all, f, self.k as nat),
                ) && claims(self.table()[position_key(words, all, f, self.k as nat)], r as int) by {
                    lemma_position_form(words, self.k as nat, all, f);
                    lemma_fold_keeps_value(words, all, 0, f);
                }
            }
        }
        r
    }

    /// How many entries the transposition table holds.
    pub fn cache_size(&self) -> (r: usize)
        ensures
            r == self.table().dom().len(),
    {
        table_len(&self.tables.state.cache)
    }

    /// How many of them are exact.
    pub fn exact_cache_size(&self) -> (r: usize)
        ensures
            r == self.table().dom().filter(|key: u128| tt_bound(self.table()[key]) == BOUND_EXACT).len(),
    {
        let entries = table_entries(&self.tables.state.cache);
        let ghost t = self.table();
        let ghost mut counted = Set::<u128>::empty();
        let mut n: usize = 0;
        let mut i: usize = 0;
        while i < entries.len()
            invariant
                i <= entries@.len(),
                n <= i,
                counted.finite(),
                counted.len() == n,
                forall|j: int|
                    0 <= j < entries@.len() ==> t.contains_key((#[trigger] entries@[j]).0) && t[entries@[j].0] == entries@[j].1,
                forall|j: int, l: int|
                    0 <= j < l < entries@.len() ==> (#[trigger] entries@[j]).0 != (#[trigger] entries@[l]).0,
                forall|key: u128| #[trigger] counted.contains(key) ==> t.contains_key(key) && tt_bound(t[key]) == BOUND_EXACT,
                forall|key: u128| #[trigger] counted.contains(key) ==> exists|j: int| 0 <= j < i && (#[trigger] entries@[j]).0 == key,
                forall|j: int| 0 <= j < i && tt_bound((#[trigger] entries@[j]).1) == BOUND_EXACT ==> counted.contains(entries@[j].0),
            decreases entries@.len() - i,
        {
            let (_v, _l, bound) = cache_unpack(entries[i].1);
            let ghost before = counted;
            if bound == BOUND_EXACT {
                n += 1;
                proof {
                    let key = entries@[i as int].0;
                    assert(!counted.contains(key));
                    counted = counted.insert(key);
                }
            }
            proof {
                assert forall|key: u128| #[trigger] counted.contains(key) implies exists|j: int| 0 <= j < i + 1 && (#[trigger] entries@[j]).0 == key by {
                    if before.contains(key) {
                        let j = choose|j: int| 0 <= j < i && (#[trigger] entries@[j]).0 == key;
                        assert(entries@[j].0 == key);
                    } else {
                        assert(entries@[i as int].0 == key);
                    }
                }
            }
            i += 1;
        }
        proof {
            assert(counted =~= t.dom().filter(|key: u128| tt_bound(t[key]) == BOUND_EXACT)) by {
                assert forall|key: u128| t.contains_key(key) && tt_bound(t[key]) == BOUND_EXACT implies #[trigger] counted.contains(key) by {
                    let j = choose|j: int| 0 <= j < entries@.len() && (#[trigger] entries@[j]).0 == key;
                    assert(t[entries@[j].0] == entries@[j].1);
                }
            }
        }
        n
    }

    /// How many times a state's key was asked for.
    pub fn hash_calls(&self) -> (r: u64)
        ensures
            r == self.hash_count(),
    {
        self.tables.state.hash_calls
    }

    /// How many lookups settled a state.
    pub fn cache_hits(&self) -> (r: u64)
        ensures
            r == self.hit_count(),
    {
        self.tables.state.cache_hits
    }

    /// The number of nodes of the graph.
    pub fn node_count(&self) -> (r: usize)
        ensures
            r == self.size(),
    {
        self.nodes.len()
    }

    /// How many states have been seen.
    pub fn key_cache_size(&self) -> (r: usize)
        ensures
            r == self.state_keys().dom().len(),
    {
        quick_len(&self.tables.keys)
    }
}

/// The root state stands for the whole list.
proof fn lemma_root_state(words: Seq<Vec<u8>>, k: nat, nodes: Seq<DagNode>)
    requires
        list_ok(words, k),
        words.len() <= usize::MAX,
        graph_ok(words, k, nodes),
    ensures
        valid(words, blank(k), 0) == all_indices(words.len()),
        nodes[0].revealed_letters | 0 == 0,
        state_ok(blank(k), 0),
        idx_ok(all_indices(words.len()), words.len()),
{
    lemma_blank(words, k);
    lemma_has_zero();
    let all = all_indices(words.len());
    let f = |i: usize| no_wrong(words[i as int]@, blank(k), 0);
    crate::seqs::lemma_filter_all(all, f);
    let rev = nodes[0].revealed_letters;
    assert(node_ok(words, node_patterns(nodes), nodes[0]));
    if rev != 0 {
        let c = lemma_some_letter(rev);
        assert(holds(rev, c));
        assert(occurs(c, blank(k)));
    }
    assert(0u32 | 0 == 0) by (bit_vector);
}

pub proof fn lemma_or_assoc(a: u32, b: u32, c: u32)
    ensures
        (a | b) | c == a | (b | c),
{
    assert((a | b) | c == a | (b | c)) by (bit_vector);
}

/// A single word leaves nothing to tell apart.
proof fn lemma_single_form(words: Seq<Vec<u8>>, k: nat, idx: Seq<usize>, masked: u32)
    requires
        list_ok(words, k),
        idx_ok(idx, words.len()),
        idx.len() <= 1,
    ensures
        position_form(words, idx, masked, k).len() == 0,
{
    lemma_value_matrix(words, idx, masked, k);
    let q = signatures(words, idx, masked);
    let rows = crate::solver::signature::sig_rows(words, idx, masked);
    if q.len() >= 2 {
        assert(q.contains(q[0]) && q.contains(q[1]));
        assert(rows.contains(q[0]) && rows.contains(q[1]));
        assert(q[0] != q[1]);
    }
}

/// There is a way to fold.
proof fn lemma_fold_exists(words: Seq<Vec<u8>>, idx: Seq<usize>, masked: u32) -> (f: u32)
    ensures
        is_fold(words, idx, masked, f),
{
    lemma_fold_upto(words, idx, masked, 123)
}

proof fn lemma_fold_upto(words: Seq<Vec<u8>>, idx: Seq<usize>, masked: u32, c: u8) -> (f: u32)
    requires
        97 <= c <= 123,
    ensures
        forall|l: u8| #[trigger] holds(f, l) == (holds(masked, l) || (l < c && crate::solver::required::foldable(words, idx, masked, l))),
        forall|i: int| 26 <= i ==> #[trigger] crate::game::letters::bit(f, i) == crate::game::letters::bit(masked, i),
    decreases c,
{
    if c == 97 {
        masked
    } else {
        let l = (c - 1) as u8;
        let f = lemma_fold_upto(words, idx, masked, l);
        if crate::solver::required::foldable(words, idx, masked, l) {
            lemma_add_letter(f, l);
            lemma_bit_ops(f, bit_of(l));
            crate::game::letters::lemma_bit_single((l - 97) as u32);
            f | bit_of(l)
        } else {
            f
        }
    }
}

/// All required letters: those that were folded and those that split.
proof fn lemma_all_required(
    words: Seq<Vec<u8>>,
    k: nat,
    idx: Seq<usize>,
    masked: u32,
    folded: u32,
    splitting: u32,
    all_required: u32,
)
    requires
        list_ok(words, k),
        idx_ok(idx, words.len()),
        idx.len() > 0,
        is_fold(words, idx, masked, folded),
        all_required == (folded & !masked) | splitting,
        forall|l: u8|
            #![trigger holds(splitting, l)]
            holds(splitting, l) == (is_lower(l) && !holds(folded, l) && required(chosen(words, idx), l)),
    ensures
        forall|l: u8| #[trigger] holds(all_required, l) == (is_open(chosen(words, idx), letters(masked), l) && required(
            chosen(words, idx),
            l,
        )),
{
    let s = chosen(words, idx);
    let g = letters(masked);
    lemma_has_ops(folded, !masked);
    lemma_has_ops(masked, 0);
    lemma_has_ops(folded & !masked, splitting);
    lemma_chosen_plain(words, idx, k);
    assert(s.contains(words[idx[0] as int]@));
    assert forall|l: u8| #[trigger] holds(all_required, l) == (is_open(s, g, l) && required(s, l)) by {
        assert(holds(all_required, l) == (holds(folded & !masked, l) || holds(splitting, l)));
        if is_open(s, g, l) {
            lemma_open_lower(s, g, k, l);
        }
        if required(s, l) {
            assert(occurs(l, words[idx[0] as int]@));
        }
    }
}

} // verus!
