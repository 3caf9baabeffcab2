//! The reveal patterns that can come up for a word list, computed in advance.
use vstd::prelude::*;

use crate::game::letters::{holds, is_lower, lemma_test_letter, letter_bit, place_mask};
use crate::game::rules::occurs;
use crate::solver::pattern_store::{lemma_store_bounded, PatternNode, PatternStore};
use crate::solver::patterns::{blank, fits, lemma_closed_has_all, matching, pattern_set, reveal_at, shows};
use crate::solver::signature::list_ok;
use crate::solver::table::{ids_get, pattern_ids};
use crate::solver::word_hash::{hash_word_set, lemma_hash_order_free, word_set_hash, word_views};
use crate::sorting::perm_of;
use crate::text::{decimal, hex, push_decimal, push_hex, push_text};

verus! {

pub const DAG_VERSION: u32 = 1;

/// Every pattern of revealed letters that can come up for a word list, with the
/// indices of the words that match it.
///
/// Missed letters play no part: the words of a pattern are to be filtered by
/// them.
pub struct PrecomputedDag {
    version: u32,
    word_length: usize,
    word_set_hash: u64,
    word_count: usize,
    words: Vec<Vec<u8>>,
    store: PatternStore,
}

/// The name of the file for a list of words of this length with this hash.
pub open spec fn dag_file_name(version: u32, word_length: usize, hash: u64) -> Seq<char> {
    "v"@ + decimal(version as nat) + "_len"@ + decimal(word_length as nat) + "_"@ + hex(hash as nat, 16) + ".bin"@
}

/// The name of the file for a list of words of this length with this hash.
pub fn dag_filename(version: u32, word_length: usize, hash: u64) -> (r: String)
    ensures
        r@ == dag_file_name(version, word_length, hash),
        r@ == "v"@ + decimal(version as nat) + "_len"@ + decimal(word_length as nat) + "_"@ + hex(hash as nat, 16) + ".bin"@,
{
    let mut s = String::new();
    push_text(&mut s, "v");
    push_decimal(&mut s, version as u64);
    push_text(&mut s, "_len");
    push_decimal(&mut s, word_length as u64);
    push_text(&mut s, "_");
    push_hex(&mut s, hash, 16);
    push_text(&mut s, ".bin");
    proof {
        assert(s@ =~= dag_file_name(version, word_length, hash));
    }
    s
}

/// The patterns of a store with their words.
pub(crate) open(crate) spec fn store_map(store: PatternStore) -> Map<Seq<u8>, Seq<usize>> {
    Map::new(
        |p: Seq<u8>| store.has(p),
        |p: Seq<u8>| store.nodes@[pattern_ids(store.ids)[p] as int].matching@,
    )
}

/// The entries are patterns with their words, and no pattern is left out.
pub open spec fn lists_nodes(entries: Seq<PatternNode>, nodes: Map<Seq<u8>, Seq<usize>>) -> bool {
    &&& forall|i: int|
        0 <= i < entries.len() ==> nodes.contains_key((#[trigger] entries[i]).pattern@) && nodes[entries[i].pattern@]
            == entries[i].matching@
    &&& forall|p: Seq<u8>| #[trigger] nodes.contains_key(p) ==> exists|i: int|
        0 <= i < entries.len() && (#[trigger] entries[i]).pattern@ == p
}

/// Data with this stamp for words of this length belong to the list.
pub open spec fn belongs(stamp: (u32, u64, usize), length: usize, word_length: usize, words: Seq<Vec<u8>>) -> bool {
    stamp == (DAG_VERSION, word_set_hash(words), words.len() as usize) && length == word_length
}

impl PrecomputedDag {
    /// The patterns with the indices of their words.
    pub closed spec fn nodes(&self) -> Map<Seq<u8>, Seq<usize>> {
        store_map(self.store)
    }

    /// The patterns and their words by number.
    pub closed spec fn numbered(&self) -> Seq<(Seq<u8>, Seq<usize>)> {
        Seq::new(self.store.nodes@.len(), |i: int| (self.store.nodes@[i].pattern@, self.store.nodes@[i].matching@))
    }

    pub closed spec fn word_list(&self) -> Seq<Vec<u8>> {
        self.words@
    }

    pub closed spec fn length(&self) -> usize {
        self.word_length
    }

    /// Version, hash and number of words, as they are saved.
    pub closed spec fn stamp(&self) -> (u32, u64, usize) {
        (self.version, self.word_set_hash, self.word_count)
    }

    pub closed spec fn wf(&self) -> bool {
        self.store.indexed()
    }

    /// Build the patterns from the blank one on: each guess that hits makes new
    /// patterns of a pattern.
    pub fn build(words: Vec<Vec<u8>>) -> (r: Self)
        requires
            words@.len() > 0,
            list_ok(words@, words@[0]@.len()),
            words@[0]@.len() <= 32,
        ensures
            r.wf(),
            r.word_list() == words@,
            r.length() == words@[0]@.len(),
            r.stamp() == (DAG_VERSION, word_set_hash(words@), words@.len() as usize),
            r.stamp().0 == 1,
            r.nodes().dom() == pattern_set(words@),
            forall|p: Seq<u8>| #[trigger] r.nodes().contains_key(p) ==> r.nodes()[p] == matching(words@, p),
    {
        let k: usize = words[0].len();
        let word_set_hash: u64 = hash_word_set(words.as_slice());
        let word_count: usize = words.len();
        let mut store = PatternStore::with_blank(words.as_slice(), k);
        let mut next: usize = 0;
        proof {
            lemma_store_bounded(store, words@);
        }
        while next < store.nodes.len()
            invariant
                words@.len() > 0,
                words@.len() <= usize::MAX,
                list_ok(words@, k as nat),
                k <= 32,
                next <= store.nodes@.len() <= pattern_set(words@).len(),
                store.holds_patterns(words@),
                store.has(blank(k as nat)),
                forall|id: int, l: u8|
                    #![trigger store.expanded(words@, store.nodes@[id].pattern@, l)]
                    0 <= id < next && is_lower(l) && !occurs(l, store.nodes@[id].pattern@) ==> store.expanded(
                        words@,
                        store.nodes@[id].pattern@,
                        l,
                    ),
            decreases pattern_set(words@).len() - next,
        {
            let ghost p = store.nodes@[next as int].pattern@;
            let useful: u32 = store.useful_letters(words.as_slice(), k, next);
            let mut li: u8 = 0;
            while li < 26
                invariant
                    li <= 26,
                    next < store.nodes@.len(),
                    p == store.nodes@[next as int].pattern@,
                    list_ok(words@, k as nat),
                    k <= 32,
                    store.holds_patterns(words@),
                    store.has(blank(k as nat)),
                    forall|l: u8| #[trigger] holds(useful, l) == (is_lower(l) && !occurs(l, p) && exists|i: int|
                        0 <= i < words@.len() && fits(words@[i]@, p) && #[trigger] occurs(l, words@[i]@)),
                    forall|id: int, l: u8|
                        #![trigger store.expanded(words@, store.nodes@[id].pattern@, l)]
                        0 <= id < next && is_lower(l) && !occurs(l, store.nodes@[id].pattern@) ==> store.expanded(
                            words@,
                            store.nodes@[id].pattern@,
                            l,
                        ),
                    forall|l: u8| l < 97 + li && is_lower(l) && !occurs(l, p) ==> #[trigger] store.expanded(words@, p, l),
                decreases 26 - li,
            {
                let letter: u8 = 97 + li;
                let ghost before = store;
                proof {
                    lemma_test_letter(useful, letter);
                }
                if useful & letter_bit(letter) != 0 {
                    let _succ = store.expand_letter(words.as_slice(), k, next, letter);
                    proof {
                        assert(store.nodes@[next as int] == before.nodes@[next as int]);
                        assert forall|id: int, l: u8|
                            #![trigger store.expanded(words@, store.nodes@[id].pattern@, l)]
                            0 <= id < next && is_lower(l) && !occurs(l, store.nodes@[id].pattern@) implies store.expanded(
                            words@,
                            store.nodes@[id].pattern@,
                            l,
                        ) by {
                            assert(store.nodes@[id] == before.nodes@[id]);
                            assert(before.expanded(words@, before.nodes@[id].pattern@, l));
                            lemma_expanded_grows(before, store, words@, store.nodes@[id].pattern@, l);
                        }
                        assert forall|l: u8| l < 97 + li + 1 && is_lower(l) && !occurs(l, p) implies #[trigger] store.expanded(words@, p, l) by {
                            if l < letter {
                                lemma_expanded_grows(before, store, words@, p, l);
                            }
                        }
                    }
                } else {
                    proof {
                        if !occurs(letter, p) {
                            assert(store.expanded(words@, p, letter)) by {
                                assert(!holds(useful, letter));
                            }
                        }
                    }
                }
                li += 1;
            }
            proof {
                lemma_store_bounded(store, words@);
                assert forall|id: int, l: u8|
                    #![trigger store.expanded(words@, store.nodes@[id].pattern@, l)]
                    0 <= id < next + 1 && is_lower(l) && !occurs(l, store.nodes@[id].pattern@) implies store.expanded(
                    words@,
                    store.nodes@[id].pattern@,
                    l,
                ) by {
                    if id == next {
                        assert(store.expanded(words@, p, l));
                    }
                }
            }
            next += 1;
        }
        proof {
            lemma_all_found(store, words@, k as nat);
            assert(store_map(store).dom() =~= pattern_set(words@));
            assert forall|p: Seq<u8>| #[trigger] store_map(store).contains_key(p) implies store_map(store)[p] == matching(words@, p) by {
                assert(store.has(p));
                let id = pattern_ids(store.ids)[p] as int;
                assert(store.nodes@[id].pattern@ == p);
            }
        }
        PrecomputedDag { version: DAG_VERSION, word_length: k, word_set_hash, word_count, words, store }
    }

    /// Put saved parts together again, whatever the order of the entries. Of a pattern
    /// listed twice the first entry counts.
    pub fn from_saved(
        version: u32,
        word_length: usize,
        word_set_hash: u64,
        word_count: usize,
        words: Vec<Vec<u8>>,
        entries: Vec<PatternNode>,
    ) -> (r: Self)
        ensures
            r.wf(),
            r.word_list() == words@,
            r.length() == word_length,
            r.stamp() == (version, word_set_hash, word_count),
            forall|p: Seq<u8>| #[trigger] r.nodes().contains_key(p) <==> exists|i: int|
                0 <= i < entries@.len() && (#[trigger] entries@[i]).pattern@ == p,
            forall|i: int|
                0 <= i < entries@.len() && (forall|j: int| 0 <= j < i ==> (#[trigger] entries@[j]).pattern@ != entries@[i].pattern@)
                    ==> r.nodes()[(#[trigger] entries@[i]).pattern@] == entries@[i].matching@,
            forall|m: Map<Seq<u8>, Seq<usize>>| #[trigger] lists_nodes(entries@, m) ==> r.nodes() == m,
    {
        let mut store = PatternStore::empty();
        let mut i: usize = 0;
        while i < entries.len()
            invariant
                i <= entries@.len(),
                store.indexed(),
                forall|p: Seq<u8>| #[trigger] store.has(p) <==> exists|j: int| 0 <= j < i && (#[trigger] entries@[j]).pattern@ == p,
                forall|j: int|
                    0 <= j < i && (forall|l: int| 0 <= l < j ==> (#[trigger] entries@[l]).pattern@ != entries@[j].pattern@)
                        ==> store_map(store)[(#[trigger] entries@[j]).pattern@] == entries@[j].matching@,
            decreases entries@.len() - i,
        {
            let ghost before = store;
            let pattern: Vec<u8> = entries[i].pattern.clone();
            let members: Vec<usize> = entries[i].matching.clone();
            assert(pattern@ =~= entries@[i as int].pattern@);
            assert(members@ =~= entries@[i as int].matching@);
            let id: usize = store.add_pattern(pattern, members);
            proof {
                assert forall|p: Seq<u8>| #[trigger] store.has(p) <==> exists|j: int| 0 <= j < i + 1 && (#[trigger] entries@[j]).pattern@ == p by {
                    assert(store.has(p) == (before.has(p) || p == entries@[i as int].pattern@));
                    if p == entries@[i as int].pattern@ {
                        assert(entries@[i as int].pattern@ == p);
                    }
                    if before.has(p) {
                        let j = choose|j: int| 0 <= j < i && (#[trigger] entries@[j]).pattern@ == p;
                        assert(entries@[j].pattern@ == p);
                    }
                }
                assert forall|j: int|
                    0 <= j < i + 1 && (forall|l: int| 0 <= l < j ==> (#[trigger] entries@[l]).pattern@ != entries@[j].pattern@) implies store_map(store)[(#[trigger] entries@[j]).pattern@] == entries@[j].matching@ by {
                    let p = entries@[j].pattern@;
                    assert(store.has(p));
                    if j < i {
                        assert(before.has(p));
                        let old_id = pattern_ids(before.ids)[p] as int;
                        assert(before.nodes@[old_id].pattern@ == p);
                        assert(store.nodes@[old_id] == before.nodes@[old_id]);
                        assert(pattern_ids(store.ids)[store.nodes@[old_id].pattern@] == old_id);
                        assert(store_map(before)[p] == entries@[j].matching@);
                    } else {
                        assert(!before.has(p));
                        assert(store.nodes@[id as int].pattern@ == p);
                        assert(pattern_ids(store.ids)[store.nodes@[id as int].pattern@] == id);
                    }
                }
            }
            i += 1;
        }
        proof {
            assert forall|m: Map<Seq<u8>, Seq<usize>>| #[trigger] lists_nodes(entries@, m) implies store_map(store) == m by {
                assert(store_map(store).dom() =~= m.dom());
                assert forall|p: Seq<u8>| #[trigger] m.contains_key(p) implies store_map(store)[p] == m[p] by {
                    let j = choose|j: int| 0 <= j < entries@.len() && (#[trigger] entries@[j]).pattern@ == p;
                    let f = lemma_first_entry(entries@, j);
                    assert(entries@[f].pattern@ == p);
                }
                assert(store_map(store) =~= m);
            }
        }
        PrecomputedDag { version, word_length, word_set_hash, word_count, words, store }
    }

    /// Whether saved data belong to this version, word length and word set.
    pub fn belongs_to(&self, word_length: usize, words: &[Vec<u8>]) -> (r: bool)
        ensures
            r == belongs(self.stamp(), self.length(), word_length, words@),
    {
        let hash: u64 = hash_word_set(words);
        self.version == DAG_VERSION && self.word_length == word_length && self.word_set_hash == hash && self.word_count
            == words.len()
    }

    /// The indices of the words that match a pattern; `None` where the pattern
    /// can not come up.
    pub fn matching_words(&self, pattern: &[u8]) -> (r: Option<&[usize]>)
        requires
            self.wf(),
        ensures
            r is Some == self.nodes().contains_key(pattern@),
            r matches Some(m) ==> m@ == self.nodes()[pattern@],
    {
        match ids_get(&self.store.ids, pattern) {
            Some(id) => {
                proof {
                    assert(self.store.has(pattern@));
                    assert(pattern_ids(self.store.ids).contains_key(pattern@));
                }
                Some(self.store.nodes[id].matching.as_slice())
            },
            None => {
                proof {
                    assert(!self.store.has(pattern@));
                }
                None
            },
        }
    }

    /// The number of patterns.
    pub fn node_count(&self) -> (r: usize)
        requires
            self.wf(),
        ensures
            r == self.nodes().dom().len(),
            self.nodes().dom().finite(),
    {
        proof {
            lemma_store_len(self.store);
        }
        self.store.nodes.len()
    }

    /// The pattern with number `i` and the indices of its words, for saving.
    pub fn node(&self, i: usize) -> (r: Option<(&[u8], &[usize])>)
        requires
            self.wf(),
        ensures
            r is Some == (i < self.nodes().dom().len()),
            self.nodes().dom().len() == self.numbered().len(),
            r matches Some(n) ==> (n.0@, n.1@) == self.numbered()[i as int],
            r matches Some(n) ==> self.nodes().contains_key(n.0@) && self.nodes()[n.0@] == n.1@,
    {
        proof {
            lemma_store_len(self.store);
        }
        if i < self.store.nodes.len() {
            let n = &self.store.nodes[i];
            proof {
                assert(self.store.has(self.store.nodes@[i as int].pattern@));
            }
            Some((n.pattern.as_slice(), n.matching.as_slice()))
        } else {
            None
        }
    }

    /// The stored word list.
    pub fn words(&self) -> (r: &[Vec<u8>])
        ensures
            r@ == self.word_list(),
    {
        self.words.as_slice()
    }

    /// The length of the words.
    pub fn word_length(&self) -> (r: usize)
        ensures
            r == self.length(),
    {
        self.word_length
    }

    /// The name of the file to save to.
    pub fn filename(&self) -> (r: String)
        ensures
            r@ == dag_file_name(self.stamp().0, self.length(), self.stamp().1),
    {
        dag_filename(self.version, self.word_length, self.word_set_hash)
    }

    /// Version, hash and number of words, for saving.
    pub fn metadata(&self) -> (r: (u32, u64, usize))
        ensures
            r == self.stamp(),
    {
        (self.version, self.word_set_hash, self.word_count)
    }
}

/// The first entry with the pattern of another one.
proof fn lemma_first_entry(entries: Seq<PatternNode>, j: int) -> (f: int)
    requires
        0 <= j < entries.len(),
    ensures
        0 <= f <= j,
        entries[f].pattern@ == entries[j].pattern@,
        forall|i: int| 0 <= i < f ==> (#[trigger] entries[i]).pattern@ != entries[f].pattern@,
    decreases j,
{
    if exists|i: int| 0 <= i < j && (#[trigger] entries[i]).pattern@ == entries[j].pattern@ {
        let i = choose|i: int| 0 <= i < j && (#[trigger] entries[i]).pattern@ == entries[j].pattern@;
        lemma_first_entry(entries, i)
    } else {
        j
    }
}

/// What the numbers from zero on give is every pattern, with its words: put together
/// again from these entries, in any order, the patterns are those that were saved.
pub proof fn lemma_saved_entries(dag: PrecomputedDag, entries: Seq<PatternNode>, order: Seq<usize>)
    requires
        dag.wf(),
        perm_of(order, 0, dag.numbered().len() as int),
        entries.len() == order.len(),
        forall|i: int|
            0 <= i < entries.len() ==> ((#[trigger] entries[i]).pattern@, entries[i].matching@) == dag.numbered()[order[i] as int],
    ensures
        lists_nodes(entries, dag.nodes()),
{
    let store = dag.store;
    assert forall|i: int| 0 <= i < entries.len() implies dag.nodes().contains_key((#[trigger] entries[i]).pattern@)
        && dag.nodes()[entries[i].pattern@] == entries[i].matching@ by {
        let id = order[i] as int;
        assert(store.nodes@[id].pattern@ == entries[i].pattern@);
        assert(store.has(store.nodes@[id].pattern@));
    }
    assert forall|p: Seq<u8>| #[trigger] dag.nodes().contains_key(p) implies exists|i: int|
        0 <= i < entries.len() && (#[trigger] entries[i]).pattern@ == p by {
        assert(store.has(p));
        let id = pattern_ids(store.ids)[p];
        assert(store.nodes@[id as int].pattern@ == p);
        assert(order.contains(id));
        let i = choose|i: int| 0 <= i < order.len() && order[i] == id;
        assert(entries[i].pattern@ == p);
    }
}

/// What was built and saved for a list belongs to another list exactly where the word
/// length is the same and the words are, in whatever order; unless the two lists
/// differ and share a hash.
pub proof fn lemma_belongs(built: Seq<Vec<u8>>, words: Seq<Vec<u8>>, length: usize, word_length: usize)
    requires
        built.len() <= usize::MAX,
        words.len() <= usize::MAX,
        word_set_hash(built) == word_set_hash(words) ==> word_views(built).to_multiset() == word_views(words).to_multiset(),
    ensures
        belongs((DAG_VERSION, word_set_hash(built), built.len() as usize), length, word_length, words) <==> length == word_length
            && word_views(built).to_multiset() == word_views(words).to_multiset(),
{
    if word_views(built).to_multiset() == word_views(words).to_multiset() {
        lemma_hash_order_free(built, words);
        broadcast use vstd::seq_lib::group_to_multiset_ensures;

        assert(word_views(built).to_multiset().len() == word_views(words).to_multiset().len());
        assert(word_views(built).len() == word_views(words).len());
    }
}

/// Saving and loading: what was built for a list, saved entry by entry and put together
/// again, has the same words and patterns, and it belongs to a list exactly where the
/// word length and the words are the same; unless the two lists differ and share a hash.
pub proof fn lemma_save_load(
    built: Seq<Vec<u8>>,
    dag: PrecomputedDag,
    entries: Seq<PatternNode>,
    order: Seq<usize>,
    again: PrecomputedDag,
    word_length: usize,
    words: Seq<Vec<u8>>,
)
    requires
        built.len() <= usize::MAX,
        words.len() <= usize::MAX,
        dag.wf(),
        dag.word_list() == built,
        dag.stamp() == (DAG_VERSION, word_set_hash(built), built.len() as usize),
        perm_of(order, 0, dag.numbered().len() as int),
        entries.len() == order.len(),
        forall|i: int|
            0 <= i < entries.len() ==> ((#[trigger] entries[i]).pattern@, entries[i].matching@) == dag.numbered()[order[i] as int],
        again.word_list() == dag.word_list(),
        again.stamp() == dag.stamp(),
        again.length() == dag.length(),
        forall|m: Map<Seq<u8>, Seq<usize>>| #[trigger] lists_nodes(entries, m) ==> again.nodes() == m,
        word_set_hash(built) == word_set_hash(words) ==> word_views(built).to_multiset() == word_views(words).to_multiset(),
    ensures
        again.word_list() == built,
        again.nodes() == dag.nodes(),
        belongs(again.stamp(), again.length(), word_length, words) <==> word_length == dag.length() && word_views(
            built,
        ).to_multiset() == word_views(words).to_multiset(),
{
    lemma_saved_entries(dag, entries, order);
    lemma_belongs(built, words, dag.length(), word_length);
}

proof fn lemma_expanded_grows(a: PatternStore, b: PatternStore, words: Seq<Vec<u8>>, p: Seq<u8>, l: u8)
    requires
        a.expanded(words, p, l),
        b.extends(a),
    ensures
        b.expanded(words, p, l),
{
    assert forall|i: int| 0 <= i < words.len() && #[trigger] fits(words[i]@, p) && occurs(l, words[i]@) implies b.has(
        reveal_at(p, l, place_mask(words[i]@, l)),
    ) by {
        assert(a.has(reveal_at(p, l, place_mask(words[i]@, l))));
    }
}

/// A fully expanded store has every pattern.
proof fn lemma_all_found(store: PatternStore, words: Seq<Vec<u8>>, k: nat)
    requires
        words.len() > 0,
        words.len() <= usize::MAX,
        list_ok(words, k),
        k <= 32,
        store.holds_patterns(words),
        store.has(blank(k)),
        forall|id: int, l: u8|
            #![trigger store.expanded(words, store.nodes@[id].pattern@, l)]
            0 <= id < store.nodes@.len() && is_lower(l) && !occurs(l, store.nodes@[id].pattern@) ==> store.expanded(
                words,
                store.nodes@[id].pattern@,
                l,
            ),
    ensures
        forall|p: Seq<u8>| #[trigger] store.has(p) == shows(words, p),
{
    let s = Set::new(|p: Seq<u8>| store.has(p));
    assert forall|p: Seq<u8>, i: int, l: u8|
        #![trigger s.contains(p), occurs(l, words[i]@)]
        s.contains(p) && 0 <= i < words.len() && fits(words[i]@, p) && is_lower(l) && occurs(l, words[i]@) && !occurs(
            l,
            p,
        ) implies s.contains(reveal_at(p, l, place_mask(words[i]@, l))) by {
        let id = pattern_ids(store.ids)[p] as int;
        assert(store.has(p));
        assert(store.nodes@[id].pattern@ == p);
        assert(store.expanded(words, store.nodes@[id].pattern@, l));
    }
    lemma_closed_has_all(words, k, s);
    assert forall|p: Seq<u8>| #[trigger] store.has(p) == shows(words, p) by {
        if store.has(p) {
            let id = pattern_ids(store.ids)[p] as int;
            assert(store.nodes@[id].pattern@ == p);
        }
        if shows(words, p) {
            assert(s.contains(p));
        }
    }
}

/// A store has as many patterns as nodes.
proof fn lemma_store_len(store: PatternStore)
    requires
        store.indexed(),
    ensures
        store_map(store).dom().finite(),
        store_map(store).dom().len() == store.nodes@.len(),
{
    let ps = Seq::new(store.nodes@.len(), |i: int| store.nodes@[i].pattern@);
    assert forall|i: int, j: int| 0 <= i < ps.len() && 0 <= j < ps.len() && i != j implies ps[i] != ps[j] by {
        assert(pattern_ids(store.ids)[store.nodes@[i].pattern@] == i);
        assert(pattern_ids(store.ids)[store.nodes@[j].pattern@] == j);
    }
    ps.unique_seq_to_set();
    assert(store_map(store).dom() =~= ps.to_set()) by {
        assert forall|p: Seq<u8>| store_map(store).dom().contains(p) == ps.to_set().contains(p) by {
            if store.has(p) {
                let id = pattern_ids(store.ids)[p] as int;
                assert(ps[id] == p);
            }
            if ps.to_set().contains(p) {
                let i = choose|i: int| 0 <= i < ps.len() && ps[i] == p;
                assert(store.has(store.nodes@[i].pattern@));
            }
        }
    }
}

} // verus!
