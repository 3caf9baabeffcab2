//! Memoized minimax solver with structural caching, alpha-beta pruning, move
//! ordering and canonical positions.
use dashmap::DashMap;
use vstd::prelude::*;

use crate::game::letters::{bit, lemma_bits_equal, holds, lemma_bits_below, letters, LetterSet};
use crate::game::rules::{at, is_open, lemma_at_most_25, lemma_value_is, occurs};
use crate::seqs::lemma_filter;
use crate::solver::canon::{form_key, live_col};
use crate::solver::data::SolverData;
use crate::solver::dedup::{dedup_and_form, position_key};
use crate::solver::forms::FormTable;
use crate::solver::quick::QuickTable;
use crate::solver::required::{fold_required_letters, is_fold, lemma_fold_keeps_value};
use crate::solver::search::{exact_kept, keys_kept, MemoizedSolverInner, SearchState};
use crate::solver::signature::{chosen, idx_ok, lemma_chosen_plain, list_ok, position_value, signatures};
use crate::solver::table::{
    seen_new, table_clear, table_entries, table_get, table_insert, table_len, table_map, table_new,
};
use crate::solver::trust::{
    disk_true, lemma_root_reachable, lemma_value_matrix, quick_true, reachable, table_sound,
};
use crate::solver::tt::{cache_pack, cache_unpack, replaces, replaces_kept, tt_bound, tt_value, BOUND_EXACT};
use crate::solver::warm::{all_exact, covered, has_exact, keys_walked, may_read, searches_counted, walked};

verus! {

/// The length of the words of a list; zero for an empty list.
pub open spec fn word_len(words: Seq<Vec<u8>>) -> nat {
    if words.len() == 0 {
        0
    } else {
        words[0]@.len()
    }
}

/// The words are of one length up to 32 and hold only letters.
pub open spec fn solvable(words: Seq<Vec<u8>>) -> bool {
    list_ok(words, word_len(words)) && word_len(words) <= 32
}

/// The numbers from zero to `n - 1`.
pub open spec fn all_indices(n: nat) -> Seq<usize> {
    Seq::new(n, |i: int| i as usize)
}

/// The minimax value of a word list with nothing guessed.
pub open spec fn list_value(words: Seq<Vec<u8>>) -> nat {
    position_value(words, all_indices(words.len()), 0)
}

/// A stop signal that never comes.
pub fn never() -> (r: bool)
    ensures
        !r,
{
    false
}

/// A lookup that finds nothing, for solvers without a table on disk.
pub fn no_disk(key: u128) -> (r: Option<u32>)
    ensures
        r is None,
{
    None
}

/// The numbers from zero to `n - 1`.
pub(crate) fn index_list(n: usize) -> (r: Vec<usize>)
    ensures
        r@ == all_indices(n as nat),
        idx_ok(r@, n as nat),
{
    let mut r: Vec<usize> = Vec::new();
    let mut i: usize = 0;
    while i < n
        invariant
            i <= n,
            r@.len() == i,
            forall|t: int| 0 <= t < i ==> #[trigger] r@[t] == t,
        decreases n - i,
    {
        r.push(i);
        i += 1;
    }
    assert(r@ =~= all_indices(n as nat));
    r
}

/// The length of the words of a list; zero for an empty list.
pub(crate) fn list_word_len(words: &[Vec<u8>]) -> (k: usize)
    ensures
        k == word_len(words@),
{
    if words.len() == 0 {
        0
    } else {
        words[0].len()
    }
}

/// Two tables merged: an entry of the new one is taken where the key is new to
/// the old one or where it replaces what the old one has.
pub open spec fn merged(old_table: Map<u128, u32>, new_table: Map<u128, u32>) -> Map<u128, u32> {
    Map::new(
        |key: u128| old_table.contains_key(key) || new_table.contains_key(key),
        |key: u128|
            if new_table.contains_key(key) && (!old_table.contains_key(key) || replaces(
                new_table[key],
                old_table[key],
            )) {
                new_table[key]
            } else {
                old_table[key]
            },
    )
}

/// The first table with the entries of the second added, which win.
pub open spec fn overlaid(old_table: Map<u128, u32>, new_table: Map<u128, u32>) -> Map<u128, u32> {
    old_table.union_prefer_right(new_table)
}

/// The key is among the first `n` entries.
spec fn listed(entries: Seq<(u128, u32)>, n: int, key: u128) -> bool {
    exists|j: int| 0 <= j < n && (#[trigger] entries[j]).0 == key
}

/// Adds every entry of `from` to `into`.
pub(crate) fn copy_entries(
    from: &DashMap<u128, u32>,
    from_forms: &FormTable,
    into: &mut DashMap<u128, u32>,
    into_forms: &mut FormTable,
)
    ensures
        table_sound(table_map(*old(into)), old(into_forms)@) && table_sound(table_map(*from), from_forms@) ==> table_sound(
            table_map(*final(into)),
            final(into_forms)@,
        ),
        table_map(*final(into)) == overlaid(table_map(*old(into)), table_map(*from)),
{
    let entries = table_entries(from);
    let ghost t0 = table_map(*into);
    let ghost src = table_map(*from);
    let ghost sound = table_sound(t0, into_forms@) && table_sound(src, from_forms@);
    let mut i: usize = 0;
    while i < entries.len()
        invariant
            i <= entries@.len(),
            src == table_map(*from),
            forall|key: u128| #[trigger]
                src.contains_key(key) ==> exists|j: int| 0 <= j < entries@.len() && (#[trigger] entries@[j]).0 == key,
            forall|j: int|
                0 <= j < entries@.len() ==> src.contains_key((#[trigger] entries@[j]).0) && src[entries@[j].0]
                    == entries@[j].1,
            forall|key: u128| #[trigger]
                table_map(*into).contains_key(key) == (t0.contains_key(key) || listed(entries@, i as int, key)),
            forall|key: u128| #[trigger]
                table_map(*into).contains_key(key) ==> table_map(*into)[key] == if listed(entries@, i as int, key) {
                    src[key]
                } else {
                    t0[key]
                },
            sound ==> table_sound(src, from_forms@) && table_sound(table_map(*into), into_forms@),
        decreases entries@.len() - i,
    {
        let (key, packed) = entries[i];
        let ghost before = table_map(*into);
        table_insert(into, key, packed);
        into_forms.take_over(from_forms, key);
        proof {
            assert(src[entries@[i as int].0] == entries@[i as int].1);
            assert forall|x: u128| #[trigger] listed(entries@, i + 1, x) == (x == key || listed(entries@, i as int, x)) by {
                if x == key {
                    assert(entries@[i as int].0 == x);
                }
                if listed(entries@, i as int, x) {
                    let j = choose|j: int| 0 <= j < i && (#[trigger] entries@[j]).0 == x;
                    assert(entries@[j].0 == x);
                }
            }
        }
        i += 1;
    }
    proof {
        assert forall|key: u128| src.contains_key(key) == #[trigger] listed(entries@, i as int, key) by {}
        assert(table_map(*into) =~= overlaid(t0, src));
    }
}

/// Merges the entries of a finished search into `into`.
fn merge_entries(
    from: &DashMap<u128, u32>,
    from_forms: &FormTable,
    into: &mut DashMap<u128, u32>,
    into_forms: &mut FormTable,
)
    ensures
        table_sound(table_map(*old(into)), old(into_forms)@) && table_sound(table_map(*from), from_forms@) ==> table_sound(
            table_map(*final(into)),
            final(into_forms)@,
        ),
        table_map(*final(into)) == merged(table_map(*old(into)), table_map(*from)),
{
    let entries = table_entries(from);
    let ghost t0 = table_map(*into);
    let ghost src = table_map(*from);
    let ghost sound = table_sound(t0, into_forms@) && table_sound(src, from_forms@);
    let mut i: usize = 0;
    while i < entries.len()
        invariant
            i <= entries@.len(),
            src == table_map(*from),
            forall|key: u128| #[trigger]
                src.contains_key(key) ==> exists|j: int| 0 <= j < entries@.len() && (#[trigger] entries@[j]).0 == key,
            forall|j: int|
                0 <= j < entries@.len() ==> src.contains_key((#[trigger] entries@[j]).0) && src[entries@[j].0]
                    == entries@[j].1,
            forall|j: int, l: int|
                0 <= j < l < entries@.len() ==> (#[trigger] entries@[j]).0 != (#[trigger] entries@[l]).0,
            forall|key: u128| #[trigger]
                table_map(*into).contains_key(key) == (t0.contains_key(key) || listed(entries@, i as int, key)),
            forall|key: u128| #[trigger]
                table_map(*into).contains_key(key) ==> table_map(*into)[key] == if (listed(entries@, i as int, key)) && (!t0.contains_key(key) || replaces(src[key], t0[key])) {
                    src[key]
                } else {
                    t0[key]
                },
            sound ==> table_sound(src, from_forms@) && table_sound(table_map(*into), into_forms@),
        decreases entries@.len() - i,
    {
        let (key, packed) = entries[i];
        let ghost before = table_map(*into);
        proof {
            assert(src[entries@[i as int].0] == entries@[i as int].1);
            assert(!listed(entries@, i as int, key));
        }
        let write: bool = match table_get(into, key) {
            Some(existing) => replaces_kept(packed, existing),
            None => true,
        };
        if write {
            table_insert(into, key, packed);
            into_forms.take_over(from_forms, key);
        }
        proof {
            assert forall|x: u128| #[trigger] listed(entries@, i + 1, x) == (x == key || listed(entries@, i as int, x)) by {
                if x == key {
                    assert(entries@[i as int].0 == x);
                }
                if listed(entries@, i as int, x) {
                    let j = choose|j: int| 0 <= j < i && (#[trigger] entries@[j]).0 == x;
                    assert(entries@[j].0 == x);
                }
            }
        }
        i += 1;
    }
    proof {
        assert forall|key: u128| src.contains_key(key) == #[trigger] listed(entries@, i as int, key) by {}
        assert(table_map(*into) =~= merged(t0, src));
    }
}

/// The word list of a serving solver, with its tables and the state of its
/// searches.
pub struct Serving {
    pub(crate) words: Vec<Vec<u8>>,
    pub(crate) k: usize,
    pub(crate) data: SolverData,
    pub(crate) state: SearchState,
}

/// Memoized minimax solver.
///
/// Transposition table entries are keyed by a hash of the canonical form of the
/// position, so positions that differ only in the names of letters or in dead
/// places share one. The form is kept beside the key and compared, so that a hash
/// that two forms share does no harm. Entries carry the kind of bound they are. What
/// searches find out is kept in a table across calls.
pub struct MemoizedSolver {
    cache: DashMap<u128, u32>,
    /// The canonical form behind each key of the table.
    forms: FormTable,
    hash_calls: u64,
    cache_hits: u64,
    serving: Option<Serving>,
}

/// Everything that a search over `words` from this root takes on trust: true entries on
/// disk.
pub open spec fn search_trusted<D: Fn(u128) -> Option<u32>>(
    words: Seq<Vec<u8>>,
    root: Seq<usize>,
    root_masked: u32,
    disk: D,
) -> bool {
    disk_true(words, root, root_masked, word_len(words), disk)
}

/// What the disk holds is true of a position and of what follows it: as far as play from
/// there goes, or as far as play of the whole list goes where that leads there.
pub open spec fn disk_believed<D: Fn(u128) -> Option<u32>>(words: Seq<Vec<u8>>, idx: Seq<usize>, masked: u32, disk: D) -> bool {
    let all = all_indices(words.len());
    search_trusted(words, idx, masked, disk) || (search_trusted(words, all, 0, disk) && reachable(words, all, 0, idx, masked))
}

/// A look into the table of a solver: entries can be read and not changed.
pub struct CacheView<'a> {
    entries: &'a DashMap<u128, u32>,
}

impl<'a> View for CacheView<'a> {
    type V = Map<u128, u32>;

    closed spec fn view(&self) -> Map<u128, u32> {
        table_map(*self.entries)
    }
}

impl<'a> CacheView<'a> {
    /// The entry of a key.
    pub fn get(&self, key: &u128) -> (r: Option<u32>)
        ensures
            r == if self@.contains_key(*key) {
                Some(self@[*key])
            } else {
                None
            },
    {
        table_get(self.entries, *key)
    }

    /// Whether the key has an entry.
    pub fn contains_key(&self, key: &u128) -> (r: bool)
        ensures
            r == self@.contains_key(*key),
    {
        table_get(self.entries, *key).is_some()
    }
}

impl MemoizedSolver {
    /// The entries kept across calls.
    pub closed spec fn table(&self) -> Map<u128, u32> {
        table_map(self.cache)
    }

    /// The word list that the solver serves, where it was made for one.
    pub closed spec fn served(&self) -> Option<Seq<Vec<u8>>> {
        match self.serving {
            Some(s) => Some(s.words@),
            None => None,
        }
    }

    /// The entries found while serving.
    pub closed spec fn served_table(&self) -> Map<u128, u32> {
        match self.serving {
            Some(s) => table_map(s.state.cache),
            None => Map::empty(),
        }
    }

    /// The positions with their keys that were recorded while serving.
    pub closed spec fn served_quick(&self) -> Seq<(Seq<usize>, u32, u128)> {
        match self.serving {
            Some(s) => s.state.key_cache@,
            None => Seq::empty(),
        }
    }

    pub closed spec fn wf(&self) -> bool {
        self.serving matches Some(s) ==> solvable(s.words@) && s.k == word_len(s.words@) && s.data.wf(
            s.words@,
            s.k as nat,
        ) && s.state.wf()
    }

    /// The canonical forms behind the keys of the table.
    pub closed spec fn forms(&self) -> Map<u128, Seq<u8>> {
        self.forms@
    }

    /// The canonical forms behind the keys recorded while serving.
    pub closed spec fn served_forms(&self) -> Map<u128, Seq<u8>> {
        match self.serving {
            Some(s) => s.state.forms@,
            None => Map::empty(),
        }
    }

    /// Every entry of the table is true of its canonical form.
    pub open spec fn sound(&self) -> bool {
        table_sound(self.table(), self.forms())
    }

    /// What was found while serving is true.
    pub open spec fn serves_truly(&self) -> bool {
        &&& self.served() is Some
        &&& table_sound(self.served_table(), self.served_forms())
        &&& quick_true(self.served()->0, word_len(self.served()->0), self.served_quick(), self.served_forms())
    }

    /// A solver with an empty table.
    pub fn new() -> (r: Self)
        ensures
            r.wf(),
            r.table() == Map::<u128, u32>::empty(),
            r.sound(),
            r.served() is None,
            r.hash_count() == 0,
            r.hit_count() == 0,
    {
        let cache = table_new();
        proof {
            assert(table_map(cache) =~= Map::<u128, u32>::empty());
        }
        MemoizedSolver { cache, forms: FormTable::new(), hash_calls: 0, cache_hits: 0, serving: None }
    }

    pub closed spec fn hash_count(&self) -> u64 {
        self.hash_calls
    }

    pub closed spec fn hit_count(&self) -> u64 {
        self.cache_hits
    }

    /// A solver for serving one word list: its tables are built at once, so that
    /// later calls of `solve_position` are fast.
    pub fn for_serving(words: Vec<Vec<u8>>) -> (r: Self)
        requires
            solvable(words@),
        ensures
            r.wf(),
            r.table() == Map::<u128, u32>::empty(),
            r.served() == Some(words@),
            r.served_table() == Map::<u128, u32>::empty(),
            r.served_quick().len() == 0,
            r.sound(),
            r.serves_truly(),
            r.hash_count() == 0,
            r.hit_count() == 0,
    {
        let k: usize = list_word_len(words.as_slice());
        let data = SolverData::new(words.as_slice(), k);
        let state = SearchState::new(Ghost(Seq::empty()), Ghost(0));
        let cache = table_new();
        proof {
            assert(table_map(cache) =~= Map::<u128, u32>::empty());
            assert(table_map(state.cache) =~= Map::<u128, u32>::empty());
        }
        MemoizedSolver { cache, forms: FormTable::new(), hash_calls: 0, cache_hits: 0, serving: Some(Serving { words, k, data, state }) }
    }

    /// Copy all entries of another solver's table into this one.
    pub fn copy_cache_from(&mut self, other: &MemoizedSolver)
        requires
            old(self).wf(),
        ensures
            final(self).wf(),
            final(self).table() == overlaid(old(self).table(), other.table()),
            old(self).sound() && other.sound() ==> final(self).sound(),
            old(self).serves_truly() ==> final(self).serves_truly(),
            final(self).served() == old(self).served(),
            final(self).served_table() == old(self).served_table(),
            final(self).served_quick() == old(self).served_quick(),
            final(self).hash_count() == old(self).hash_count(),
            final(self).hit_count() == old(self).hit_count(),
    {
        copy_entries(&other.cache, &other.forms, &mut self.cache, &mut self.forms);
    }

    /// The table kept across calls, for looking up.
    pub fn cache(&self) -> (r: CacheView<'_>)
        ensures
            r@ == self.table(),
    {
        CacheView { entries: &self.cache }
    }

    /// How many entries the table holds.
    pub fn cache_size(&self) -> (r: usize)
        ensures
            r == self.table().dom().len(),
    {
        table_len(&self.cache)
    }

    /// How many times a position's key was asked for.
    pub fn hash_calls(&self) -> (r: u64)
        ensures
            r == self.hash_count(),
    {
        self.hash_calls
    }

    /// How many lookups settled a search.
    pub fn cache_hits(&self) -> (r: u64)
        ensures
            r == self.hit_count(),
    {
        self.cache_hits
    }

    /// The entries to write to disk: those found while serving where the solver
    /// serves a list, else those kept across calls.
    pub fn entries_to_flush(&self) -> (r: Vec<(u128, u32)>)
        requires
            self.wf(),
        ensures
            ({
                let t = if self.served() is Some {
                    self.served_table()
                } else {
                    self.table()
                };
                &&& forall|i: int|
                    0 <= i < r@.len() ==> t.contains_key((#[trigger] r@[i]).0) && t[r@[i].0] == r@[i].1
                &&& forall|i: int, j: int|
                    0 <= i < j < r@.len() ==> (#[trigger] r@[i]).0 != (#[trigger] r@[j]).0
                &&& forall|key: u128| #[trigger]
                    t.contains_key(key) ==> exists|i: int| 0 <= i < r@.len() && (#[trigger] r@[i]).0 == key
            }),
    {
        match &self.serving {
            Some(s) => table_entries(&s.state.cache),
            None => table_entries(&self.cache),
        }
    }

    /// Forget the entries found while serving, once they have been written to
    /// disk, and the forms and positions recorded with them. Returns whether there was
    /// anything to forget from.
    pub fn evict(&mut self) -> (r: bool)
        requires
            old(self).wf(),
        ensures
            final(self).wf(),
            r == old(self).served() is Some,
            final(self).served() == old(self).served(),
            final(self).served_table() == Map::<u128, u32>::empty(),
            final(self).served_quick().len() == 0,
            old(self).served() is Some ==> final(self).serves_truly(),
            final(self).table() == old(self).table(),
            old(self).sound() ==> final(self).sound(),
            final(self).hash_count() == old(self).hash_count(),
            final(self).hit_count() == old(self).hit_count(),
    {
        match &mut self.serving {
            Some(s) => {
                table_clear(&mut s.state.cache);
                s.state.forms = FormTable::new();
                s.state.key_cache = QuickTable::new();
                proof {
                    assert(table_map(s.state.cache) =~= Map::<u128, u32>::empty());
                }
                true
            },
            None => false,
        }
    }
}

/// Merging keeps exact entries exact.
proof fn lemma_merged_exact(a: Map<u128, u32>, b: Map<u128, u32>)
    ensures
        exact_kept(a, merged(a, b)),
        exact_kept(b, merged(a, b)),
{
}

impl MemoizedSolver {
    /// Solve for the given word list, all words of one length.
    pub fn solve(&mut self, words: &[Vec<u8>]) -> (r: u32)
        requires
            old(self).wf(),
            words@.len() > 0,
            solvable(words@),
        ensures
            final(self).wf(),
            final(self).served() is None,
            exact_kept(old(self).table(), final(self).table()),
            keys_kept(old(self).table(), final(self).table()),
            r == list_value(words@),
            old(self).sound() ==> final(self).sound(),
    {
        self.solve_with_disk(words, &no_disk)
    }

    /// The same with a table on disk behind the one in memory.
    pub fn solve_with_disk<D: Fn(u128) -> Option<u32>>(&mut self, words: &[Vec<u8>], disk: &D) -> (r: u32)
        requires
            old(self).wf(),
            words@.len() > 0,
            solvable(words@),
            forall|key: u128| #[trigger] disk.requires((key,)),
        ensures
            final(self).wf(),
            final(self).served() is None,
            exact_kept(old(self).table(), final(self).table()),
            keys_kept(old(self).table(), final(self).table()),
            search_trusted(words@, all_indices(words@.len()), 0, *disk) ==> {
                &&& r == list_value(words@)
                &&& old(self).sound() ==> final(self).sound()
            },
    {
        let k: usize = list_word_len(words);
        if k == 0 {
            proof {
                lemma_empty_words(words@, all_indices(words@.len()), 0);
            }
            self.serving = None;
            return 0;
        }
        let data = SolverData::new(words, k);
        let indices = index_list(words.len());
        let mut st = SearchState::new(Ghost(indices@), Ghost(0));
        let inner = MemoizedSolverInner { words, k, data: &data, disk, stop: &never };
        proof {
            lemma_start(inner, st);
            lemma_bits_below(0, 26);
        }
        let result: u32 = if words.len() <= 25_000 {
            inner.solve_mtd(&mut st, indices.as_slice(), 0)
        } else {
            inner.solve_subset(&mut st, indices.as_slice(), 0, 0, u32::MAX)
        };
        self.finish(&st);
        proof {
            if search_trusted(words@, indices@, 0, *disk) {
                reveal(MemoizedSolverInner::trusted);
            }
        }
        result
    }

    /// Takes the counters and entries of a finished search over.
    fn finish(&mut self, st: &SearchState)
        requires
            old(self).wf(),
        ensures
            final(self).wf(),
            final(self).served() is None,
            final(self).table() == merged(old(self).table(), table_map(st.cache)),
            exact_kept(old(self).table(), final(self).table()),
            keys_kept(old(self).table(), final(self).table()),
            exact_kept(table_map(st.cache), final(self).table()),
            final(self).hash_count() == old(self).hash_count().wrapping_add(st.hash_calls),
            final(self).hit_count() == old(self).hit_count().wrapping_add(st.cache_hits),
            old(self).sound() && table_sound(table_map(st.cache), st.forms@) ==> final(self).sound(),
    {
        let ghost before = self.table();
        self.hash_calls = self.hash_calls.wrapping_add(st.hash_calls);
        self.cache_hits = self.cache_hits.wrapping_add(st.cache_hits);
        merge_entries(&st.cache, &st.forms, &mut self.cache, &mut self.forms);
        self.serving = None;
        proof {
            lemma_merged_exact(before, table_map(st.cache));
        }
    }

    /// Solve with a maximum miss budget: the value where it is at most
    /// `max_misses`, else a number above the budget that the value reaches.
    /// Entries of earlier calls help.
    pub fn solve_bounded(&mut self, words: &[Vec<u8>], max_misses: u32) -> (r: u32)
        requires
            old(self).wf(),
            words@.len() > 0,
            solvable(words@),
            max_misses < u32::MAX,
        ensures
            final(self).wf(),
            final(self).served() is None,
            exact_kept(old(self).table(), final(self).table()),
            keys_kept(old(self).table(), final(self).table()),
            old(self).sound() ==> {
                &&& list_value(words@) <= max_misses ==> r == list_value(words@)
                &&& list_value(words@) > max_misses ==> max_misses < r <= list_value(words@)
                &&& final(self).sound()
            },
    {
        self.solve_bounded_with_disk(words, max_misses, &no_disk)
    }

    /// The same with a table on disk behind the one in memory.
    pub fn solve_bounded_with_disk<D: Fn(u128) -> Option<u32>>(
        &mut self,
        words: &[Vec<u8>],
        max_misses: u32,
        disk: &D,
    ) -> (r: u32)
        requires
            old(self).wf(),
            words@.len() > 0,
            solvable(words@),
            max_misses < u32::MAX,
            forall|key: u128| #[trigger] disk.requires((key,)),
        ensures
            final(self).wf(),
            final(self).served() is None,
            exact_kept(old(self).table(), final(self).table()),
            keys_kept(old(self).table(), final(self).table()),
            search_trusted(words@, all_indices(words@.len()), 0, *disk) && old(self).sound() ==> {
                &&& list_value(words@) <= max_misses ==> r == list_value(words@)
                &&& list_value(words@) > max_misses ==> max_misses < r <= list_value(words@)
                &&& final(self).sound()
            },
    {
        let k: usize = list_word_len(words);
        if k == 0 {
            proof {
                lemma_empty_words(words@, all_indices(words@.len()), 0);
            }
            self.serving = None;
            return 0;
        }
        let data = SolverData::new(words, k);
        let indices = index_list(words.len());
        let mut st = SearchState::new(Ghost(indices@), Ghost(0));
        copy_entries(&self.cache, &self.forms, &mut st.cache, &mut st.forms);
        let inner = MemoizedSolverInner { words, k, data: &data, disk, stop: &never };
        proof {
            assert(table_map(st.cache) =~= self.table());
            lemma_seeded(inner, st);
        }
        let result: u32 = inner.solve_subset(&mut st, indices.as_slice(), 0, 0, max_misses + 1);
        self.finish(&st);
        proof {
            if search_trusted(words@, indices@, 0, *disk) {
                reveal(MemoizedSolverInner::trusted);
            }
        }
        result
    }

    /// Solve a position of the served list: the words at `indices` with the
    /// letters of `masked` guessed.
    pub fn solve_position(&mut self, indices: &[usize], masked: LetterSet) -> (r: u32)
        requires
            old(self).wf(),
            indices@.len() > 1 ==> old(self).served() is Some && idx_ok(indices@, old(self).served()->0.len()),
        ensures
            final(self).wf(),
            final(self).served() == old(self).served(),
            final(self).table() == old(self).table(),
            r <= 58,
            indices@.len() <= 1 ==> r == 0 && final(self).served_table() == old(self).served_table() && final(self).served_quick()
                == old(self).served_quick(),
            old(self).sound() ==> final(self).sound(),
            indices@.len() > 1 && old(self).serves_truly() ==> r == position_value(old(self).served()->0, indices@, masked),
            old(self).serves_truly() ==> final(self).serves_truly(),
    {
        self.solve_position_with_disk(indices, masked, &no_disk)
    }

    /// The same with a table on disk behind the one in memory.
    pub fn solve_position_with_disk<D: Fn(u128) -> Option<u32>>(
        &mut self,
        indices: &[usize],
        masked: LetterSet,
        disk: &D,
    ) -> (r: u32)
        requires
            old(self).wf(),
            indices@.len() > 1 ==> old(self).served() is Some && idx_ok(indices@, old(self).served()->0.len()),
            forall|key: u128| #[trigger] disk.requires((key,)),
        ensures
            final(self).wf(),
            final(self).served() == old(self).served(),
            final(self).table() == old(self).table(),
            r <= 58,
            indices@.len() <= 1 ==> r == 0 && final(self).served_table() == old(self).served_table() && final(self).served_quick()
                == old(self).served_quick(),
            old(self).sound() ==> final(self).sound(),
            indices@.len() > 1 && old(self).serves_truly() && disk_believed(old(self).served()->0, indices@, masked, *disk) ==> {
                &&& r == position_value(old(self).served()->0, indices@, masked)
                &&& final(self).serves_truly()
            },
            indices@.len() <= 1 && old(self).serves_truly() ==> final(self).serves_truly(),
    {
        let (r, _stopped) = self.solve_position_until(indices, masked, disk, &never);
        r
    }

    /// The same, given up once `stop` says so; it is asked at every position. Tells
    /// whether the search was given up. The result is then no less than the value, and
    /// `u32::MAX` where the search was given up at once; what was found on the way is
    /// kept.
    pub fn solve_position_until<D: Fn(u128) -> Option<u32>, S: Fn() -> bool>(
        &mut self,
        indices: &[usize],
        masked: LetterSet,
        disk: &D,
        stop: &S,
    ) -> (r: (u32, bool))
        requires
            old(self).wf(),
            indices@.len() > 1 ==> old(self).served() is Some && idx_ok(indices@, old(self).served()->0.len()),
            forall|key: u128| #[trigger] disk.requires((key,)),
            stop.requires(()),
        ensures
            final(self).wf(),
            final(self).served() == old(self).served(),
            final(self).table() == old(self).table(),
            !r.1 ==> r.0 <= 58,
            (forall|b: bool| #[trigger] stop.ensures((), b) ==> !b) ==> !r.1,
            indices@.len() > 1 && word_len(old(self).served()->0) > 0 && (forall|b: bool| #[trigger] stop.ensures((), b) ==> b) ==> r == (
                u32::MAX,
                true,
            ) && final(self).served_table() == old(self).served_table() && final(self).served_quick() == old(self).served_quick(),
            indices@.len() <= 1 ==> r == (0u32, false) && final(self).served_table() == old(self).served_table() && final(self).served_quick()
                == old(self).served_quick(),
            old(self).sound() ==> final(self).sound(),
            indices@.len() > 1 && old(self).serves_truly() && disk_believed(old(self).served()->0, indices@, masked, *disk) ==> {
                &&& r.0 >= position_value(old(self).served()->0, indices@, masked)
                &&& !r.1 ==> r.0 == position_value(old(self).served()->0, indices@, masked)
                &&& final(self).serves_truly()
            },
            indices@.len() <= 1 && old(self).serves_truly() ==> final(self).serves_truly(),
    {
        if indices.len() <= 1 {
            return (0, false);
        }
        let ghost words = self.served()->0;
        let ghost all = all_indices(words.len());
        let ghost from_all = search_trusted(words, all, 0, *disk) && self.serves_truly() && reachable(words, all, 0, indices@, masked);
        let ghost from_here = search_trusted(words, indices@, masked, *disk) && self.serves_truly();
        match &mut self.serving {
            Some(s) => {
                if s.k == 0 {
                    proof {
                        lemma_empty_words(words, indices@, masked);
                    }
                    return (0, false);
                }
                s.state.stopped = false;
                s.state.root = Ghost(if from_all { all } else { indices@ });
                s.state.root_masked = Ghost(if from_all { 0u32 } else { masked });
                let inner = MemoizedSolverInner { words: s.words.as_slice(), k: s.k, data: &s.data, disk, stop };
                proof {
                    lemma_bits_below(masked, 26);
                    lemma_root_reachable(words, indices@, masked);
                    if from_all || from_here {
                        reveal(MemoizedSolverInner::trusted);
                        assert(inner.trusted(s.state));
                    }
                }
                let r: u32 = inner.solve_subset(&mut s.state, indices, masked, 0, u32::MAX);
                proof {
                    lemma_chosen_plain(words, indices@, s.k as nat);
                    lemma_at_most_25(chosen(words, indices@), letters(masked), s.k as nat);
                    if from_all || from_here {
                        reveal(MemoizedSolverInner::trusted);
                    }
                }
                (r, s.state.stopped)
            },
            None => (0, false),
        }
    }
}

impl MemoizedSolver {
    /// Solve one position of a word list and record its exact value under its
    /// key. `words` must be the full list for this length, so that the key is the
    /// one under which a server looks the position up.
    pub fn solve_position_smp(&mut self, words: &[Vec<u8>], indices: &[usize], masked: LetterSet) -> (r: u32)
        requires
            old(self).wf(),
            solvable(words@),
            idx_ok(indices@, words@.len()),
        ensures
            final(self).wf(),
            r <= 25,
            indices@.len() == 0 ==> r == 0 && final(self).table() == old(self).table() && final(self).served() == old(self).served(),
            indices@.len() > 0 ==> final(self).served() is None,
            exact_kept(old(self).table(), final(self).table()),
            keys_kept(old(self).table(), final(self).table()),
            indices@.len() > 0 ==> forall|folded: u32| #[trigger]
                is_fold(words@, indices@, masked, folded) ==> {
                    let key = position_key(words@, indices@, folded, word_len(words@));
                    &&& final(self).table().contains_key(key)
                    &&& tt_bound(final(self).table()[key]) == BOUND_EXACT
                    &&& tt_value(final(self).table()[key]) == r
                },
            indices@.len() > 0 ==> r == position_value(words@, indices@, masked),
            old(self).sound() ==> final(self).sound(),
    {
        self.solve_position_smp_with_disk(words, indices, masked, &no_disk)
    }

    /// The same with a table on disk behind the one in memory.
    pub fn solve_position_smp_with_disk<D: Fn(u128) -> Option<u32>>(
        &mut self,
        words: &[Vec<u8>],
        indices: &[usize],
        masked: LetterSet,
        disk: &D,
    ) -> (r: u32)
        requires
            old(self).wf(),
            solvable(words@),
            idx_ok(indices@, words@.len()),
            forall|key: u128| #[trigger] disk.requires((key,)),
        ensures
            final(self).wf(),
            r <= 25,
            indices@.len() == 0 ==> r == 0 && final(self).table() == old(self).table() && final(self).served() == old(self).served(),
            indices@.len() > 0 ==> final(self).served() is None,
            exact_kept(old(self).table(), final(self).table()),
            keys_kept(old(self).table(), final(self).table()),
            indices@.len() > 0 ==> forall|folded: u32| #[trigger]
                is_fold(words@, indices@, masked, folded) ==> {
                    let key = position_key(words@, indices@, folded, word_len(words@));
                    &&& final(self).table().contains_key(key)
                    &&& tt_bound(final(self).table()[key]) == BOUND_EXACT
                    &&& tt_value(final(self).table()[key]) == r
                },
            indices@.len() > 0 && search_trusted(words@, indices@, masked, *disk) ==> {
                &&& r == position_value(words@, indices@, masked)
                &&& old(self).sound() ==> final(self).sound()
            },
            indices@.len() == 0 && old(self).sound() ==> final(self).sound(),
    {
        if indices.len() == 0 {
            return 0;
        }
        let k: usize = list_word_len(words);
        let ghost idx = indices@;
        if k == 0 {
            let packed: u32 = cache_pack(0, 0, BOUND_EXACT);
            let form: Vec<u8> = Vec::new();
            table_insert(&mut self.cache, 0, packed);
            self.forms.put(0, &form);
            self.serving = None;
            proof {
                lemma_empty_words(words@, idx, masked);
                assert(words@[idx[0] as int]@.len() == 0);
                assert forall|f: u32| #[trigger] is_fold(words@, idx, masked, f) implies position_key(words@, idx, f, 0) == 0 by {
                    lemma_empty_key(words@, idx, f);
                }
                assert(0u32 & 0x1F == 0) by (bit_vector);
            }
            return 0;
        }
        let data = SolverData::new(words, k);
        let mut st = SearchState::new(Ghost(indices@), Ghost(masked));
        let inner = MemoizedSolverInner { words, k, data: &data, disk, stop: &never };
        let ghost h = search_trusted(words@, idx, masked, *disk);
        proof {
            lemma_root_reachable(words@, idx, masked);
            lemma_bits_below(masked, 26);
            lemma_chosen_plain(words@, idx, k as nat);
            lemma_at_most_25(chosen(words@, idx), letters(masked), k as nat);
            if h {
                assert(inner.trusted(st)) by {
                    reveal(MemoizedSolverInner::trusted);
                }
            }
        }
        let found_value: u32 = if indices.len() <= 25_000 {
            inner.solve_mtd(&mut st, indices, masked)
        } else {
            inner.solve_subset(&mut st, indices, masked, 0, u32::MAX)
        };
        // No position needs more than 25 misses, whatever a table on disk says.
        let result: u32 = if found_value <= 25 {
            found_value
        } else {
            25
        };
        let folded: LetterSet = fold_required_letters(words, indices, masked);
        let (_kept, form) = dedup_and_form(words, indices, folded);
        let ghost root_key = form_key(form@);
        proof {
            lemma_fold_keeps_value(words@, idx, masked, folded);
        }
        inner.store_exact_as(&mut st, &form, result, 0, Ghost(idx), Ghost(folded));
        let ghost before = self.table();
        let ghost found = table_map(st.cache);
        self.finish(&st);
        proof {
            assert(merged(before, found)[root_key] == found[root_key]);
            assert forall|f: u32| #[trigger] is_fold(words@, idx, masked, f) implies f == folded by {
                lemma_fold_unique(words@, idx, masked, f, folded);
            }
            if h {
                reveal(MemoizedSolverInner::trusted);
            }
        }
        result
    }
}

/// The first table with the exact entries of the second added, which win.
pub open spec fn with_exact(old_table: Map<u128, u32>, new_table: Map<u128, u32>) -> Map<u128, u32> {
    Map::new(
        |key: u128| old_table.contains_key(key) || has_exact(new_table, key),
        |key: u128|
            if has_exact(new_table, key) {
                new_table[key]
            } else {
                old_table[key]
            },
    )
}

/// Adds every exact entry of `from` to `into`.
fn copy_exact(
    from: &DashMap<u128, u32>,
    from_forms: &FormTable,
    into: &mut DashMap<u128, u32>,
    into_forms: &mut FormTable,
)
    ensures
        table_sound(table_map(*old(into)), old(into_forms)@) && table_sound(table_map(*from), from_forms@) ==> table_sound(
            table_map(*final(into)),
            final(into_forms)@,
        ),
        table_map(*final(into)) == with_exact(table_map(*old(into)), table_map(*from)),
{
    let entries = table_entries(from);
    let ghost t0 = table_map(*into);
    let ghost src = table_map(*from);
    let ghost sound = table_sound(t0, into_forms@) && table_sound(src, from_forms@);
    let mut i: usize = 0;
    while i < entries.len()
        invariant
            i <= entries@.len(),
            src == table_map(*from),
            forall|key: u128| #[trigger]
                src.contains_key(key) ==> exists|j: int| 0 <= j < entries@.len() && (#[trigger] entries@[j]).0 == key,
            forall|j: int|
                0 <= j < entries@.len() ==> src.contains_key((#[trigger] entries@[j]).0) && src[entries@[j].0]
                    == entries@[j].1,
            forall|key: u128| #[trigger]
                table_map(*into).contains_key(key) == (t0.contains_key(key) || (listed(entries@, i as int, key) && has_exact(src, key))),
            forall|key: u128| #[trigger]
                table_map(*into).contains_key(key) ==> table_map(*into)[key] == if listed(entries@, i as int, key) && has_exact(src, key) {
                    src[key]
                } else {
                    t0[key]
                },
            sound ==> table_sound(src, from_forms@) && table_sound(table_map(*into), into_forms@),
        decreases entries@.len() - i,
    {
        let (key, packed) = entries[i];
        let (_v, _l, bound) = cache_unpack(packed);
        if bound == BOUND_EXACT {
            table_insert(into, key, packed);
            into_forms.take_over(from_forms, key);
        }
        proof {
            assert(src[entries@[i as int].0] == entries@[i as int].1);
            assert forall|x: u128| #[trigger] listed(entries@, i + 1, x) == (x == key || listed(entries@, i as int, x)) by {
                if x == key {
                    assert(entries@[i as int].0 == x);
                }
                if listed(entries@, i as int, x) {
                    let j = choose|j: int| 0 <= j < i && (#[trigger] entries@[j]).0 == x;
                    assert(entries@[j].0 == x);
                }
            }
        }
        i += 1;
    }
    proof {
        assert forall|key: u128| src.contains_key(key) == #[trigger] listed(entries@, i as int, key) by {}
        assert(table_map(*into) =~= with_exact(t0, src));
    }
}

/// The table is warm for a word list: there is a set of positions, the full list
/// with nothing guessed among them by its key, such that each has an exact entry
/// and so has, by its key, every position that an answer to a guess at one of
/// them leaves.
pub open spec fn is_warm(words: Seq<Vec<u8>>, table: Map<u128, u32>) -> bool {
    exists|keys: Set<u128>, positions: Set<(Seq<usize>, u32)>|
        #![trigger walked(words, word_len(words), keys, positions)]
        walked(words, word_len(words), keys, positions) && keys_walked(words, word_len(words), keys, positions)
            && all_exact(table, keys) && covered(words, word_len(words), keys, all_indices(words.len()), 0)
}

/// The table was made warm for a word list by that many searches: what `is_warm` says,
/// and how the searches relate to the keys that were gone through. There are no more
/// of them than keys, there is none where no key needed one, and where there is none
/// every key had an exact entry or got one from the disk.
pub open spec fn is_warmed<D: Fn(u128) -> Option<u32>>(
    words: Seq<Vec<u8>>,
    before: Map<u128, u32>,
    table: Map<u128, u32>,
    disk: D,
    searches: nat,
) -> bool {
    exists|keys: Set<u128>, positions: Set<(Seq<usize>, u32)>|
        #![trigger walked(words, word_len(words), keys, positions)]
        walked(words, word_len(words), keys, positions) && keys_walked(words, word_len(words), keys, positions)
            && all_exact(table, keys) && covered(words, word_len(words), keys, all_indices(words.len()), 0) && searches_counted(
            disk,
            before,
            keys,
            searches,
        )
}

/// The same without a table on disk: no search is made if and only if every key had
/// an exact entry.
pub open spec fn is_warmed_alone(words: Seq<Vec<u8>>, before: Map<u128, u32>, table: Map<u128, u32>, searches: nat) -> bool {
    exists|keys: Set<u128>, positions: Set<(Seq<usize>, u32)>|
        #![trigger walked(words, word_len(words), keys, positions)]
        walked(words, word_len(words), keys, positions) && keys_walked(words, word_len(words), keys, positions)
            && all_exact(table, keys) && covered(words, word_len(words), keys, all_indices(words.len()), 0) && keys.finite()
            && searches <= keys.len() && (searches == 0 <==> all_exact(before, keys))
}

impl MemoizedSolver {
    /// Warm the table for serving: exact entries for the positions reachable by
    /// any sequence of guesses. Returns how many had to be searched.
    pub fn warm_serving_cache(&mut self, words: &[Vec<u8>]) -> (solved: usize)
        requires
            old(self).wf(),
            solvable(words@),
        ensures
            final(self).wf(),
            final(self).served() is None,
            exact_kept(old(self).table(), final(self).table()),
            keys_kept(old(self).table(), final(self).table()),
            words@.len() > 1 ==> is_warm(words@, final(self).table()),
            words@.len() > 1 ==> is_warmed_alone(words@, old(self).table(), final(self).table(), solved as nat),
            old(self).sound() ==> final(self).sound(),
            words@.len() <= 1 ==> solved == 0,
    {
        let ghost before = self.table();
        let solved: usize = self.warm_serving_cache_with_disk(words, &no_disk);
        proof {
            if words@.len() > 1 {
                lemma_warmed_alone(words@, before, self.table(), solved as nat);
            }
        }
        solved
    }

    /// The same with a table on disk behind the one in memory.
    pub fn warm_serving_cache_with_disk<D: Fn(u128) -> Option<u32>>(&mut self, words: &[Vec<u8>], disk: &D) -> (solved: usize)
        requires
            old(self).wf(),
            solvable(words@),
            forall|key: u128| #[trigger] disk.requires((key,)),
        ensures
            final(self).wf(),
            final(self).served() is None,
            exact_kept(old(self).table(), final(self).table()),
            keys_kept(old(self).table(), final(self).table()),
            words@.len() > 1 ==> is_warm(words@, final(self).table()),
            words@.len() > 1 ==> is_warmed(words@, old(self).table(), final(self).table(), *disk, solved as nat),
            search_trusted(words@, all_indices(words@.len()), 0, *disk) && old(self).sound() ==> final(self).sound(),
            words@.len() <= 1 ==> solved == 0,
    {
        let k: usize = list_word_len(words);
        let count: usize = words.len();
        if k == 0 {
            self.serving = None;
            proof {
                lemma_empty_warm(words@, self.table(), *disk);
            }
            return 0;
        }
        let data = SolverData::new(words, k);
        let indices = index_list(count);
        let mut st = SearchState::new(Ghost(indices@), Ghost(0));
        copy_entries(&self.cache, &self.forms, &mut st.cache, &mut st.forms);
        let inner = MemoizedSolverInner { words, k, data: &data, disk, stop: &never };
        let ghost before = self.table();
        proof {
            assert(table_map(st.cache) =~= before);
        }
        let mut solved: usize = 0;
        if words.len() > 1 {
            proof {
                lemma_seeded(inner, st);
            }
            let mut visited = seen_new();
            let ghost none = visited@;
            let positions = inner.warm_recursive(&mut st, indices.as_slice(), 0, &mut solved, &mut visited);
            proof {
                assert(visited@.difference(none) =~= visited@);
                assert(walked(words@, word_len(words@), visited@, positions@));
            }
            copy_exact(&st.cache, &st.forms, &mut self.cache, &mut self.forms);
            proof {
                assert(all_exact(self.table(), visited@));
                assert(searches_counted(*disk, before, visited@, solved as nat));
                if search_trusted(words@, indices@, 0, *disk) && old(self).sound() {
                    reveal(MemoizedSolverInner::trusted);
                }
            }
        } else {
            copy_exact(&st.cache, &st.forms, &mut self.cache, &mut self.forms);
        }
        self.serving = None;
        solved
    }
}

/// Empty words leave nothing to guess.
pub proof fn lemma_empty_words(words: Seq<Vec<u8>>, idx: Seq<usize>, masked: u32)
    requires
        list_ok(words, 0),
        idx_ok(idx, words.len()),
    ensures
        position_value(words, idx, masked) == 0,
{
    let s = chosen(words, idx);
    let g = letters(masked);
    lemma_chosen_plain(words, idx, 0);
    assert forall|l: u8| !#[trigger] is_open(s, g, l) by {
        if is_open(s, g, l) {
            let w = choose|w: Seq<u8>| #[trigger] s.contains(w) && occurs(l, w);
            let j = choose|j: int| #[trigger] at(w, j, l);
            assert(0 <= j < w.len());
        }
    }
    lemma_value_is(s, g, 0);
}

/// A matrix without columns has key zero.
pub proof fn lemma_empty_key(words: Seq<Vec<u8>>, idx: Seq<usize>, masked: u32)
    ensures
        position_key(words, idx, masked, 0) == 0,
{
    lemma_filter(Seq::new(0, |j: int| j), |j: int| live_col(signatures(words, idx, masked), j));
}

/// Empty words need no entries.
proof fn lemma_empty_warm<D: Fn(u128) -> Option<u32>>(words: Seq<Vec<u8>>, table: Map<u128, u32>, disk: D)
    requires
        list_ok(words, 0),
        word_len(words) == 0,
        words.len() <= usize::MAX,
    ensures
        is_warm(words, table),
        is_warmed(words, table, table, disk, 0),
{
    let keys = Set::<u128>::empty();
    let positions = Set::<(Seq<usize>, u32)>::empty();
    let all = all_indices(words.len());
    assert(walked(words, word_len(words), keys, positions));
    assert forall|f: u32| #[trigger] is_fold(words, all, 0, f) implies signatures(words, all, f).len() <= 1 by {
        lemma_value_matrix(words, all, f, 0);
        let q = signatures(words, all, f);
        if q.len() >= 2 {
            assert(q[0] =~= q[1]);
            assert(q[0] != q[1]);
        }
    }
}

/// A lookup that finds nothing makes no key ready.
proof fn lemma_warmed_alone(words: Seq<Vec<u8>>, before: Map<u128, u32>, table: Map<u128, u32>, searches: nat)
    requires
        is_warmed(words, before, table, no_disk, searches),
    ensures
        is_warmed_alone(words, before, table, searches),
{
    let (keys, positions) = choose|keys: Set<u128>, positions: Set<(Seq<usize>, u32)>|
        #![trigger walked(words, word_len(words), keys, positions)]
        walked(words, word_len(words), keys, positions) && keys_walked(words, word_len(words), keys, positions)
            && all_exact(table, keys) && covered(words, word_len(words), keys, all_indices(words.len()), 0) && searches_counted(
            no_disk,
            before,
            keys,
            searches,
        );
    assert forall|key: u128| !may_read(no_disk, key) by {}
    assert(searches == 0 ==> all_exact(before, keys));
}

/// There is only one way to fold.
pub proof fn lemma_fold_unique(words: Seq<Vec<u8>>, idx: Seq<usize>, masked: u32, a: u32, b: u32)
    requires
        is_fold(words, idx, masked, a),
        is_fold(words, idx, masked, b),
    ensures
        a == b,
{
    assert forall|i: int| 0 <= i < 32 implies #[trigger] bit(a, i) == bit(b, i) by {
        if i < 26 {
            let l = (97 + i) as u8;
            assert(holds(a, l) == holds(b, l));
        } else {
            assert(bit(a, i) == bit(masked, i));
            assert(bit(b, i) == bit(masked, i));
        }
    }
    lemma_bits_equal(a, b);
}

/// A search with empty tables starts out trusted.
proof fn lemma_start<D: Fn(u128) -> Option<u32>, S: Fn() -> bool>(inner: MemoizedSolverInner<'_, D, S>, st: SearchState)
    requires
        inner.wf(),
        inner.words@.len() > 0,
        inner.k == word_len(inner.words@),
        st.root@ == all_indices(inner.words@.len()),
        idx_ok(st.root@, inner.words@.len()),
        st.root_masked@ == 0,
        table_map(st.cache).dom() == Set::<u128>::empty(),
        st.key_cache@.len() == 0,
    ensures
        search_trusted(inner.words@, st.root@, 0, *inner.disk) ==> inner.trusted(st),
        inner.within(st, st.root@, 0),
{
    reveal(MemoizedSolverInner::trusted);
    lemma_root_reachable(inner.words@, st.root@, 0);
}

/// So does one that is seeded with a sound table.
pub(crate) proof fn lemma_seeded<D: Fn(u128) -> Option<u32>, S: Fn() -> bool>(inner: MemoizedSolverInner<'_, D, S>, st: SearchState)
    requires
        inner.wf(),
        inner.words@.len() > 0,
        inner.k == word_len(inner.words@),
        st.root@ == all_indices(inner.words@.len()),
        idx_ok(st.root@, inner.words@.len()),
        st.root_masked@ == 0,
        st.key_cache@.len() == 0,
    ensures
        search_trusted(inner.words@, st.root@, 0, *inner.disk) && table_sound(table_map(st.cache), st.forms@) ==> inner.trusted(st),
        inner.within(st, st.root@, 0),
{
    reveal(MemoizedSolverInner::trusted);
    lemma_root_reachable(inner.words@, st.root@, 0);
}

impl Default for MemoizedSolver {
    fn default() -> (r: Self)
        ensures
            r.wf(),
            r.table() == Map::<u128, u32>::empty(),
            r.sound(),
            r.served() is None,
    {
        MemoizedSolver::new()
    }
}

} // verus!
