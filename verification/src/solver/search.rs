//! Alpha-beta search over positions with a transposition table.
use dashmap::DashMap;
use vstd::prelude::*;

use crate::game::letters::{
    bit_of, bits_below, count_letters, holds, is_lower, lemma_add_letter, lemma_bits_below, lemma_some_letter,
    letter_bit, letters, only_letters, place_mask, LetterSet,
};
use crate::game::rules::{
    cost, guess_wins, is_open, lemma_at_most_25, lemma_forced_miss, lemma_guess_more_budget, lemma_guess_to_wins,
    lemma_required_letter, lemma_value, no_open, occurs, reply, required, value, wins,
};
use crate::solver::bounds::{lemma_open_lower, lemma_value_bits, lemma_value_open};
use crate::solver::data::SolverData;
use crate::solver::canon::{form_key, key_of_form};
use crate::solver::canon_laws::form_value;
use crate::solver::dedup::{dedup_and_form, dedup_only, is_dedup, lemma_dedup_lists, position_form, position_key, sig_at};
use crate::solver::forms::{forms_kept, FormTable};
use crate::solver::ordering::move_to_front;
use crate::solver::partition::{
    group, has_part, is_partition, lemma_group, lemma_reordered, order_miss_first, short_words,
};
use crate::solver::quick::QuickTable;
use crate::solver::required::{lemma_add_counts, lemma_more_letters};
use crate::solver::signature::{
    chosen, idx_ok, lemma_chosen_plain, lemma_value_same_signatures, list_ok, position_value, sig, sig_rows, signatures,
};
use crate::solver::small::{
    distinct_sigs, lemma_group_distinct, lemma_open_letter, lemma_single,
};
use crate::solver::table::{
    table_get, table_insert, table_map, table_new,
};
use crate::solver::trust::{
    disk_true, lemma_dedup_reachable, lemma_fold_reachable, lemma_group_reachable,
    is_known, lemma_position_form, lemma_same_signature_same_answer, quick_key, quick_sum, quick_true, quick_xor,
    reachable, table_sound,
};
use crate::solver::tt::{
    cache_pack, cache_unpack, claims, lemma_lookup_sound, lookup_in, packed_entry, read_entry, tt_bound, tt_value, window_ok, CacheLookup,
    BOUND_EXACT, BOUND_LOWER, BOUND_UPPER,
};

verus! {

/// What a search writes: its tables, its counters and the history scores of the
/// letters. The root of the search is kept for the proofs.
pub struct SearchState {
    pub(crate) cache: DashMap<u128, u32>,
    /// The canonical form behind each key.
    pub(crate) forms: FormTable,
    pub(crate) key_cache: QuickTable,
    pub(crate) hash_calls: u64,
    pub(crate) cache_hits: u64,
    pub(crate) history: Vec<u32>,
    /// The search was given up, so its result means nothing.
    pub(crate) stopped: bool,
    pub(crate) root: Ghost<Seq<usize>>,
    pub(crate) root_masked: Ghost<u32>,
}

impl SearchState {
    /// One history score for each letter.
    pub open(crate) spec fn wf(&self) -> bool {
        self.history@.len() == 26
    }

    /// Empty tables, for a search from the given root.
    pub(crate) fn new(Ghost(root): Ghost<Seq<usize>>, Ghost(root_masked): Ghost<u32>) -> (r: Self)
        ensures
            r.wf(),
            r.root@ == root,
            r.root_masked@ == root_masked,
            table_map(r.cache).dom() == Set::<u128>::empty(),
            r.forms@ == Map::<u128, Seq<u8>>::empty(),
            r.key_cache@.len() == 0,
            r.hash_calls == 0,
            r.cache_hits == 0,
            !r.stopped,
    {
        let mut history: Vec<u32> = Vec::new();
        let mut i: usize = 0;
        while i < 26
            invariant
                i <= 26,
                history@.len() == i,
            decreases 26 - i,
        {
            history.push(0);
            i += 1;
        }
        SearchState {
            cache: table_new(),
            forms: FormTable::new(),
            key_cache: QuickTable::new(),
            hash_calls: 0,
            cache_hits: 0,
            history,
            stopped: false,
            root: Ghost(root),
            root_masked: Ghost(root_masked),
        }
    }
}

/// A search over one word list. `disk` looks a key up in a table kept outside
/// memory.
pub struct MemoizedSolverInner<'a, D, S> {
    pub(crate) words: &'a [Vec<u8>],
    pub(crate) k: usize,
    pub(crate) data: &'a SolverData,
    pub(crate) disk: &'a D,
    /// Asked at every position: whether to give the search up.
    pub(crate) stop: &'a S,
}

/// An upper limit for what a search may report, however full of nonsense its
/// tables are.
pub open spec fn room(masked: u32) -> int {
    58 - bits_below(masked, 26)
}

/// What a part leads to: its miss, if it is one, and the value of what remains.
pub open spec fn part_value(words: Seq<Vec<u8>>, part: (u32, Vec<usize>), masked: u32, l: u8) -> int {
    (if part.0 == 0 {
        1int
    } else {
        0int
    }) + position_value(words, part.1@, masked | bit_of(l))
}

/// What the parts lead to bounds the value of the guess.
pub proof fn lemma_parts_guess(
    words: Seq<Vec<u8>>,
    idx: Seq<usize>,
    masked: u32,
    l: u8,
    parts: Seq<(u32, Vec<usize>)>,
    b: int,
)
    requires
        short_words(words),
        idx_ok(idx, words.len()),
        is_lower(l),
        is_partition(words, idx, l, parts),
    ensures
        (forall|a: int| 0 <= a < parts.len() ==> part_value(words, #[trigger] parts[a], masked, l) <= b) ==> guess_wins(
            chosen(words, idx),
            letters(masked),
            l,
            b,
        ),
        (exists|a: int| 0 <= a < parts.len() && part_value(words, #[trigger] parts[a], masked, l) >= b)
            ==> !guess_wins(chosen(words, idx), letters(masked), l, b - 1),
{
    let s = chosen(words, idx);
    let g = letters(masked);
    lemma_add_letter(masked, l);
    assert forall|t: int| 0 <= t < idx.len() implies ({
        let w = words[#[trigger] idx[t] as int]@;
        let m = place_mask(w, l);
        reply(s, l, w) == chosen(words, group(words, idx, l, m)) && cost(l, w) == if m == 0 { 1int } else { 0int }
    }) by {
        assert(idx.contains(idx[t]));
        lemma_group(words, idx, l, place_mask(words[idx[t] as int]@, l));
    }
    if forall|a: int| 0 <= a < parts.len() ==> part_value(words, #[trigger] parts[a], masked, l) <= b {
        assert forall|w: Seq<u8>| #[trigger] s.contains(w) implies wins(reply(s, l, w), g.insert(l), b - cost(l, w)) by {
            let t = choose|t: int| 0 <= t < idx.len() && words[#[trigger] idx[t] as int]@ == w;
            assert(has_part(parts, place_mask(words[idx[t] as int]@, l)));
            let a = choose|a: int| 0 <= a < parts.len() && (#[trigger] parts[a]).0 == place_mask(w, l);
            assert(part_value(words, parts[a], masked, l) <= b);
            lemma_value(reply(s, l, w), g.insert(l), b - cost(l, w));
        }
    }
    if exists|a: int| 0 <= a < parts.len() && part_value(words, #[trigger] parts[a], masked, l) >= b {
        let a = choose|a: int| 0 <= a < parts.len() && part_value(words, #[trigger] parts[a], masked, l) >= b;
        lemma_group(words, idx, l, parts[a].0);
        let i = parts[a].1@[0];
        assert(parts[a].1@.contains(i));
        assert(idx.contains(i));
        let t = choose|t: int| 0 <= t < idx.len() && idx[t] == i;
        let w = words[idx[t] as int]@;
        assert(s.contains(w));
        if guess_wins(s, g, l, b - 1) {
            assert(wins(reply(s, l, w), g.insert(l), b - 1 - cost(l, w)));
            lemma_value(reply(s, l, w), g.insert(l), b - 1 - cost(l, w));
        }
    }
}

/// What a lookup may be used for: a hit is a valid result for the window, and
/// after a miss a valid result for the narrowed window is one for the full
/// window.
pub open spec fn lookup_ok(r: CacheLookup, v: int, alpha: u32, beta: u32) -> bool {
    match r {
        CacheLookup::Hit(val) => window_ok(v, val as int, alpha as int, beta as int),
        CacheLookup::Miss { tt_move, alpha: a, beta: b } => forall|x: int| #[trigger]
            window_ok(v, x, a as int, b as int) ==> window_ok(v, x, alpha as int, beta as int),
    }
}

/// The kind of bound that a result of a search with this window is.
pub open spec fn bound_kind(best: u32, alpha: u32, beta: u32) -> u32 {
    if best <= alpha {
        BOUND_UPPER
    } else if best >= beta {
        BOUND_LOWER
    } else {
        BOUND_EXACT
    }
}

/// The table after a result has been recorded: an exact value always is, a bound
/// where the key is new or holds a looser bound of the same kind.
pub open spec fn table_after(
    table: Map<u128, u32>,
    key: u128,
    best: u32,
    best_letter: u8,
    alpha: u32,
    beta: u32,
) -> Map<u128, u32> {
    let bound = bound_kind(best, alpha, beta);
    let write = bound == BOUND_EXACT || !table.contains_key(key) || (tt_bound(table[key]) == bound && (if bound
        == BOUND_UPPER {
        best < tt_value(table[key])
    } else {
        best > tt_value(table[key])
    }));
    if write {
        table.insert(key, packed_entry(best, best_letter, bound))
    } else {
        table
    }
}

/// Keys with an exact entry still have one.
pub open spec fn exact_kept(before: Map<u128, u32>, after: Map<u128, u32>) -> bool {
    forall|key: u128| #[trigger]
        before.contains_key(key) && tt_bound(before[key]) == BOUND_EXACT ==> after.contains_key(key)
            && tt_bound(after[key]) == BOUND_EXACT
}

/// Every key that had an entry still has one.
pub open spec fn keys_kept(before: Map<u128, u32>, after: Map<u128, u32>) -> bool {
    forall|key: u128| #[trigger] before.contains_key(key) ==> after.contains_key(key)
}

/// A cheap order-independent hash of a position.
pub(crate) fn fast_index_key(indices: &[usize], masked: LetterSet) -> (r: u64)
    ensures
        r == quick_key(indices@, masked),
{
    let mut h: u64 = 0;
    let mut x: u64 = 0;
    let mut i: usize = 0;
    while i < indices.len()
        invariant
            i <= indices@.len(),
            h == quick_sum(indices@, i as nat),
            x == quick_xor(indices@, i as nat),
        decreases indices@.len() - i,
    {
        let mix: u64 = (indices[i] as u64).wrapping_mul(0x517c_c1b7_2722_0a95);
        h = h.wrapping_add(mix);
        x = x ^ mix;
        i += 1;
    }
    h = h.wrapping_add((x << 17u64) | (x >> 47u64));
    h = h ^ (masked as u64).wrapping_mul(0x9e37_79b9_7f4a_7c15);
    h = h ^ ((indices.len() as u64) << 48u64);
    h ^ (h >> 33u64)
}

/// A position is settled by its table entry, or it is open with its deduplicated
/// words and its key. The key is missing where it belongs to another canonical form.
enum Keyed {
    Settled(u32),
    Open(Vec<usize>, Option<u128>),
}

impl<'a, D: Fn(u128) -> Option<u32>, S: Fn() -> bool> MemoizedSolverInner<'a, D, S> {
    pub open(crate) spec fn wf(&self) -> bool {
        &&& self.data.wf(self.words@, self.k as nat)
        &&& self.k >= 1
        &&& forall|key: u128| #[trigger] self.disk.requires((key,))
        &&& self.stop.requires(())
    }

    /// The search is never given up.
    pub open(crate) spec fn patient(&self) -> bool {
        forall|b: bool| #[trigger] self.stop.ensures((), b) ==> !b
    }

    /// The search is given up whenever that is asked.
    pub open(crate) spec fn hasty(&self) -> bool {
        forall|b: bool| #[trigger] self.stop.ensures((), b) ==> b
    }

    /// How `stopped` may change: a search that was given up stays so, and one that
    /// nobody gives up is not.
    pub open(crate) spec fn stops(&self, before: SearchState, after: SearchState) -> bool {
        &&& before.stopped ==> after.stopped
        &&& self.patient() && !before.stopped ==> !after.stopped
    }

    /// The tables may be believed: what the disk returns is true, and so is every
    /// entry.
    #[verifier::opaque]
    pub open(crate) spec fn trusted(&self, st: SearchState) -> bool {
        let root = st.root@;
        let rm = st.root_masked@;
        let k = self.k as nat;
        &&& idx_ok(root, self.words@.len())
        &&& disk_true(self.words@, root, rm, k, *self.disk)
        &&& table_sound(table_map(st.cache), st.forms@)
        &&& quick_true(self.words@, k, st.key_cache@, st.forms@)
    }

    /// The key is that of the position, and the form behind it is too.
    pub open(crate) spec fn keyed(&self, st: SearchState, key: u128, idx: Seq<usize>, masked: u32) -> bool {
        key == position_key(self.words@, idx, masked, self.k as nat) && is_known(self.words@, idx, masked, self.k as nat, st.forms@)
    }

    /// The position is within reach of the root of the search.
    pub open(crate) spec fn within(&self, st: SearchState, idx: Seq<usize>, masked: u32) -> bool {
        reachable(self.words@, st.root@, st.root_masked@, idx, masked)
    }

    /// `found` is the entry for the key: the one in memory, or else what the disk has.
    pub open(crate) spec fn entry_found(&self, table: Map<u128, u32>, key: u128, found: Option<u32>) -> bool {
        if table.contains_key(key) {
            found == Some(table[key])
        } else {
            self.disk.ensures((key,), found)
        }
    }

    /// Looking the key up leads from the one state to the other with the answer `r`:
    /// the entry found is read against the window and is in memory from then on, and
    /// a hit is counted.
    pub open(crate) spec fn looks_up(&self, before: SearchState, key: u128, alpha: u32, beta: u32, r: CacheLookup, after: SearchState) -> bool {
        &&& exists|found: Option<u32>| #[trigger]
            self.entry_found(table_map(before.cache), key, found) && match found {
                Some(packed) => r == lookup_in(packed, alpha, beta) && table_map(after.cache) == table_map(before.cache).insert(key, packed),
                None => r == (CacheLookup::Miss { tt_move: None, alpha, beta }) && table_map(after.cache) == table_map(before.cache),
            }
        &&& after.cache_hits == if r is Hit {
            before.cache_hits.wrapping_add(1)
        } else {
            before.cache_hits
        }
        &&& after.hash_calls == before.hash_calls
        &&& after.key_cache == before.key_cache
        &&& after.forms == before.forms
        &&& after.history == before.history
        &&& after.stopped == before.stopped
        &&& after.root@ == before.root@
        &&& after.root_masked@ == before.root_masked@
    }

    /// Looks a position's key up in memory and then on disk; what the disk has is
    /// kept in memory from then on.
    pub(crate) fn cache_lookup(
        &self,
        st: &mut SearchState,
        key: u128,
        alpha: u32,
        beta: u32,
        Ghost(idx): Ghost<Seq<usize>>,
        Ghost(masked): Ghost<u32>,
    ) -> (r: CacheLookup)
        requires
            self.wf(),
            old(st).wf(),
            alpha < beta,
        ensures
            final(st).wf(),
            final(st).root@ == old(st).root@,
            final(st).root_masked@ == old(st).root_masked@,
            final(st).key_cache == old(st).key_cache,
            final(st).forms == old(st).forms,
            exact_kept(table_map(old(st).cache), table_map(final(st).cache)),
            forms_kept(old(st).forms@, final(st).forms@),
            table_map(old(st).cache).contains_key(key) ==> r == lookup_in(table_map(old(st).cache)[key], alpha, beta),
            self.looks_up(*old(st), key, alpha, beta, r, *final(st)),
            r matches CacheLookup::Hit(val) ==> val <= 31,
            r matches CacheLookup::Miss { tt_move, alpha: a, beta: b } ==> alpha <= a < b <= beta && (a == alpha || a <= 31),
            self.trusted(*old(st)) && self.within(*old(st), idx, masked) && self.keyed(*old(st), key, idx, masked) ==> self.trusted(*final(st)) && lookup_ok(
                r,
                position_value(self.words@, idx, masked) as int,
                alpha,
                beta,
            ),
    {
        let ghost v = position_value(self.words@, idx, masked) as int;
        let ghost h = self.trusted(*st) && self.within(*st, idx, masked) && self.keyed(*st, key, idx, masked);
        let ghost st0 = *st;
        let found: Option<u32> = table_get(&st.cache, key);
        let entry: Option<u32> = match found {
            Some(packed) => {
                proof {
                    if h {
                        assert(claims(packed, v)) by {
                            reveal(MemoizedSolverInner::trusted);
                            lemma_position_form(self.words@, self.k as nat, idx, masked);
                        }
                    }
                }
                Some(packed)
            },
            None => {
                let stored: Option<u32> = (self.disk)(key);
                match stored {
                    Some(packed) => {
                        table_insert(&mut st.cache, key, packed);
                        proof {
                            if h {
                                reveal(MemoizedSolverInner::trusted);
                                assert(self.disk.ensures((key,), stored));
                                assert(claims(packed, v));
                                lemma_position_form(self.words@, self.k as nat, idx, masked);
                            }
                        }
                    },
                    None => {},
                }
                stored
            },
        };
        let r: CacheLookup = match entry {
            Some(packed) => {
                proof {
                    if h {
                        lemma_lookup_sound(packed, alpha, beta, v);
                    }
                    let p = packed;
                    assert(p & 0x1F <= 31) by (bit_vector);
                }
                read_entry(packed, alpha, beta)
            },
            None => CacheLookup::Miss { tt_move: None, alpha, beta },
        };
        if let CacheLookup::Hit(_) = r {
            st.cache_hits = st.cache_hits.wrapping_add(1);
        }
        proof {
            assert(self.entry_found(table_map(st0.cache), key, entry));
            if let Some(packed) = entry {
                assert(table_map(st.cache) =~= table_map(st0.cache).insert(key, packed));
            }
            if h {
                assert(self.trusted(*st)) by {
                    reveal(MemoizedSolverInner::trusted);
                }
            }
        }
        r
    }

    /// Records the exact value of a position.
    pub(crate) fn store_exact(
        &self,
        st: &mut SearchState,
        key: u128,
        val: u32,
        letter: u8,
        Ghost(idx): Ghost<Seq<usize>>,
        Ghost(masked): Ghost<u32>,
    )
        requires
            self.wf(),
            old(st).wf(),
        ensures
            final(st).wf(),
            final(st).root@ == old(st).root@,
            final(st).root_masked@ == old(st).root_masked@,
            final(st).key_cache == old(st).key_cache,
            final(st).forms == old(st).forms,
            exact_kept(table_map(old(st).cache), table_map(final(st).cache)),
            forms_kept(old(st).forms@, final(st).forms@),
            final(st).hash_calls == old(st).hash_calls,
            final(st).cache_hits == old(st).cache_hits,
            final(st).stopped == old(st).stopped,
            table_map(final(st).cache) == table_map(old(st).cache).insert(key, packed_entry(val, letter, BOUND_EXACT)),
            tt_bound(packed_entry(val, letter, BOUND_EXACT)) == BOUND_EXACT,
            tt_value(packed_entry(val, letter, BOUND_EXACT)) == val & 0x1F,
            val <= 31 ==> tt_value(packed_entry(val, letter, BOUND_EXACT)) == val,
            self.trusted(*old(st)) && self.within(*old(st), idx, masked) && self.keyed(*old(st), key, idx, masked) && val == position_value(self.words@, idx, masked) && val <= 31 ==> self.trusted(*final(st)),
    {
        let ghost st0 = *st;
        let packed: u32 = cache_pack(val, letter, BOUND_EXACT);
        table_insert(&mut st.cache, key, packed);
        proof {
            if self.trusted(st0) && self.within(st0, idx, masked) && self.keyed(st0, key, idx, masked) && val == position_value(self.words@, idx, masked) && val <= 31 {
                reveal(MemoizedSolverInner::trusted);
                lemma_position_form(self.words@, self.k as nat, idx, masked);
            }
        }
    }

    /// Records the exact value of a position under its key, also where the key belonged
    /// to another canonical form so far.
    pub(crate) fn store_exact_as(
        &self,
        st: &mut SearchState,
        form: &Vec<u8>,
        val: u32,
        letter: u8,
        Ghost(idx): Ghost<Seq<usize>>,
        Ghost(masked): Ghost<u32>,
    )
        requires
            self.wf(),
            old(st).wf(),
        ensures
            final(st).wf(),
            final(st).root@ == old(st).root@,
            final(st).root_masked@ == old(st).root_masked@,
            exact_kept(table_map(old(st).cache), table_map(final(st).cache)),
            final(st).hash_calls == old(st).hash_calls,
            final(st).cache_hits == old(st).cache_hits,
            final(st).stopped == old(st).stopped,
            table_map(final(st).cache) == table_map(old(st).cache).insert(form_key(form@), packed_entry(val, letter, BOUND_EXACT)),
            tt_bound(packed_entry(val, letter, BOUND_EXACT)) == BOUND_EXACT,
            tt_value(packed_entry(val, letter, BOUND_EXACT)) == val & 0x1F,
            val <= 31 ==> tt_value(packed_entry(val, letter, BOUND_EXACT)) == val,
            self.trusted(*old(st)) && idx_ok(idx, self.words@.len()) && idx.len() > 0 && form@ == position_form(
                self.words@,
                idx,
                masked,
                self.k as nat,
            ) && val == position_value(self.words@, idx, masked) && val <= 31 ==> self.trusted(*final(st)),
    {
        let ghost st0 = *st;
        let key: u128 = key_of_form(form);
        let own: bool = st.forms.accept(key, form);
        if !own {
            st.forms.put(key, form);
            st.key_cache = QuickTable::new();
        }
        let packed: u32 = cache_pack(val, letter, BOUND_EXACT);
        table_insert(&mut st.cache, key, packed);
        proof {
            if self.trusted(st0) && idx_ok(idx, self.words@.len()) && idx.len() > 0 && form@ == position_form(
                self.words@,
                idx,
                masked,
                self.k as nat,
            ) && val == position_value(self.words@, idx, masked) && val <= 31 {
                reveal(MemoizedSolverInner::trusted);
                lemma_position_form(self.words@, self.k as nat, idx, masked);
                if own {
                    lemma_forms_grow(self.words@, self.k as nat, table_map(st0.cache), st0.key_cache@, st0.forms@, st.forms@);
                }
            }
        }
    }

    /// Records the result of a search with the window from `alpha` to `beta`: an
    /// upper bound where it stayed within `alpha`, a lower bound where it reached
    /// `beta`, else an exact value. A bound never replaces an exact value, nor a
    /// bound of the other kind, nor a tighter one.
    pub(crate) fn cache_store(
        &self,
        st: &mut SearchState,
        key: u128,
        best: u32,
        best_letter: u8,
        alpha: u32,
        beta: u32,
        Ghost(idx): Ghost<Seq<usize>>,
        Ghost(masked): Ghost<u32>,
    )
        requires
            self.wf(),
            old(st).wf(),
            alpha < beta,
        ensures
            final(st).wf(),
            final(st).root@ == old(st).root@,
            final(st).root_masked@ == old(st).root_masked@,
            final(st).key_cache == old(st).key_cache,
            final(st).forms == old(st).forms,
            exact_kept(table_map(old(st).cache), table_map(final(st).cache)),
            forms_kept(old(st).forms@, final(st).forms@),
            final(st).hash_calls == old(st).hash_calls,
            final(st).cache_hits == old(st).cache_hits,
            final(st).stopped == old(st).stopped,
            table_map(final(st).cache) == table_after(table_map(old(st).cache), key, best, best_letter, alpha, beta),
            self.trusted(*old(st)) && self.within(*old(st), idx, masked) && self.keyed(*old(st), key, idx, masked) && window_ok(position_value(self.words@, idx, masked) as int, best as int, alpha as int, beta as int)
                && best <= 31 ==> self.trusted(*final(st)),
    {
        let ghost st0 = *st;
        let bound: u32 = if best <= alpha {
            BOUND_UPPER
        } else if best >= beta {
            BOUND_LOWER
        } else {
            BOUND_EXACT
        };
        let packed: u32 = cache_pack(best, best_letter, bound);
        let write: bool = if bound == BOUND_EXACT {
            true
        } else {
            match table_get(&st.cache, key) {
                Some(existing) => {
                    let (old_val, _l, old_bound) = cache_unpack(existing);
                    old_bound == bound && (if bound == BOUND_UPPER {
                        best < old_val
                    } else {
                        best > old_val
                    })
                },
                None => true,
            }
        };
        if write {
            table_insert(&mut st.cache, key, packed);
            proof {
                if self.trusted(st0) && self.within(st0, idx, masked) && self.keyed(st0, key, idx, masked) && window_ok(
                    position_value(self.words@, idx, masked) as int,
                    best as int,
                    alpha as int,
                    beta as int,
                ) && best <= 31 {
                    reveal(MemoizedSolverInner::trusted);
                    lemma_position_form(self.words@, self.k as nat, idx, masked);
                }
            }
        }
    }

    /// The number of misses that guessing `letter` leads to, as far as it matters:
    /// exact where it is below `cutoff`, else a lower bound. Once the search is given
    /// up it is `cutoff`, so that the letter does not look good.
    fn evaluate_letter(
        &self,
        st: &mut SearchState,
        indices: &[usize],
        masked: LetterSet,
        letter: u8,
        cutoff: u32,
    ) -> (r: u32)
        requires
            self.wf(),
            old(st).wf(),
            !old(st).stopped,
            idx_ok(indices@, self.words@.len()),
            indices@.len() > 0,
            indices@.no_duplicates(),
            distinct_sigs(self.words@, indices@, masked),
            is_lower(letter),
            !holds(masked, letter),
            cutoff > 0,
        ensures
            final(st).wf(),
            final(st).root@ == old(st).root@,
            final(st).root_masked@ == old(st).root_masked@,
            exact_kept(table_map(old(st).cache), table_map(final(st).cache)),
            forms_kept(old(st).forms@, final(st).forms@),
            self.stops(*old(st), *final(st)),
            !final(st).stopped ==> r <= room(masked),
            final(st).stopped ==> r == cutoff,
            self.trusted(*old(st)) && self.within(*old(st), indices@, masked) ==> {
                &&& self.trusted(*final(st))
                &&& !final(st).stopped && r < cutoff ==> guess_wins(chosen(self.words@, indices@), letters(masked), letter, r as int)
                &&& !final(st).stopped ==> !guess_wins(chosen(self.words@, indices@), letters(masked), letter, r - 1)
            },
        decreases 26 - bits_below(masked, 26), 0int,
    {
        let ghost words = self.words@;
        let ghost k = self.k as nat;
        let ghost idx = indices@;
        let ghost h = self.trusted(*st) && self.within(*st, idx, masked);
        let ghost root = st.root@;
        let ghost rm = st.root_masked@;
        let grouped = self.data.partition(Ghost(self.words@), Ghost(self.k as nat), indices, letter);
        let n_parts: usize = grouped.len();
        let ordered = order_miss_first(grouped);
        let new_masked: LetterSet = masked | letter_bit(letter);
        proof {
            assert(short_words(words));
            lemma_reordered(words, idx, letter, grouped@, ordered@);
            lemma_add_counts(masked, letter, 26);
            lemma_bits_below(new_masked, 26);
            if h {
                assert(idx_ok(root, words.len())) by {
                    reveal(MemoizedSolverInner::trusted);
                }
            }
        }
        let mut worst: u32 = 0;
        let mut established: bool = false;
        let mut i: usize = 0;
        while i < ordered.len()
            invariant
                i <= ordered@.len(),
                self.wf(),
                st.wf(),
                !st.stopped,
                !old(st).stopped,
                words == self.words@,
                k == self.k as nat,
                idx == indices@,
                idx_ok(idx, words.len()),
                idx.no_duplicates(),
                distinct_sigs(words, idx, masked),
                short_words(words),
                is_lower(letter),
                !holds(masked, letter),
                cutoff > 0,
                new_masked == masked | bit_of(letter),
                bits_below(new_masked, 26) == bits_below(masked, 26) + 1,
                bits_below(new_masked, 26) <= 26,
                is_partition(words, idx, letter, ordered@),
                st.root@ == root,
                st.root_masked@ == rm,
                root == old(st).root@,
                rm == old(st).root_masked@,
                exact_kept(table_map(old(st).cache), table_map(st.cache)),
                forms_kept(old(st).forms@, st.forms@),
                h == (self.trusted(*old(st)) && self.within(*old(st), idx, masked)),
                h ==> self.trusted(*st),
                h ==> reachable(words, root, rm, idx, masked) && idx_ok(root, words.len()),
                worst < cutoff,
                worst <= room(masked),
                h ==> forall|a: int| 0 <= a < i ==> part_value(words, #[trigger] ordered@[a], masked, letter) <= worst,
                h && worst > 0 ==> exists|a: int|
                    0 <= a < ordered@.len() && part_value(words, #[trigger] ordered@[a], masked, letter) >= worst,
            decreases ordered@.len() - i,
        {
            let subset: &Vec<usize> = &ordered[i].1;
            let miss_cost: u32 = if ordered[i].0 == 0 { 1 } else { 0 };
            let ghost part = ordered@[i as int];
            proof {
                assert(part.1@ == group(words, idx, letter, part.0) && part.1@.len() > 0);
                lemma_group(words, idx, letter, part.0);
                lemma_group_distinct(words, k, idx, masked, letter, part.0);
                lemma_chosen_plain(words, part.1@, k);
                lemma_at_most_25(chosen(words, part.1@), letters(new_masked), k);
                if h {
                    lemma_group_reachable(words, k, root, rm, idx, masked, letter, part.0);
                }
            }
            if miss_cost >= cutoff {
                proof {
                    assert(part_value(words, ordered@[i as int], masked, letter) >= cutoff);
                    lemma_parts_guess(words, idx, masked, letter, ordered@, cutoff as int);
                }
                return cutoff;
            }
            let ghost pv = part_value(words, part, masked, letter);
            if subset.len() <= 1 {
                proof {
                    lemma_single(words, part.1@, new_masked);
                }
                if miss_cost > worst {
                    worst = miss_cost;
                }
                established = true;
            } else if subset.len() == 2 {
                proof {
                    assert(part.1@ =~= seq![part.1@[0], part.1@[1]]);
                }
                let val: u32 = miss_cost + self.data.solve_two_words(
                    Ghost(self.words@),
                    Ghost(self.k as nat),
                    subset[0],
                    subset[1],
                    new_masked,
                );
                if val > worst {
                    worst = val;
                }
                established = true;
            } else {
                let present: u32 = self.data.present_letters(
                    Ghost(self.words@),
                    Ghost(self.k as nat),
                    subset.as_slice(),
                    new_masked,
                );
                let n_useful: u32 = count_letters(present);
                proof {
                    lemma_value_open(chosen(words, part.1@), letters(new_masked), k, present);
                }
                if miss_cost + n_useful > worst {
                    let child_alpha: u32 = if worst >= miss_cost { worst - miss_cost } else { 0 };
                    let child_beta: u32 = cutoff - miss_cost;
                    let mut raises: bool = true;
                    if established && child_beta > child_alpha + 3 {
                        let scout: u32 = miss_cost + self.solve_subset(
                            st,
                            subset.as_slice(),
                            new_masked,
                            child_alpha,
                            child_alpha + 1,
                        );
                        if st.stopped {
                            return cutoff;
                        }
                        raises = scout > worst;
                    }
                    if raises {
                        let val: u32 = miss_cost + self.solve_subset(
                            st,
                            subset.as_slice(),
                            new_masked,
                            child_alpha,
                            child_beta,
                        );
                        if st.stopped {
                            return cutoff;
                        }
                        if val > worst {
                            worst = val;
                        }
                        established = true;
                    }
                }
            }
            proof {
                if h {
                    assert(worst >= cutoff || pv <= worst);
                    assert forall|a: int| 0 <= a < i + 1 && worst < cutoff implies part_value(
                        words,
                        #[trigger] ordered@[a],
                        masked,
                        letter,
                    ) <= worst by {
                        if a == i {
                            assert(ordered@[a] == part);
                        }
                    }
                }
            }
            if worst >= cutoff {
                proof {
                    lemma_parts_guess(words, idx, masked, letter, ordered@, worst as int);
                }
                return worst;
            }
            i += 1;
        }
        proof {
            lemma_parts_guess(words, idx, masked, letter, ordered@, worst as int);
            if worst == 0 {
                let s = chosen(words, idx);
                assert(s.contains(words[idx[0] as int]@));
                assert(!guess_wins(s, letters(masked), letter, -1));
            }
        }
        worst
    }

    /// Tries the letters one after the other, each against the best result so
    /// far, and stops once the result can not matter or can not be improved. Where the
    /// search is given up, the best result so far stands, or `beta`.
    fn solve_sequential(
        &self,
        st: &mut SearchState,
        letter_list: &Vec<u8>,
        indices: &[usize],
        masked: LetterSet,
        alpha: u32,
        beta: u32,
    ) -> (r: (u32, u8))
        requires
            self.wf(),
            old(st).wf(),
            !old(st).stopped,
            idx_ok(indices@, self.words@.len()),
            indices@.len() > 0,
            indices@.no_duplicates(),
            distinct_sigs(self.words@, indices@, masked),
            letter_list@.len() > 0,
            forall|t: int| 0 <= t < letter_list@.len() ==> is_lower(#[trigger] letter_list@[t]) && !holds(masked, letter_list@[t]),
            alpha < beta,
        ensures
            final(st).wf(),
            final(st).root@ == old(st).root@,
            final(st).root_masked@ == old(st).root_masked@,
            exact_kept(table_map(old(st).cache), table_map(final(st).cache)),
            forms_kept(old(st).forms@, final(st).forms@),
            self.stops(*old(st), *final(st)),
            !final(st).stopped ==> r.0 <= room(masked),
            final(st).stopped ==> r.0 <= beta,
            letter_list@.contains(r.1),
            self.trusted(*old(st)) && self.within(*old(st), indices@, masked) ==> {
                let s = chosen(self.words@, indices@);
                &&& self.trusted(*final(st))
                &&& r.0 < beta ==> guess_wins(s, letters(masked), r.1, r.0 as int)
                &&& !final(st).stopped && r.0 > alpha ==> forall|l: u8| #[trigger] letter_list@.contains(l) ==> !guess_wins(s, letters(masked), l, r.0 - 1)
            },
        decreases 26 - bits_below(masked, 26), 1int,
    {
        let ghost s = chosen(self.words@, indices@);
        let ghost g = letters(masked);
        let ghost h = self.trusted(*st) && self.within(*st, indices@, masked);
        let ghost root = st.root@;
        let ghost rm = st.root_masked@;
        let mut best: u32 = u32::MAX;
        let mut best_letter: u8 = letter_list[0];
        let mut i: usize = 0;
        proof {
            assert(letter_list@.contains(letter_list@[0]));
        }
        while i < letter_list.len() && (i == 0 || !(best <= alpha || best == 0))
            invariant
                i <= letter_list@.len(),
                self.wf(),
                st.wf(),
                !st.stopped,
                !old(st).stopped,
                s == chosen(self.words@, indices@),
                g == letters(masked),
                idx_ok(indices@, self.words@.len()),
                indices@.len() > 0,
                indices@.no_duplicates(),
                distinct_sigs(self.words@, indices@, masked),
                forall|t: int| 0 <= t < letter_list@.len() ==> is_lower(#[trigger] letter_list@[t]) && !holds(masked, letter_list@[t]),
                alpha < beta,
                st.root@ == root,
                st.root_masked@ == rm,
                root == old(st).root@,
                rm == old(st).root_masked@,
                exact_kept(table_map(old(st).cache), table_map(st.cache)),
                forms_kept(old(st).forms@, st.forms@),
                h == (self.trusted(*old(st)) && self.within(*old(st), indices@, masked)),
                h ==> self.trusted(*st) && reachable(self.words@, root, rm, indices@, masked),
                i == 0 ==> best == u32::MAX,
                i > 0 ==> best <= room(masked),
                letter_list@.contains(best_letter),
                h && i > 0 && best < beta ==> guess_wins(s, g, best_letter, best as int),
                h && i > 0 ==> forall|t: int| 0 <= t < i ==> !guess_wins(s, g, #[trigger] letter_list@[t], best - 1),
            decreases letter_list@.len() - i,
        {
            let letter: u8 = letter_list[i];
            let cutoff: u32 = if best < beta { best } else { beta };
            let val: u32 = self.evaluate_letter(st, indices, masked, letter, cutoff);
            let ghost before = best;
            proof {
                lemma_bits_below(masked, 26);
            }
            if st.stopped {
                return (cutoff, best_letter);
            }
            if val < best {
                best = val;
                best_letter = letter;
            }
            proof {
                assert(letter_list@.contains(letter_list@[i as int]));
                if h {
                    assert forall|t: int| 0 <= t < i + 1 implies !guess_wins(s, g, #[trigger] letter_list@[t], best - 1) by {
                        let l = letter_list@[t];
                        if guess_wins(s, g, l, best - 1) {
                            if t == i {
                                lemma_guess_more_budget(s, g, l, best - 1, val - 1);
                            } else {
                                lemma_guess_more_budget(s, g, l, best - 1, before - 1);
                            }
                        }
                    }
                }
            }
            i += 1;
        }
        proof {
            if h && best > alpha {
                assert forall|l: u8| #[trigger] letter_list@.contains(l) implies !guess_wins(s, g, l, best - 1) by {
                    if best == 0 {
                        assert(s.contains(self.words@[indices@[0] as int]@));
                        assert(!guess_wins(s, g, l, -1));
                    } else {
                        let t = choose|t: int| 0 <= t < letter_list@.len() && letter_list@[t] == l;
                        assert(!guess_wins(s, g, letter_list@[t], best - 1));
                    }
                }
            }
        }
        (best, best_letter)
    }

    /// A lower bound that reaches `beta`, where one is to be had without a search.
    /// No letter may be required: then every open letter risks a miss.
    fn cheap_bound(&self, indices: &[usize], folded: LetterSet, beta: u32) -> (r: Option<u32>)
        requires
            self.wf(),
            idx_ok(indices@, self.words@.len()),
            forall|l: u8| #[trigger] is_open(chosen(self.words@, indices@), letters(folded), l) ==> !required(chosen(self.words@, indices@), l),
        ensures
            r matches Some(lb) ==> beta <= lb <= position_value(self.words@, indices@, folded) && lb <= 3,
            indices@.len() >= 5 && beta == 1 && !no_open(chosen(self.words@, indices@), letters(folded)) ==> r is Some,
    {
        let ghost s = chosen(self.words@, indices@);
        let ghost g = letters(folded);
        if indices.len() >= 5 {
            if indices.len() >= 5000 {
                let depth: u32 = if indices.len() >= 40_000 { 3 } else { 2 };
                let lb: u32 = self.data.miss_chain_lower_bound(Ghost(self.words@), Ghost(self.k as nat), indices, folded, depth);
                if lb >= beta {
                    return Some(lb);
                }
            }
            if beta <= 1 {
                let present: u32 = self.data.present_letters(Ghost(self.words@), Ghost(self.k as nat), indices, folded);
                if present != 0 {
                    proof {
                        let c = lemma_some_letter(present);
                        assert(is_open(s, g, c));
                        lemma_forced_miss(s, g);
                        lemma_value(s, g, 0);
                    }
                    return Some(1);
                }
                proof {
                    crate::game::letters::lemma_has_zero();
                    assert(no_open(s, g)) by {
                        assert forall|l: u8| !#[trigger] is_open(s, g, l) by {
                            assert(!holds(present, l));
                        }
                    }
                }
            }
        }
        None
    }

    /// The key of a position and its deduplicated words. Where the quick key is
    /// known the table is asked at once, and most positions are settled there.
    fn find_key(&self, st: &mut SearchState, indices: &[usize], folded: LetterSet, alpha: u32, beta: u32) -> (r: Keyed)
        requires
            self.wf(),
            old(st).wf(),
            idx_ok(indices@, self.words@.len()),
            indices@.len() > 0,
            alpha < beta,
        ensures
            final(st).wf(),
            final(st).root@ == old(st).root@,
            final(st).root_masked@ == old(st).root_masked@,
            exact_kept(table_map(old(st).cache), table_map(final(st).cache)),
            forms_kept(old(st).forms@, final(st).forms@),
            final(st).stopped == old(st).stopped,
            r matches Keyed::Settled(val) ==> val <= 31,
            r matches Keyed::Open(d, key) ==> is_dedup(self.words@, indices@, folded, d@) && idx_ok(d@, self.words@.len()),
            self.trusted(*old(st)) && self.within(*old(st), indices@, folded) ==> {
                &&& self.trusted(*final(st))
                &&& r matches Keyed::Settled(val) ==> window_ok(position_value(self.words@, indices@, folded) as int, val as int, alpha as int, beta as int)
                &&& r matches Keyed::Open(d, Some(key)) ==> self.keyed(*final(st), key, indices@, folded)
            },
    {
        let ghost words = self.words@;
        let ghost k = self.k as nat;
        let ghost idx = indices@;
        let ghost h = self.trusted(*st) && self.within(*st, idx, folded);
        let ghost st0 = *st;
        let fast_key: u64 = fast_index_key(indices, folded);
        match st.key_cache.get(fast_key, indices, folded) {
            Some(canon_key) => {
                st.hash_calls = st.hash_calls.wrapping_add(1);
                proof {
                    if h {
                        reveal(MemoizedSolverInner::trusted);
                        assert(reachable(words, st0.root@, st0.root_masked@, idx, folded));
                        assert(self.keyed(*st, canon_key, idx, folded));
                        assert(self.trusted(*st));
                    }
                }
                if let CacheLookup::Hit(val) = self.cache_lookup(st, canon_key, alpha, beta, Ghost(idx), Ghost(folded)) {
                    return Keyed::Settled(val);
                }
                Keyed::Open(dedup_only(self.words, indices, folded), Some(canon_key))
            },
            None => {
                let (d, form) = dedup_and_form(self.words, indices, folded);
                let canon_key: u128 = key_of_form(&form);
                let own: bool = st.forms.accept(canon_key, &form);
                if own {
                    st.key_cache.insert(fast_key, indices, folded, canon_key);
                }
                proof {
                    if h {
                        reveal(MemoizedSolverInner::trusted);
                        lemma_forms_grow(words, k, table_map(st0.cache), st0.key_cache@, st0.forms@, st.forms@);
                    }
                }
                Keyed::Open(
                    d,
                    if own {
                        Some(canon_key)
                    } else {
                        None
                    },
                )
            },
        }
    }

    /// The value of a position as far as the window from `alpha` to `beta` asks:
    /// exact inside the window, else a bound on the side where it lies. A search that
    /// is given up reports `beta` and records nothing from then on, so that what it
    /// missed does not pass for a good result.
    pub(crate) fn solve_subset(
        &self,
        st: &mut SearchState,
        indices: &[usize],
        masked: LetterSet,
        alpha: u32,
        beta: u32,
    ) -> (r: u32)
        requires
            self.wf(),
            old(st).wf(),
            idx_ok(indices@, self.words@.len()),
            alpha < beta,
        ensures
            final(st).wf(),
            final(st).root@ == old(st).root@,
            final(st).root_masked@ == old(st).root_masked@,
            exact_kept(table_map(old(st).cache), table_map(final(st).cache)),
            forms_kept(old(st).forms@, final(st).forms@),
            self.stops(*old(st), *final(st)),
            !final(st).stopped ==> (r <= alpha || r <= room(masked)),
            final(st).stopped ==> r <= beta,
            (old(st).stopped || self.hasty()) && indices@.len() >= 2 ==> {
                &&& r == beta
                &&& final(st).stopped
                &&& table_map(final(st).cache) == table_map(old(st).cache)
                &&& final(st).forms@ == old(st).forms@
                &&& final(st).key_cache@ == old(st).key_cache@
            },
            self.trusted(*old(st)) && self.within(*old(st), indices@, masked) ==> {
                let v = position_value(self.words@, indices@, masked);
                &&& self.trusted(*final(st))
                &&& !final(st).stopped ==> window_ok(v as int, r as int, alpha as int, beta as int)
                &&& r < beta ==> v <= r
            },
        decreases 26 - bits_below(masked, 26), 3int,
    {
        let ghost words = self.words@;
        let ghost k = self.k as nat;
        let ghost idx = indices@;
        let ghost v = position_value(words, idx, masked) as int;
        let ghost h = self.trusted(*st) && self.within(*st, idx, masked);
        let ghost root = st.root@;
        let ghost rm = st.root_masked@;
        proof {
            lemma_bits_below(masked, 26);
        }
        if indices.len() <= 1 {
            proof {
                lemma_single(words, idx, masked);
            }
            return 0;
        }
        let give_up: bool = st.stopped || (self.stop)();
        if give_up {
            let ghost before = *st;
            st.stopped = true;
            proof {
                if h {
                    assert(self.trusted(*st)) by {
                        reveal(MemoizedSolverInner::trusted);
                    }
                }
            }
            return beta;
        }
        let (folded, splitting) = self.data.analyze_required_letters(
            Ghost(self.words@),
            Ghost(self.k as nat),
            indices,
            masked,
        );
        let ghost g = letters(folded);
        proof {
            lemma_more_letters(masked, folded, 26);
            lemma_bits_below(folded, 26);
            lemma_chosen_plain(words, idx, k);
            lemma_at_most_25(chosen(words, idx), g, k);
            crate::game::letters::lemma_has_zero();
            if h {
                assert(idx_ok(root, words.len())) by {
                    reveal(MemoizedSolverInner::trusted);
                }
                lemma_fold_reachable(words, k, root, rm, idx, masked, folded);
            }
            if splitting == 0 {
                assert forall|l: u8| #[trigger] is_open(chosen(words, idx), g, l) implies !required(chosen(words, idx), l) by {
                    lemma_open_lower(chosen(words, idx), g, k, l);
                    assert(!holds(splitting, l));
                }
            }
        }
        if splitting == 0 {
            if let Some(lb) = self.cheap_bound(indices, folded, beta) {
                return lb;
            }
        }
        let (deduped, cache_key): (Vec<usize>, Option<u128>) = match self.find_key(st, indices, folded, alpha, beta) {
            Keyed::Settled(val) => {
                return val;
            },
            Keyed::Open(d, key) => (d, key),
        };
        let ghost d = deduped@;
        let ghost s = chosen(words, d);
        proof {
            assert(is_dedup(words, idx, folded, d));
            lemma_dedup_lists(words, idx, folded, d);
            lemma_value_same_signatures(words, d, idx, folded);
            lemma_dedup_distinct(words, idx, folded, d);
            lemma_dedup_self(words, folded, d);
            assert(v == position_value(words, d, folded));
            assert(h ==> self.trusted(*st) && (cache_key matches Some(key) ==> self.keyed(*st, key, d, folded)));
        }
        if deduped.len() <= 1 {
            proof {
                lemma_single(words, d, folded);
            }
            return 0;
        }
        proof {
            if h {
                lemma_dedup_reachable(words, root, rm, idx, folded, d);
            }
            lemma_dedup_letters(words, k, idx, folded, d);
            lemma_splitting(words, k, idx, folded, d, splitting);
        }
        self.solve_deduped(st, deduped, folded, splitting, cache_key, alpha, beta)
    }

    /// The same for a position whose words have different signatures, whose key
    /// is known and whose required letters have been looked at.
    fn solve_deduped(
        &self,
        st: &mut SearchState,
        deduped: Vec<usize>,
        folded: LetterSet,
        splitting: LetterSet,
        cache_key: Option<u128>,
        alpha: u32,
        beta: u32,
    ) -> (r: u32)
        requires
            self.wf(),
            old(st).wf(),
            !old(st).stopped,
            idx_ok(deduped@, self.words@.len()),
            deduped@.len() >= 2,
            deduped@.no_duplicates(),
            distinct_sigs(self.words@, deduped@, folded),
            only_letters(splitting),
            forall|l: u8|
                #![trigger holds(splitting, l)]
                holds(splitting, l) == (is_open(chosen(self.words@, deduped@), letters(folded), l) && required(chosen(self.words@, deduped@), l)),
            alpha < beta,
        ensures
            final(st).wf(),
            final(st).root@ == old(st).root@,
            final(st).root_masked@ == old(st).root_masked@,
            exact_kept(table_map(old(st).cache), table_map(final(st).cache)),
            forms_kept(old(st).forms@, final(st).forms@),
            self.stops(*old(st), *final(st)),
            !final(st).stopped ==> (r <= alpha || r <= room(folded)),
            final(st).stopped ==> r <= beta,
            self.trusted(*old(st)) && self.within(*old(st), deduped@, folded) && (cache_key matches Some(key) ==> self.keyed(
                *old(st),
                key,
                deduped@,
                folded,
            )) ==> {
                &&& self.trusted(*final(st))
                &&& !final(st).stopped ==> window_ok(position_value(self.words@, deduped@, folded) as int, r as int, alpha as int, beta as int)
                &&& r < beta ==> position_value(self.words@, deduped@, folded) <= r
            },
        decreases 26 - bits_below(folded, 26), 2int,
    {
        let ghost words = self.words@;
        let ghost k = self.k as nat;
        let ghost d = deduped@;
        let ghost s = chosen(words, d);
        let ghost g = letters(folded);
        let ghost v = position_value(words, d, folded) as int;
        let ghost h = self.trusted(*st) && self.within(*st, d, folded) && (cache_key matches Some(key) ==> self.keyed(*st, key, d, folded));
        st.hash_calls = st.hash_calls.wrapping_add(1);
        let present: u32 = self.data.present_letters(Ghost(self.words@), Ghost(self.k as nat), deduped.as_slice(), folded);
        let n_useful: u32 = count_letters(present);
        let n_required: u32 = count_letters(splitting);
        proof {
            if h {
                assert(self.trusted(*st)) by {
                    reveal(MemoizedSolverInner::trusted);
                }
            }
            lemma_bits_below(folded, 26);
            lemma_chosen_plain(words, d, k);
            lemma_at_most_25(s, g, k);
            lemma_value_bits(s, g, k, present, splitting);
        }
        let max_misses: u32 = n_useful - n_required;
        let beta2: u32 = if beta < max_misses { beta } else { max_misses };
        if alpha >= beta2 {
            return alpha;
        }
        let lookup = match cache_key {
            Some(key) => self.cache_lookup(st, key, alpha, beta2, Ghost(d), Ghost(folded)),
            None => CacheLookup::Miss { tt_move: None, alpha, beta: beta2 },
        };
        let (tt_move, alpha3, beta3): (Option<u8>, u32, u32) = match lookup {
            CacheLookup::Hit(val) => {
                return val;
            },
            CacheLookup::Miss { tt_move, alpha: a, beta: b } => (tt_move, a, b),
        };
        if deduped.len() <= 4 {
            let val: u32 = self.solve_few(&deduped, folded);
            if let Some(key) = cache_key {
                self.store_exact(st, key, val, 0, Ghost(d), Ghost(folded));
            }
            return val;
        }
        let list = self.letters_to_try(st, &deduped, folded, splitting, tt_move);
        let (best, best_letter) = self.solve_sequential(st, &list, deduped.as_slice(), folded, alpha3, beta3);
        if st.stopped {
            proof {
                if h {
                    if best < beta3 {
                        assert(list@.contains(best_letter));
                        assert(is_open(s, g, best_letter));
                        lemma_guess_to_wins(s, g, best_letter, best as int);
                        lemma_value(s, g, best as int);
                    } else if v > beta3 {
                        assert(window_ok(v, best as int, alpha3 as int, beta3 as int));
                        assert(window_ok(v, best as int, alpha as int, beta2 as int));
                    }
                }
            }
            return best;
        }
        proof {
            assert(list@.contains(best_letter));
            let t = choose|t: int| 0 <= t < list@.len() && list@[t] == best_letter;
            assert(is_lower(list@[t]));
            if h {
                lemma_open_letter(words, k, d, folded);
                lemma_search_result(s, g, splitting != 0, list@, best, best_letter, alpha3, beta3);
                assert(window_ok(v, best as int, alpha3 as int, beta3 as int));
                assert(window_ok(v, best as int, alpha as int, beta2 as int));
                assert(best <= 31);
            }
        }
        let tenth: usize = deduped.len() / 10;
        let bonus: u32 = if tenth < 1 {
            1
        } else if tenth > 100 {
            100
        } else {
            tenth as u32
        };
        let at: usize = (best_letter - 97) as usize;
        let score: u32 = st.history[at].wrapping_add(bonus);
        st.history.set(at, score);
        proof {
            if h {
                assert(self.trusted(*st)) by {
                    reveal(MemoizedSolverInner::trusted);
                }
            }
        }
        if let Some(key) = cache_key {
            self.cache_store(st, key, best, best_letter, alpha3, beta3, Ghost(d), Ghost(folded));
        }
        best
    }

    /// Two, three or four words with different signatures, solved outright.
    fn solve_few(&self, deduped: &Vec<usize>, folded: LetterSet) -> (val: u32)
        requires
            self.wf(),
            idx_ok(deduped@, self.words@.len()),
            2 <= deduped@.len() <= 4,
            distinct_sigs(self.words@, deduped@, folded),
        ensures
            val == position_value(self.words@, deduped@, folded),
            val <= 25,
    {
        let ghost d = deduped@;
        if deduped.len() == 2 {
            proof {
                assert(d =~= seq![d[0], d[1]]);
            }
            self.data.solve_two_words(Ghost(self.words@), Ghost(self.k as nat), deduped[0], deduped[1], folded)
        } else if deduped.len() == 3 {
            proof {
                assert(d =~= seq![d[0], d[1], d[2]]);
            }
            self.data.solve_three_words(Ghost(self.words@), Ghost(self.k as nat), deduped[0], deduped[1], deduped[2], folded)
        } else {
            let four: [usize; 4] = [deduped[0], deduped[1], deduped[2], deduped[3]];
            proof {
                assert(four@ =~= d);
            }
            self.data.solve_four_words(Ghost(self.words@), Ghost(self.k as nat), four, folded)
        }
    }

    /// The letters to try, in order: the letter of a table entry first.
    fn letters_to_try(
        &self,
        st: &SearchState,
        deduped: &Vec<usize>,
        folded: LetterSet,
        splitting: LetterSet,
        tt_move: Option<u8>,
    ) -> (list: Vec<u8>)
        requires
            self.wf(),
            st.wf(),
            idx_ok(deduped@, self.words@.len()),
            deduped@.len() >= 2,
            distinct_sigs(self.words@, deduped@, folded),
            only_letters(splitting),
            forall|l: u8|
                #![trigger holds(splitting, l)]
                holds(splitting, l) == (is_open(chosen(self.words@, deduped@), letters(folded), l) && required(chosen(self.words@, deduped@), l)),
        ensures
            list@.len() > 0,
            list@.no_duplicates(),
            forall|t: int| 0 <= t < list@.len() ==> is_lower(#[trigger] list@[t]) && !holds(folded, list@[t]),
            forall|l: u8|
                #![trigger list@.contains(l)]
                #![trigger is_open(chosen(self.words@, deduped@), letters(folded), l)]
                list@.contains(l) == (is_open(chosen(self.words@, deduped@), letters(folded), l) && (splitting == 0 || required(chosen(self.words@, deduped@), l))),
            tt_move is Some && list@.contains(tt_move->0) ==> list@[0] == tt_move->0,
    {
        let ghost s = chosen(self.words@, deduped@);
        let ghost g = letters(folded);
        let mut list = self.data.select_letters(
            Ghost(self.words@),
            Ghost(self.k as nat),
            deduped.as_slice(),
            folded,
            splitting,
            &st.history,
        );
        let ghost list0 = list@;
        if let Some(tt_letter) = tt_move {
            list = move_to_front(list, tt_letter);
        }
        proof {
            lemma_open_letter(self.words@, self.k as nat, deduped@, folded);
            let o = choose|o: u8| #[trigger] is_open(s, g, o);
            assert(is_open(s, g, o));
            if splitting != 0 {
                let c = lemma_some_letter(splitting);
                assert(list0.contains(c));
                assert(list@.contains(c));
            } else {
                assert(list0.contains(o));
                assert(list@.contains(o));
            }
            assert forall|t: int| 0 <= t < list@.len() implies is_lower(#[trigger] list@[t]) && !holds(folded, list@[t]) by {
                assert(list@.contains(list@[t]));
                assert(list0.contains(list@[t]));
                let u = choose|u: int| 0 <= u < list0.len() && list0[u] == list@[t];
                assert(is_lower(list0[u]));
                if splitting != 0 {
                    assert(holds(splitting, list@[t]));
                }
            }
        }
        list
    }
}

impl<'a, D: Fn(u128) -> Option<u32>, S: Fn() -> bool> MemoizedSolverInner<'a, D, S> {
    /// The value of a position by a series of searches, each asking whether one
    /// more miss suffices, and one last search with the full window. Where the search is
    /// given up the result is no less than the value.
    pub(crate) fn solve_mtd(&self, st: &mut SearchState, indices: &[usize], masked: LetterSet) -> (r: u32)
        requires
            self.wf(),
            old(st).wf(),
            idx_ok(indices@, self.words@.len()),
            indices@.len() > 0,
        ensures
            final(st).wf(),
            final(st).root@ == old(st).root@,
            final(st).root_masked@ == old(st).root_masked@,
            exact_kept(table_map(old(st).cache), table_map(final(st).cache)),
            forms_kept(old(st).forms@, final(st).forms@),
            self.stops(*old(st), *final(st)),
            r <= 58,
            self.trusted(*old(st)) && self.within(*old(st), indices@, masked) ==> {
                &&& self.trusted(*final(st))
                &&& r >= position_value(self.words@, indices@, masked)
                &&& !final(st).stopped ==> r == position_value(self.words@, indices@, masked)
            },
    {
        let ghost v = position_value(self.words@, indices@, masked) as int;
        let ghost h = self.trusted(*st) && self.within(*st, indices@, masked);
        let ghost root = st.root@;
        let ghost rm = st.root_masked@;
        proof {
            lemma_chosen_plain(self.words@, indices@, self.k as nat);
            lemma_at_most_25(chosen(self.words@, indices@), letters(masked), self.k as nat);
            lemma_bits_below(masked, 26);
        }
        let mut result: u32 = 0;
        let mut lo: u32 = 0;
        let mut target: u32 = 0;
        let mut done: bool = false;
        while target < 26 && !done
            invariant
                target <= 26,
                self.wf(),
                st.wf(),
                self.stops(*old(st), *st),
                idx_ok(indices@, self.words@.len()),
                indices@.len() > 0,
                v == position_value(self.words@, indices@, masked),
                v <= 25,
                bits_below(masked, 26) <= 26,
                st.root@ == root,
                st.root_masked@ == rm,
                root == old(st).root@,
                rm == old(st).root_masked@,
                exact_kept(table_map(old(st).cache), table_map(st.cache)),
                forms_kept(old(st).forms@, st.forms@),
                h == (self.trusted(*old(st)) && self.within(*old(st), indices@, masked)),
                h ==> self.trusted(*st),
                lo <= 58,
                result <= 58,
                h && !st.stopped ==> v >= lo,
                h && done ==> result >= v,
                h && done && !st.stopped ==> result == v,
                !done ==> result >= target && result == lo,
                h && !done && !st.stopped ==> v >= target,
            decreases 26 - target,
        {
            if target >= lo {
                result = self.solve_subset(st, indices, masked, lo, target + 1);
                if result <= target {
                    done = true;
                } else {
                    lo = result;
                }
            }
            target += 1;
        }
        self.solve_subset(st, indices, masked, 0, result + 1);
        result
    }
}

/// More forms leave what is believed as it is.
pub proof fn lemma_forms_grow(
    words: Seq<Vec<u8>>,
    k: nat,
    table: Map<u128, u32>,
    positions: Seq<(Seq<usize>, u32, u128)>,
    before: Map<u128, Seq<u8>>,
    after: Map<u128, Seq<u8>>,
)
    requires
        forms_kept(before, after),
        table_sound(table, before),
        quick_true(words, k, positions, before),
    ensures
        table_sound(table, after),
        quick_true(words, k, positions, after),
{
    assert forall|t: int| 0 <= t < positions.len() implies ({
        let p = #[trigger] positions[t];
        p.2 == position_key(words, p.0, p.1, k) && is_known(words, p.0, p.1, k, after)
    }) by {
        let p = positions[t];
        assert(is_known(words, p.0, p.1, k, before));
        assert(before.contains_key(position_key(words, p.0, p.1, k)));
    }
    assert forall|key: u128| #[trigger] table.contains_key(key) implies after.contains_key(key) && form_key(after[key]) == key && claims(
        table[key],
        form_value(after[key]) as int,
    ) by {
        assert(before.contains_key(key));
    }
}

/// Deduplicated words are their own deduplication.
pub proof fn lemma_dedup_self(words: Seq<Vec<u8>>, masked: u32, d: Seq<usize>)
    requires
        crate::sorting::strictly_sorted(sig_rows(words, d, masked)),
    ensures
        sig_rows(words, d, masked) == signatures(words, d, masked),
{
    let rows = sig_rows(words, d, masked);
    crate::solver::signature::lemma_signatures(rows, words, d, masked);
}

/// The required letters of deduplicated words are those of all the words.
proof fn lemma_splitting(words: Seq<Vec<u8>>, k: nat, idx: Seq<usize>, masked: u32, d: Seq<usize>, splitting: u32)
    requires
        list_ok(words, k),
        idx_ok(idx, words.len()),
        idx_ok(d, words.len()),
        d.len() > 0,
        is_dedup(words, idx, masked, d),
        forall|l: u8|
            #![trigger holds(splitting, l)]
            holds(splitting, l) == (is_lower(l) && !holds(masked, l) && required(chosen(words, idx), l)),
    ensures
        forall|l: u8|
            #![trigger holds(splitting, l)]
            holds(splitting, l) == (is_open(chosen(words, d), letters(masked), l) && required(chosen(words, d), l)),
{
    let s = chosen(words, d);
    let g = letters(masked);
    lemma_dedup_letters(words, k, idx, masked, d);
    lemma_chosen_plain(words, d, k);
    assert forall|l: u8|
        #![trigger holds(splitting, l)]
        holds(splitting, l) == (is_open(s, g, l) && required(s, l)) by {
        if is_open(s, g, l) {
            lemma_open_lower(s, g, k, l);
            assert(required(s, l) == required(chosen(words, idx), l));
        }
        if holds(splitting, l) {
            assert(required(s, l) == required(chosen(words, idx), l));
            assert(s.contains(words[d[0] as int]@));
            assert(occurs(l, words[d[0] as int]@));
        }
    }
}

/// The letters of deduplicated words are those of all the words.
proof fn lemma_dedup_letters(words: Seq<Vec<u8>>, k: nat, idx: Seq<usize>, masked: u32, d: Seq<usize>)
    requires
        list_ok(words, k),
        idx_ok(idx, words.len()),
        idx_ok(d, words.len()),
        is_dedup(words, idx, masked, d),
    ensures
        forall|l: u8| #[trigger] is_open(chosen(words, d), letters(masked), l) == is_open(chosen(words, idx), letters(masked), l),
        forall|l: u8| l != 0 && !holds(masked, l) ==> #[trigger] required(chosen(words, d), l) == required(chosen(words, idx), l),
{
    let s = chosen(words, idx);
    let t = chosen(words, d);
    let g = letters(masked);
    assert forall|w: Seq<u8>| #[trigger] t.contains(w) implies s.contains(w) by {
        let u = choose|u: int| 0 <= u < d.len() && words[#[trigger] d[u] as int]@ == w;
        assert(idx.contains(d[u]));
        let x = choose|x: int| 0 <= x < idx.len() && idx[x] == d[u];
        assert(words[idx[x] as int]@ == w);
    }
    assert forall|l: u8| #[trigger] is_open(t, g, l) == is_open(s, g, l) by {
        if is_open(s, g, l) {
            let w = choose|w: Seq<u8>| #[trigger] s.contains(w) && occurs(l, w);
            let x = lemma_dedup_twin(words, k, idx, masked, d, w, l);
            assert(t.contains(x) && occurs(l, x));
        }
        if is_open(t, g, l) {
            let w = choose|w: Seq<u8>| #[trigger] t.contains(w) && occurs(l, w);
            assert(s.contains(w));
        }
    }
    assert forall|l: u8| l != 0 && !holds(masked, l) implies #[trigger] required(t, l) == required(s, l) by {
        if required(t, l) {
            assert forall|w: Seq<u8>| #[trigger] s.contains(w) implies occurs(l, w) by {
                let x = lemma_dedup_twin(words, k, idx, masked, d, w, l);
                assert(t.contains(x));
            }
        }
        if required(s, l) {
            assert forall|w: Seq<u8>| #[trigger] t.contains(w) implies occurs(l, w) by {
                assert(s.contains(w));
            }
        }
    }
}

/// Every word has a kept word that answers alike to the unmasked letters.
proof fn lemma_dedup_twin(
    words: Seq<Vec<u8>>,
    k: nat,
    idx: Seq<usize>,
    masked: u32,
    d: Seq<usize>,
    w: Seq<u8>,
    l: u8,
) -> (x: Seq<u8>)
    requires
        list_ok(words, k),
        idx_ok(idx, words.len()),
        idx_ok(d, words.len()),
        is_dedup(words, idx, masked, d),
        chosen(words, idx).contains(w),
        l != 0,
        !holds(masked, l),
    ensures
        chosen(words, d).contains(x),
        occurs(l, x) == occurs(l, w),
{
    let u = choose|u: int| 0 <= u < idx.len() && words[#[trigger] idx[u] as int]@ == w;
    let rows = sig_rows(words, d, masked);
    assert(rows.contains(sig_at(words, idx, masked, u)));
    let x = choose|x: int| 0 <= x < rows.len() && rows[x] == sig_at(words, idx, masked, u);
    let y = words[d[x] as int]@;
    lemma_same_signature_same_answer(w, y, masked, l);
    assert(chosen(words, d).contains(y));
    y
}

/// Deduplicated words have different signatures.
pub proof fn lemma_dedup_distinct(words: Seq<Vec<u8>>, idx: Seq<usize>, masked: u32, d: Seq<usize>)
    requires
        is_dedup(words, idx, masked, d),
    ensures
        distinct_sigs(words, d, masked),
        d.no_duplicates(),
{
    let rows = sig_rows(words, d, masked);
    assert forall|t: int, u: int| 0 <= t < u < d.len() implies sig(words[#[trigger] d[t] as int]@, masked) != sig(
        words[#[trigger] d[u] as int]@,
        masked,
    ) by {
        assert(rows[t] != rows[u]);
    }
    assert forall|t: int, u: int| 0 <= t < d.len() && 0 <= u < d.len() && t != u implies d[t] != d[u] by {
        let a = if t < u { t } else { u };
        let b = if t < u { u } else { t };
        assert(rows[a] != rows[b]);
    }
}

/// From the letters that were tried to the value of the position.
pub proof fn lemma_search_result(
    s: Set<Seq<u8>>,
    g: Set<u8>,
    all_required: bool,
    list: Seq<u8>,
    best: u32,
    best_letter: u8,
    alpha: u32,
    beta: u32,
)
    requires
        forall|l: u8| #[trigger] list.contains(l) ==> is_open(s, g, l),
        all_required ==> forall|l: u8| #[trigger] list.contains(l) ==> required(s, l),
        !all_required ==> forall|l: u8| #[trigger] is_open(s, g, l) ==> list.contains(l),
        list.contains(best_letter),
        alpha < beta,
        best < beta ==> guess_wins(s, g, best_letter, best as int),
        best > alpha ==> forall|l: u8| #[trigger] list.contains(l) ==> !guess_wins(s, g, l, best - 1),
        !no_open(s, g),
    ensures
        window_ok(value(s, g) as int, best as int, alpha as int, beta as int),
{
    assert(is_open(s, g, best_letter));
    if best < beta {
        lemma_guess_to_wins(s, g, best_letter, best as int);
        lemma_value(s, g, best as int);
    }
    if best > alpha {
        if all_required {
            lemma_required_letter(s, g, best_letter, best - 1);
        } else if wins(s, g, best - 1) {
            let l = choose|l: u8| #[trigger] is_open(s, g, l) && guess_wins(s, g, l, best - 1);
            assert(list.contains(l));
        }
        lemma_value(s, g, best - 1);
    }
}

} // verus!
