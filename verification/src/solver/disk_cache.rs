//! Saving table entries to disk: what is written, how entries are laid out, and
//! where a table belongs.
use vstd::bytes::{
    spec_u128_from_le_bytes, spec_u128_to_le_bytes, spec_u32_from_le_bytes, spec_u32_to_le_bytes, u128_from_le_bytes,
    u128_to_le_bytes, u32_from_le_bytes, u32_to_le_bytes,
};
use vstd::prelude::*;
use vstd::slice::slice_subrange;

use crate::solver::tt::{cache_unpack, claims, dominates, new_dominates, tt_bound, BOUND_EXACT};
use crate::solver::word_hash::{hash_word_set, word_set_hash};
use crate::text::{decimal, hex, push_decimal, push_hex, push_text};

verus! {

/// The name of the table within its directory. It stands for what the keys are: hashes
/// of canonical forms with the number of their columns in front. A table with keys of
/// another kind has another name, or none, and is not read.
pub const TABLE_NAME: &'static str = "forms_with_width";

/// How many entries are written in one transaction.
pub const SAVE_BATCH: usize = 100_000;

/// Cumulative outcomes of saves.
///
/// `rejected_by_exact` is of interest where several workers share a table: each
/// count is a bound that was computed for a position which another worker had
/// already solved.
#[derive(Debug, Clone, Copy, PartialEq, Eq)]
pub struct SaveStats {
    /// New entries written.
    pub inserted: u64,
    /// Existing entries overwritten because the new value dominated.
    pub overwritten: u64,
    /// Writes rejected because the existing entry was exact.
    pub rejected_by_exact: u64,
    /// Writes rejected because the existing bound was already as tight or of
    /// another kind.
    pub rejected_other: u64,
}

impl Default for SaveStats {
    fn default() -> (r: Self)
        ensures
            r == (SaveStats { inserted: 0, overwritten: 0, rejected_by_exact: 0, rejected_other: 0 }),
    {
        SaveStats { inserted: 0, overwritten: 0, rejected_by_exact: 0, rejected_other: 0 }
    }
}

impl SaveStats {
    /// How many entries reached the disk.
    pub open spec fn written_count(self) -> nat {
        (self.inserted + self.overwritten) as nat
    }

    /// How many entries were offered.
    pub open spec fn offered_count(self) -> nat {
        (self.inserted + self.overwritten + self.rejected_by_exact + self.rejected_other) as nat
    }

    /// These counts together with those of another save. Counts start again from zero
    /// beyond the largest number.
    pub fn plus(self, other: SaveStats) -> (r: SaveStats)
        ensures
            r.inserted == self.inserted.wrapping_add(other.inserted),
            r.overwritten == self.overwritten.wrapping_add(other.overwritten),
            r.rejected_by_exact == self.rejected_by_exact.wrapping_add(other.rejected_by_exact),
            r.rejected_other == self.rejected_other.wrapping_add(other.rejected_other),
            self.offered_count() + other.offered_count() <= u64::MAX ==> r.offered_count() == self.offered_count()
                + other.offered_count() && r.written_count() == self.written_count() + other.written_count(),
    {
        SaveStats {
            inserted: self.inserted.wrapping_add(other.inserted),
            overwritten: self.overwritten.wrapping_add(other.overwritten),
            rejected_by_exact: self.rejected_by_exact.wrapping_add(other.rejected_by_exact),
            rejected_other: self.rejected_other.wrapping_add(other.rejected_other),
        }
    }

    /// Entries that reached the disk.
    pub fn total_written(self) -> (r: u64)
        requires
            self.written_count() <= u64::MAX,
        ensures
            r == self.written_count(),
    {
        self.inserted + self.overwritten
    }

    /// Entries that were offered.
    pub fn total_considered(self) -> (r: u64)
        requires
            self.offered_count() <= u64::MAX,
        ensures
            r == self.offered_count(),
    {
        self.inserted + self.overwritten + self.rejected_by_exact + self.rejected_other
    }
}

/// What becomes of an entry that is saved.
#[derive(Debug, Clone, Copy, PartialEq, Eq, Structural)]
pub enum SaveOutcome {
    Inserted,
    Overwritten,
    RejectedByExact,
    RejectedOther,
}

/// What becomes of an entry where `old` is on disk.
pub open spec fn save_outcome(new_packed: u32, old_packed: Option<u32>) -> SaveOutcome {
    match old_packed {
        None => SaveOutcome::Inserted,
        Some(o) => if dominates(new_packed, o) {
            SaveOutcome::Overwritten
        } else if tt_bound(o) == BOUND_EXACT {
            SaveOutcome::RejectedByExact
        } else {
            SaveOutcome::RejectedOther
        },
    }
}

/// Decide what becomes of an entry.
pub fn decide_save(new_packed: u32, old_packed: Option<u32>) -> (r: SaveOutcome)
    ensures
        r == save_outcome(new_packed, old_packed),
{
    match old_packed {
        None => SaveOutcome::Inserted,
        Some(o) => {
            if new_dominates(new_packed, o) {
                SaveOutcome::Overwritten
            } else {
                let (_v, _l, old_bound) = cache_unpack(o);
                if old_bound == BOUND_EXACT {
                    SaveOutcome::RejectedByExact
                } else {
                    SaveOutcome::RejectedOther
                }
            }
        },
    }
}

/// The entry is written.
pub open spec fn written(o: SaveOutcome) -> bool {
    o == SaveOutcome::Inserted || o == SaveOutcome::Overwritten
}

/// The entries among the first `n` that are written, in order.
pub open spec fn save_writes(entries: Seq<(u128, u32)>, existing: Seq<Option<u32>>, n: nat) -> Seq<(u128, u32)>
    decreases n,
{
    if n == 0 {
        Seq::empty()
    } else {
        let before = save_writes(entries, existing, (n - 1) as nat);
        if written(save_outcome(entries[n - 1].1, existing[n - 1])) {
            before.push(entries[n - 1])
        } else {
            before
        }
    }
}

/// How many of the first `n` entries meet this outcome.
pub open spec fn count_outcome(entries: Seq<(u128, u32)>, existing: Seq<Option<u32>>, o: SaveOutcome, n: nat) -> nat
    decreases n,
{
    if n == 0 {
        0
    } else {
        count_outcome(entries, existing, o, (n - 1) as nat) + if save_outcome(entries[n - 1].1, existing[n - 1]) == o {
            1nat
        } else {
            0nat
        }
    }
}

/// Decide what to write of some entries, given what the disk has under their keys.
pub fn plan_save(entries: &[(u128, u32)], existing: &[Option<u32>]) -> (r: (Vec<(u128, u32)>, SaveStats))
    requires
        existing@.len() == entries@.len(),
        entries@.len() <= u64::MAX,
    ensures
        r.0@ == save_writes(entries@, existing@, entries@.len()),
        r.1.inserted == count_outcome(entries@, existing@, SaveOutcome::Inserted, entries@.len()),
        r.1.overwritten == count_outcome(entries@, existing@, SaveOutcome::Overwritten, entries@.len()),
        r.1.rejected_by_exact == count_outcome(entries@, existing@, SaveOutcome::RejectedByExact, entries@.len()),
        r.1.rejected_other == count_outcome(entries@, existing@, SaveOutcome::RejectedOther, entries@.len()),
        r.0@.len() == r.1.written_count(),
        r.1.offered_count() == entries@.len(),
{
    let mut writes: Vec<(u128, u32)> = Vec::new();
    let mut stats = SaveStats::default();
    let mut i: usize = 0;
    while i < entries.len()
        invariant
            i <= entries@.len(),
            existing@.len() == entries@.len(),
            entries@.len() <= u64::MAX,
            writes@ == save_writes(entries@, existing@, i as nat),
            stats.inserted == count_outcome(entries@, existing@, SaveOutcome::Inserted, i as nat),
            stats.overwritten == count_outcome(entries@, existing@, SaveOutcome::Overwritten, i as nat),
            stats.rejected_by_exact == count_outcome(entries@, existing@, SaveOutcome::RejectedByExact, i as nat),
            stats.rejected_other == count_outcome(entries@, existing@, SaveOutcome::RejectedOther, i as nat),
            writes@.len() == stats.inserted + stats.overwritten,
            stats.inserted + stats.overwritten + stats.rejected_by_exact + stats.rejected_other == i,
        decreases entries@.len() - i,
    {
        let entry = entries[i];
        match decide_save(entry.1, existing[i]) {
            SaveOutcome::Inserted => {
                writes.push(entry);
                stats.inserted = stats.inserted + 1;
            },
            SaveOutcome::Overwritten => {
                writes.push(entry);
                stats.overwritten = stats.overwritten + 1;
            },
            SaveOutcome::RejectedByExact => {
                stats.rejected_by_exact = stats.rejected_by_exact + 1;
            },
            SaveOutcome::RejectedOther => {
                stats.rejected_other = stats.rejected_other + 1;
            },
        }
        i += 1;
    }
    (writes, stats)
}

/// A table after the first `n` entries have been offered to it one by one.
pub open spec fn saved(table: Map<u128, u32>, entries: Seq<(u128, u32)>, n: nat) -> Map<u128, u32>
    decreases n,
{
    if n == 0 {
        table
    } else {
        let before = saved(table, entries, (n - 1) as nat);
        let (key, packed) = entries[n - 1];
        if !before.contains_key(key) || dominates(packed, before[key]) {
            before.insert(key, packed)
        } else {
            before
        }
    }
}

/// A table after the first `n` of some writes.
pub open spec fn with_writes(table: Map<u128, u32>, writes: Seq<(u128, u32)>, n: nat) -> Map<u128, u32>
    decreases n,
{
    if n == 0 {
        table
    } else {
        with_writes(table, writes, (n - 1) as nat).insert(writes[n - 1].0, writes[n - 1].1)
    }
}

/// What a table has under a key.
pub open spec fn under(table: Map<u128, u32>, key: u128) -> Option<u32> {
    if table.contains_key(key) {
        Some(table[key])
    } else {
        None
    }
}

/// Keys are listed once.
pub open spec fn distinct_keys(entries: Seq<(u128, u32)>) -> bool {
    forall|i: int, j: int| 0 <= i < j < entries.len() ==> (#[trigger] entries[i]).0 != (#[trigger] entries[j]).0
}

/// Offering entries changes nothing under other keys.
proof fn lemma_saved_elsewhere(table: Map<u128, u32>, entries: Seq<(u128, u32)>, n: nat, key: u128)
    requires
        n <= entries.len(),
        forall|i: int| 0 <= i < n ==> (#[trigger] entries[i]).0 != key,
    ensures
        under(saved(table, entries, n), key) == under(table, key),
    decreases n,
{
    if n > 0 {
        lemma_saved_elsewhere(table, entries, (n - 1) as nat, key);
        assert(entries[n - 1].0 != key);
    }
}

proof fn lemma_writes_prefix(table: Map<u128, u32>, a: Seq<(u128, u32)>, b: Seq<(u128, u32)>, n: nat)
    requires
        n <= a.len(),
        n <= b.len(),
        forall|i: int| 0 <= i < n ==> a[i] == b[i],
    ensures
        with_writes(table, a, n) == with_writes(table, b, n),
    decreases n,
{
    if n > 0 {
        lemma_writes_prefix(table, a, b, (n - 1) as nat);
    }
}

/// Deciding a whole batch by what the disk had before it comes to the same as
/// offering the entries one by one.
pub proof fn lemma_save_batch(table: Map<u128, u32>, entries: Seq<(u128, u32)>, existing: Seq<Option<u32>>, n: nat)
    requires
        n <= entries.len(),
        existing.len() == entries.len(),
        distinct_keys(entries),
        forall|i: int| 0 <= i < entries.len() ==> #[trigger] existing[i] == under(table, entries[i].0),
    ensures
        with_writes(table, save_writes(entries, existing, n), save_writes(entries, existing, n).len()) == saved(table, entries, n),
    decreases n,
{
    if n > 0 {
        let p = (n - 1) as nat;
        lemma_save_batch(table, entries, existing, p);
        lemma_saved_elsewhere(table, entries, p, entries[n - 1].0);
        assert(existing[n - 1] == under(table, entries[n - 1].0));
        let before = save_writes(entries, existing, p);
        let after = save_writes(entries, existing, n);
        lemma_writes_prefix(table, before, after, before.len());
    }
}

/// An exact entry survives every later save.
pub proof fn lemma_saved_keeps_exact(table: Map<u128, u32>, entries: Seq<(u128, u32)>, n: nat, key: u128)
    requires
        n <= entries.len(),
        table.contains_key(key),
        tt_bound(table[key]) == BOUND_EXACT,
    ensures
        under(saved(table, entries, n), key) == Some(table[key]),
    decreases n,
{
    if n > 0 {
        lemma_saved_keeps_exact(table, entries, (n - 1) as nat, key);
    }
}

/// Where every entry on disk and every entry offered is true of a position, the
/// entry kept is true of it, whatever the order of the saves.
pub proof fn lemma_saved_true(table: Map<u128, u32>, entries: Seq<(u128, u32)>, n: nat, key: u128, v: int)
    requires
        n <= entries.len(),
        table.contains_key(key) ==> claims(table[key], v),
        forall|i: int| 0 <= i < entries.len() && (#[trigger] entries[i]).0 == key ==> claims(entries[i].1, v),
    ensures
        saved(table, entries, n).contains_key(key) ==> claims(saved(table, entries, n)[key], v),
    decreases n,
{
    if n > 0 {
        lemma_saved_true(table, entries, (n - 1) as nat, key, v);
        assert(entries[n - 1].0 == key ==> claims(entries[n - 1].1, v));
    }
}

/// An exact entry that was offered is not lost: an exact entry is kept under its
/// key.
pub proof fn lemma_saved_exact_arrives(table: Map<u128, u32>, entries: Seq<(u128, u32)>, n: nat, i: int)
    requires
        0 <= i < n <= entries.len(),
        tt_bound(entries[i].1) == BOUND_EXACT,
    ensures
        saved(table, entries, n).contains_key(entries[i].0),
        tt_bound(saved(table, entries, n)[entries[i].0]) == BOUND_EXACT,
    decreases n,
{
    if i < n - 1 {
        lemma_saved_exact_arrives(table, entries, (n - 1) as nat, i);
    }
}

/// An entry that has been offered does not take the place of what is kept.
proof fn lemma_saved_settles(table: Map<u128, u32>, entries: Seq<(u128, u32)>, n: nat, i: int)
    requires
        0 <= i < n <= entries.len(),
    ensures
        saved(table, entries, n).contains_key(entries[i].0),
        !dominates(entries[i].1, saved(table, entries, n)[entries[i].0]),
    decreases n,
{
    if i < n - 1 {
        lemma_saved_settles(table, entries, (n - 1) as nat, i);
    }
}

proof fn lemma_settled_saved(table: Map<u128, u32>, entries: Seq<(u128, u32)>, n: nat)
    requires
        n <= entries.len(),
        forall|i: int|
            0 <= i < n ==> table.contains_key((#[trigger] entries[i]).0) && !dominates(entries[i].1, table[entries[i].0]),
    ensures
        saved(table, entries, n) == table,
    decreases n,
{
    if n > 0 {
        lemma_settled_saved(table, entries, (n - 1) as nat);
        assert(table.contains_key(entries[n - 1].0));
    }
}

proof fn lemma_settled_writes(entries: Seq<(u128, u32)>, existing: Seq<Option<u32>>, n: nat)
    requires
        n <= entries.len(),
        existing.len() == entries.len(),
        forall|i: int| 0 <= i < n ==> !written(#[trigger] save_outcome(entries[i].1, existing[i])),
    ensures
        save_writes(entries, existing, n) == Seq::<(u128, u32)>::empty(),
        count_outcome(entries, existing, SaveOutcome::Inserted, n) == 0,
        count_outcome(entries, existing, SaveOutcome::Overwritten, n) == 0,
    decreases n,
{
    if n > 0 {
        lemma_settled_writes(entries, existing, (n - 1) as nat);
        assert(!written(save_outcome(entries[n - 1].1, existing[n - 1])));
    }
}

/// Saving the same entries again writes nothing and leaves the table as it is.
pub proof fn lemma_save_again(table: Map<u128, u32>, entries: Seq<(u128, u32)>, existing: Seq<Option<u32>>)
    requires
        existing.len() == entries.len(),
        forall|i: int|
            0 <= i < entries.len() ==> #[trigger] existing[i] == under(saved(table, entries, entries.len()), entries[i].0),
    ensures
        save_writes(entries, existing, entries.len()) == Seq::<(u128, u32)>::empty(),
        count_outcome(entries, existing, SaveOutcome::Inserted, entries.len()) == 0,
        count_outcome(entries, existing, SaveOutcome::Overwritten, entries.len()) == 0,
        saved(saved(table, entries, entries.len()), entries, entries.len()) == saved(table, entries, entries.len()),
{
    let after = saved(table, entries, entries.len());
    assert forall|i: int| 0 <= i < entries.len() implies !written(#[trigger] save_outcome(entries[i].1, existing[i])) by {
        lemma_saved_settles(table, entries, entries.len(), i);
        assert(existing[i] == under(after, entries[i].0));
    }
    assert forall|i: int| 0 <= i < entries.len() implies after.contains_key((#[trigger] entries[i]).0) && !dominates(
        entries[i].1,
        after[entries[i].0],
    ) by {
        lemma_saved_settles(table, entries, entries.len(), i);
    }
    lemma_settled_writes(entries, existing, entries.len());
    lemma_settled_saved(after, entries, entries.len());
}

/// The bytes under which an entry is stored and those that are stored.
pub fn entry_bytes(key: u128, packed: u32) -> (r: (Vec<u8>, Vec<u8>))
    ensures
        r.0@ == spec_u128_to_le_bytes(key),
        r.1@ == spec_u32_to_le_bytes(packed),
{
    (u128_to_le_bytes(key), u32_to_le_bytes(packed))
}

/// What stored bytes hold.
pub open spec fn packed_in(bytes: Seq<u8>) -> Option<u32> {
    if bytes.len() >= 4 {
        Some(spec_u32_from_le_bytes(bytes.take(4)))
    } else {
        None
    }
}

/// Read a stored value; `None` where there are too few bytes.
pub fn read_packed(bytes: &[u8]) -> (r: Option<u32>)
    ensures
        r == packed_in(bytes@),
{
    if bytes.len() < 4 {
        return None;
    }
    let first = slice_subrange(bytes, 0, 4);
    assert(first@ =~= bytes@.take(4));
    Some(u32_from_le_bytes(first))
}

/// The entry in a pair of stored key and value.
pub open spec fn entry_in(key: Seq<u8>, bytes: Seq<u8>) -> Option<(u128, u32)> {
    if key.len() == 16 && bytes.len() >= 4 {
        Some((spec_u128_from_le_bytes(key), spec_u32_from_le_bytes(bytes.take(4))))
    } else {
        None
    }
}

/// Read a stored entry; `None` where it is malformed.
pub fn read_entry(key: &[u8], bytes: &[u8]) -> (r: Option<(u128, u32)>)
    ensures
        r == entry_in(key@, bytes@),
{
    if key.len() != 16 {
        return None;
    }
    match read_packed(bytes) {
        None => None,
        Some(packed) => Some((u128_from_le_bytes(key), packed)),
    }
}

/// What was stored is what is read.
pub proof fn lemma_entry_round_trip(key: u128, packed: u32)
    ensures
        entry_in(spec_u128_to_le_bytes(key), spec_u32_to_le_bytes(packed)) == Some((key, packed)),
        packed_in(spec_u32_to_le_bytes(packed)) == Some(packed),
{
    vstd::bytes::lemma_auto_spec_u32_to_from_le_bytes();
    vstd::bytes::lemma_auto_spec_u128_to_from_le_bytes();
    let b = spec_u32_to_le_bytes(packed);
    assert(b.take(4) =~= b);
}

/// The name of the directory for words of this length with this hash.
pub open spec fn table_dir_name(word_length: usize, hash: u64) -> Seq<char> {
    "tt_len"@ + decimal(word_length as nat) + "_"@ + hex(hash as nat, 16)
}

/// The name of the directory that holds the table for a word list.
pub fn db_dir_name(word_length: usize, words: &[Vec<u8>]) -> (r: String)
    ensures
        r@ == table_dir_name(word_length, word_set_hash(words@)),
        r@ == "tt_len"@ + decimal(word_length as nat) + "_"@ + hex(word_set_hash(words@) as nat, 16),
{
    let mut s = String::new();
    push_text(&mut s, "tt_len");
    push_decimal(&mut s, word_length as u64);
    push_text(&mut s, "_");
    push_hex(&mut s, hash_word_set(words), 16);
    proof {
        assert(s@ =~= table_dir_name(word_length, word_set_hash(words@)));
    }
    s
}

/// What becomes of an entry: it is inserted where there is none, overwrites one that it
/// dominates, and is else turned away, by an exact one or by another.
pub proof fn lemma_outcomes(new_packed: u32, old_packed: u32)
    ensures
        save_outcome(new_packed, None) == SaveOutcome::Inserted,
        save_outcome(new_packed, Some(old_packed)) == SaveOutcome::Overwritten <==> dominates(new_packed, old_packed),
        save_outcome(new_packed, Some(old_packed)) == SaveOutcome::RejectedByExact <==> tt_bound(old_packed) == 0,
        save_outcome(new_packed, Some(old_packed)) == SaveOutcome::RejectedOther <==> tt_bound(old_packed) != 0 && !dominates(
            new_packed,
            old_packed,
        ),
{
}

/// A save writes what is new and what dominates, as it is, and nothing else.
pub proof fn lemma_written_entries(entries: Seq<(u128, u32)>, existing: Seq<Option<u32>>, n: nat)
    requires
        n <= entries.len(),
        existing.len() == entries.len(),
    ensures
        save_writes(entries, existing, n).len() <= n,
        forall|i: int|
            0 <= i < n && (existing[i] is None || dominates(entries[i].1, existing[i]->0)) ==> save_writes(entries, existing, n).contains(
                #[trigger] entries[i],
            ),
        forall|t: int|
            0 <= t < save_writes(entries, existing, n).len() ==> exists|i: int|
                0 <= i < n && #[trigger] entries[i] == #[trigger] save_writes(entries, existing, n)[t] && (existing[i] is None || dominates(
                    entries[i].1,
                    existing[i]->0,
                )),
    decreases n,
{
    if n > 0 {
        lemma_written_entries(entries, existing, (n - 1) as nat);
        let before = save_writes(entries, existing, (n - 1) as nat);
        let after = save_writes(entries, existing, n);
        assert forall|i: int| 0 <= i < n && (existing[i] is None || dominates(entries[i].1, existing[i]->0)) implies after.contains(
            #[trigger] entries[i],
        ) by {
            if i < n - 1 {
                assert(before.contains(entries[i]));
                let t = choose|t: int| 0 <= t < before.len() && before[t] == entries[i];
                assert(after[t] == entries[i]);
            } else {
                assert(after[after.len() - 1] == entries[i]);
            }
        }
        assert forall|t: int| 0 <= t < after.len() implies exists|i: int|
            0 <= i < n && #[trigger] entries[i] == #[trigger] after[t] && (existing[i] is None || dominates(entries[i].1, existing[i]->0)) by {
            if t < before.len() {
                let e = before[t];
                let i = choose|i: int|
                    0 <= i < n - 1 && #[trigger] entries[i] == before[t] && (existing[i] is None || dominates(entries[i].1, existing[i]->0));
                assert(entries[i] == after[t]);
            } else {
                assert(entries[n - 1] == after[t]);
            }
        }
    }
}

/// What a save counts: each entry under its outcome, once.
pub proof fn lemma_outcomes_counted(entries: Seq<(u128, u32)>, existing: Seq<Option<u32>>, o: SaveOutcome, i: nat)
    requires
        i < entries.len(),
    ensures
        count_outcome(entries, existing, o, 0) == 0,
        save_outcome(entries[i as int].1, existing[i as int]) == o ==> count_outcome(entries, existing, o, i + 1) == count_outcome(
            entries,
            existing,
            o,
            i,
        ) + 1,
        save_outcome(entries[i as int].1, existing[i as int]) != o ==> count_outcome(entries, existing, o, i + 1) == count_outcome(
            entries,
            existing,
            o,
            i,
        ),
{
}

/// Nothing is made up: what a table has under a key after a save is what it had before,
/// or what one of the entries says of the key, unchanged.
pub proof fn lemma_saved_from_entries(table: Map<u128, u32>, entries: Seq<(u128, u32)>, n: nat, key: u128)
    requires
        n <= entries.len(),
    ensures
        under(saved(table, entries, n), key) == under(table, key) || exists|i: int|
            0 <= i < n && (#[trigger] entries[i]).0 == key && under(saved(table, entries, n), key) == Some(entries[i].1),
    decreases n,
{
    if n > 0 {
        lemma_saved_from_entries(table, entries, (n - 1) as nat, key);
        let before = saved(table, entries, (n - 1) as nat);
        let after = saved(table, entries, n);
        if under(after, key) == under(before, key) {
            if under(before, key) != under(table, key) {
                let i = choose|i: int| 0 <= i < n - 1 && (#[trigger] entries[i]).0 == key && under(before, key) == Some(entries[i].1);
                assert(entries[i].0 == key && under(after, key) == Some(entries[i].1));
            }
        } else {
            assert(entries[n - 1].0 == key && under(after, key) == Some(entries[n - 1].1));
        }
    }
}

/// Where keys are listed once, a save leaves under the key of an entry the entry, if
/// there was none or one that it dominates, and else what was there; under other keys it
/// changes nothing.
pub proof fn lemma_saved_each(table: Map<u128, u32>, entries: Seq<(u128, u32)>, n: nat, i: int)
    requires
        0 <= i < n <= entries.len(),
        forall|a: int, b: int| 0 <= a < b < entries.len() ==> (#[trigger] entries[a]).0 != (#[trigger] entries[b]).0,
    ensures
        !table.contains_key(entries[i].0) || dominates(entries[i].1, table[entries[i].0]) ==> under(saved(table, entries, n), entries[i].0)
            == Some(entries[i].1),
        table.contains_key(entries[i].0) && !dominates(entries[i].1, table[entries[i].0]) ==> under(saved(table, entries, n), entries[i].0)
            == Some(table[entries[i].0]),
        forall|key: u128| (forall|a: int| 0 <= a < n ==> (#[trigger] entries[a]).0 != key) ==> #[trigger] under(saved(table, entries, n), key)
            == under(table, key),
    decreases n,
{
    if i < n - 1 {
        lemma_saved_each(table, entries, (n - 1) as nat, i);
        assert(entries[i].0 != entries[n - 1].0);
    } else {
        assert forall|a: int| 0 <= a < n - 1 implies (#[trigger] entries[a]).0 != entries[i].0 by {}
        lemma_saved_elsewhere(table, entries, (n - 1) as nat, entries[i].0);
    }
    assert forall|key: u128| (forall|a: int| 0 <= a < n ==> (#[trigger] entries[a]).0 != key) implies #[trigger] under(
        saved(table, entries, n),
        key,
    ) == under(table, key) by {
        lemma_saved_elsewhere(table, entries, n, key);
    }
}

/// Stored bytes are read as far as they go: a key of sixteen bytes and a value of four,
/// lowest byte first; with fewer there is no entry.
pub proof fn lemma_stored_bytes(key: Seq<u8>, bytes: Seq<u8>)
    ensures
        packed_in(bytes) is Some <==> bytes.len() >= 4,
        entry_in(key, bytes) is Some <==> key.len() == 16 && bytes.len() >= 4,
        packed_in(bytes) matches Some(v) ==> v == spec_u32_from_le_bytes(bytes.take(4)),
        entry_in(key, bytes) matches Some(e) ==> e.0 == spec_u128_from_le_bytes(key) && packed_in(bytes) == Some(e.1),
{
}

/// The counts of a save: what was written is what was new or overwritten, and what was
/// offered is that and what was turned away.
pub proof fn lemma_save_counts(s: SaveStats)
    ensures
        s.written_count() == s.inserted + s.overwritten,
        s.offered_count() == s.written_count() + s.rejected_by_exact + s.rejected_other,
{
}

/// The entries to write come in the order in which they are offered.
pub proof fn lemma_writes_in_turn(entries: Seq<(u128, u32)>, existing: Seq<Option<u32>>, n: nat)
    requires
        n < entries.len(),
        existing.len() == entries.len(),
    ensures
        save_writes(entries, existing, 0) == Seq::<(u128, u32)>::empty(),
        existing[n as int] is None || dominates(entries[n as int].1, existing[n as int]->0) ==> save_writes(entries, existing, n + 1)
            == save_writes(entries, existing, n) + seq![entries[n as int]],
        existing[n as int] is Some && !dominates(entries[n as int].1, existing[n as int]->0) ==> save_writes(entries, existing, n + 1)
            == save_writes(entries, existing, n),
{
    assert(save_writes(entries, existing, n).push(entries[n as int]) =~= save_writes(entries, existing, n) + seq![entries[n as int]]);
}

} // verus!
