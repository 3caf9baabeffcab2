//! Merging tables that were computed apart.
//!
//! When the positions of a word list are shared out among machines, each produces
//! a table of its own. Merging goes through the sources in order and writes every
//! entry to the destination. With `prefer_exact` an exact entry of the destination
//! is not given up for a bound.
use std::collections::HashMap;

use vstd::bytes::{spec_u128_from_le_bytes, spec_u32_from_le_bytes};
use vstd::prelude::*;

use crate::solver::disk_cache::{entry_in, read_entry};
use crate::solver::tt::{tt_bound, BOUND_EXACT, BOUND_SHIFT};

verus! {

/// The kind of bound in a packed entry.
pub fn bound_of(packed: u32) -> (r: u32)
    ensures
        r == tt_bound(packed),
{
    (packed >> BOUND_SHIFT) & 3
}

/// Whether a packed entry is exact.
pub fn is_exact(packed: u32) -> (r: bool)
    ensures
        r == (tt_bound(packed) == BOUND_EXACT),
{
    bound_of(packed) == BOUND_EXACT
}

/// Statistics from a merge.
#[derive(Debug, Clone, Copy, PartialEq, Eq)]
pub struct MergeStats {
    pub sources_scanned: usize,
    pub entries_read: usize,
    pub entries_written: usize,
    /// How often an exact entry of the destination was kept over an incoming bound.
    pub exact_preserved: usize,
}

impl Default for MergeStats {
    fn default() -> (r: Self)
        ensures
            r == (MergeStats { sources_scanned: 0, entries_read: 0, entries_written: 0, exact_preserved: 0 }),
    {
        MergeStats { sources_scanned: 0, entries_read: 0, entries_written: 0, exact_preserved: 0 }
    }
}

/// The existing entry is kept over the incoming one.
pub open spec fn keeps(incoming: u32, existing: Option<u32>, prefer_exact: bool) -> bool {
    prefer_exact && tt_bound(incoming) != BOUND_EXACT && existing is Some && tt_bound(existing->0) == BOUND_EXACT
}

/// Whether the existing entry is kept over the incoming one.
pub fn keeps_existing(incoming: u32, existing: Option<u32>, prefer_exact: bool) -> (r: bool)
    ensures
        r == keeps(incoming, existing, prefer_exact),
        r <==> prefer_exact && tt_bound(incoming) != 0 && (existing matches Some(e) && tt_bound(e) == 0),
{
    if prefer_exact && !is_exact(incoming) {
        match existing {
            Some(e) => is_exact(e),
            None => false,
        }
    } else {
        false
    }
}

/// What a table has under a key.
pub open spec fn held(table: Map<u128, u32>, key: u128) -> Option<u32> {
    if table.contains_key(key) {
        Some(table[key])
    } else {
        None
    }
}

/// The destination after the first `n` entries.
pub open spec fn merged(dest: Map<u128, u32>, entries: Seq<(u128, u32)>, prefer_exact: bool, n: nat) -> Map<u128, u32>
    decreases n,
{
    if n == 0 {
        dest
    } else {
        let before = merged(dest, entries, prefer_exact, (n - 1) as nat);
        let (key, packed) = entries[n - 1];
        if keeps(packed, held(before, key), prefer_exact) {
            before
        } else {
            before.insert(key, packed)
        }
    }
}

/// How many of the first `n` entries were turned away.
pub open spec fn turned_away(dest: Map<u128, u32>, entries: Seq<(u128, u32)>, prefer_exact: bool, n: nat) -> nat
    decreases n,
{
    if n == 0 {
        0
    } else {
        let before = merged(dest, entries, prefer_exact, (n - 1) as nat);
        let (key, packed) = entries[n - 1];
        turned_away(dest, entries, prefer_exact, (n - 1) as nat) + if keeps(packed, held(before, key), prefer_exact) {
            1nat
        } else {
            0nat
        }
    }
}

/// The well-formed entries among the first `n` stored pairs.
pub open spec fn readable(pairs: Seq<(Vec<u8>, Vec<u8>)>, n: nat) -> Seq<(u128, u32)>
    decreases n,
{
    if n == 0 {
        Seq::empty()
    } else {
        let before = readable(pairs, (n - 1) as nat);
        match entry_in(pairs[n - 1].0@, pairs[n - 1].1@) {
            Some(e) => before.push(e),
            None => before,
        }
    }
}

/// The well-formed entries of the first `n` sources, in order.
pub open spec fn all_readable(sources: Seq<Vec<(Vec<u8>, Vec<u8>)>>, n: nat) -> Seq<(u128, u32)>
    decreases n,
{
    if n == 0 {
        Seq::empty()
    } else {
        all_readable(sources, (n - 1) as nat) + readable(sources[n - 1]@, sources[n - 1]@.len())
    }
}

/// How many pairs the first `n` sources hold.
pub open spec fn pair_count(sources: Seq<Vec<(Vec<u8>, Vec<u8>)>>, n: nat) -> nat
    decreases n,
{
    if n == 0 {
        0
    } else {
        pair_count(sources, (n - 1) as nat) + sources[n - 1]@.len()
    }
}

/// Merging depends only on the entries up to there.
proof fn lemma_merged_prefix(dest: Map<u128, u32>, a: Seq<(u128, u32)>, b: Seq<(u128, u32)>, prefer_exact: bool, n: nat)
    requires
        n <= a.len(),
        n <= b.len(),
        forall|i: int| 0 <= i < n ==> a[i] == b[i],
    ensures
        merged(dest, a, prefer_exact, n) == merged(dest, b, prefer_exact, n),
        turned_away(dest, a, prefer_exact, n) == turned_away(dest, b, prefer_exact, n),
    decreases n,
{
    if n > 0 {
        lemma_merged_prefix(dest, a, b, prefer_exact, (n - 1) as nat);
    }
}

/// Merging in batches comes to the same as merging in one go.
pub proof fn lemma_merge_batches(dest: Map<u128, u32>, a: Seq<(u128, u32)>, b: Seq<(u128, u32)>, prefer_exact: bool, n: nat)
    requires
        n <= b.len(),
    ensures
        merged(dest, a + b, prefer_exact, a.len() + n) == merged(merged(dest, a, prefer_exact, a.len()), b, prefer_exact, n),
        turned_away(dest, a + b, prefer_exact, a.len() + n) == turned_away(dest, a, prefer_exact, a.len()) + turned_away(
            merged(dest, a, prefer_exact, a.len()),
            b,
            prefer_exact,
            n,
        ),
    decreases n,
{
    if n == 0 {
        lemma_merged_prefix(dest, a + b, a, prefer_exact, a.len());
    } else {
        lemma_merge_batches(dest, a, b, prefer_exact, (n - 1) as nat);
        assert((a + b)[a.len() + n - 1] == b[n - 1]);
    }
}

proof fn lemma_turned_away_bound(dest: Map<u128, u32>, entries: Seq<(u128, u32)>, prefer_exact: bool, n: nat)
    ensures
        turned_away(dest, entries, prefer_exact, n) <= n,
    decreases n,
{
    if n > 0 {
        lemma_turned_away_bound(dest, entries, prefer_exact, (n - 1) as nat);
    }
}

/// The destination ends up with the keys that it had and those of the entries.
pub proof fn lemma_merge_is_union(dest: Map<u128, u32>, entries: Seq<(u128, u32)>, prefer_exact: bool, n: nat, key: u128)
    requires
        n <= entries.len(),
    ensures
        merged(dest, entries, prefer_exact, n).contains_key(key) == (dest.contains_key(key) || exists|i: int|
            0 <= i < n && (#[trigger] entries[i]).0 == key),
    decreases n,
{
    if n > 0 {
        lemma_merge_is_union(dest, entries, prefer_exact, (n - 1) as nat, key);
        if entries[n - 1].0 == key {
            let before = merged(dest, entries, prefer_exact, (n - 1) as nat);
            assert(entries[n - 1].0 == key);
        }
    }
}

/// A key that no entry has is left as it was.
pub proof fn lemma_merge_leaves_others(dest: Map<u128, u32>, entries: Seq<(u128, u32)>, prefer_exact: bool, n: nat, key: u128)
    requires
        n <= entries.len(),
        forall|i: int| 0 <= i < n ==> (#[trigger] entries[i]).0 != key,
    ensures
        held(merged(dest, entries, prefer_exact, n), key) == held(dest, key),
    decreases n,
{
    if n > 0 {
        lemma_merge_leaves_others(dest, entries, prefer_exact, (n - 1) as nat, key);
        assert(entries[n - 1].0 != key);
    }
}

/// Without `prefer_exact` no entry is turned away.
proof fn lemma_all_taken(dest: Map<u128, u32>, entries: Seq<(u128, u32)>, n: nat)
    ensures
        turned_away(dest, entries, false, n) == 0,
    decreases n,
{
    if n > 0 {
        lemma_all_taken(dest, entries, (n - 1) as nat);
    }
}

/// Without `prefer_exact` the last write wins.
pub proof fn lemma_last_write_wins(dest: Map<u128, u32>, entries: Seq<(u128, u32)>, n: nat, i: int)
    requires
        0 <= i < n <= entries.len(),
        forall|j: int| i < j < n ==> (#[trigger] entries[j]).0 != entries[i].0,
    ensures
        held(merged(dest, entries, false, n), entries[i].0) == Some(entries[i].1),
    decreases n,
{
    if i < n - 1 {
        lemma_last_write_wins(dest, entries, (n - 1) as nat, i);
        assert(entries[n - 1].0 != entries[i].0);
    }
}

/// With `prefer_exact` a key that has an exact entry keeps one.
pub proof fn lemma_exact_preserved(dest: Map<u128, u32>, entries: Seq<(u128, u32)>, n: nat, key: u128)
    requires
        n <= entries.len(),
        dest.contains_key(key),
        tt_bound(dest[key]) == BOUND_EXACT,
    ensures
        merged(dest, entries, true, n).contains_key(key),
        tt_bound(merged(dest, entries, true, n)[key]) == BOUND_EXACT,
    decreases n,
{
    if n > 0 {
        lemma_exact_preserved(dest, entries, (n - 1) as nat, key);
    }
}

/// Write a batch to the destination. Returns how many entries were turned away.
fn flush_batch(dest: &mut HashMap<u128, u32>, batch: &Vec<(u128, u32)>, prefer_exact: bool) -> (preserved: usize)
    ensures
        final(dest)@ == merged(old(dest)@, batch@, prefer_exact, batch@.len()),
        preserved == turned_away(old(dest)@, batch@, prefer_exact, batch@.len()),
        preserved <= batch@.len(),
{
    broadcast use vstd::std_specs::hash::group_hash_axioms;

    let ghost start = dest@;
    let mut preserved: usize = 0;
    let mut i: usize = 0;
    while i < batch.len()
        invariant
            i <= batch@.len(),
            dest@ == merged(start, batch@, prefer_exact, i as nat),
            preserved == turned_away(start, batch@, prefer_exact, i as nat),
            preserved <= i,
            start == old(dest)@,
        decreases batch@.len() - i,
    {
        let (key, packed) = batch[i];
        let existing: Option<u32> = match dest.get(&key) {
            Some(e) => Some(*e),
            None => None,
        };
        if keeps_existing(packed, existing, prefer_exact) {
            preserved += 1;
        } else {
            dest.insert(key, packed);
        }
        i += 1;
    }
    preserved
}

/// Merge the stored pairs of each source into the destination, some at a time.
/// Malformed pairs are skipped.
pub fn merge_caches(
    sources: &[Vec<(Vec<u8>, Vec<u8>)>],
    dest: &mut HashMap<u128, u32>,
    prefer_exact: bool,
    batch_size: usize,
) -> (stats: MergeStats)
    requires
        pair_count(sources@, sources@.len()) <= usize::MAX,
    ensures
        ({
            let entries = all_readable(sources@, sources@.len());
            &&& final(dest)@ == merged(old(dest)@, entries, prefer_exact, entries.len())
            &&& stats.sources_scanned == sources@.len()
            &&& stats.entries_read == entries.len()
            &&& stats.exact_preserved == turned_away(old(dest)@, entries, prefer_exact, entries.len())
            &&& stats.entries_written == stats.entries_read - stats.exact_preserved
            &&& !prefer_exact ==> stats.exact_preserved == 0
        }),
{
    let batch_size: usize = if batch_size == 0 {
        1
    } else {
        batch_size
    };
    let mut stats = MergeStats::default();
    let ghost start = dest@;
    let ghost mut done: Seq<(u128, u32)> = Seq::empty();
    let mut s: usize = 0;
    while s < sources.len()
        invariant
            s <= sources@.len(),
            batch_size > 0,
            start == old(dest)@,
            pair_count(sources@, sources@.len()) <= usize::MAX,
            done == all_readable(sources@, s as nat),
            done.len() <= pair_count(sources@, s as nat),
            dest@ == merged(start, done, prefer_exact, done.len()),
            stats.sources_scanned == s,
            stats.entries_read == done.len(),
            stats.exact_preserved == turned_away(start, done, prefer_exact, done.len()),
            stats.entries_written == done.len() - stats.exact_preserved,
            stats.exact_preserved <= done.len(),
        decreases sources@.len() - s,
    {
        stats.sources_scanned = stats.sources_scanned + 1;
        let pairs = &sources[s];
        let ghost from = done;
        proof {
            lemma_pair_count(sources@, (s + 1) as nat);
        }
        let mut batch: Vec<(u128, u32)> = Vec::new();
        assert(from + readable(pairs@, 0) =~= done + batch@);
        let mut i: usize = 0;
        while i < pairs.len()
            invariant
                i <= pairs@.len(),
                batch_size > 0,
                from.len() + pairs@.len() <= usize::MAX,
                readable(pairs@, i as nat).len() <= i,
                done + batch@ == from + readable(pairs@, i as nat),
                dest@ == merged(start, done, prefer_exact, done.len()),
                stats.sources_scanned == s + 1,
                stats.entries_read == done.len() + batch@.len(),
                stats.exact_preserved == turned_away(start, done, prefer_exact, done.len()),
                stats.entries_written == done.len() - stats.exact_preserved,
                stats.exact_preserved <= done.len(),
            decreases pairs@.len() - i,
        {
            let pair = &pairs[i];
            match read_entry(pair.0.as_slice(), pair.1.as_slice()) {
                Some(entry) => {
                    let ghost pending = batch@;
                    batch.push(entry);
                    assert(done + batch@ =~= (done + pending).push(entry));
                    assert((from + readable(pairs@, i as nat)).push(entry) =~= from + readable(pairs@, (i + 1) as nat));
                    assert((done + batch@).len() == done.len() + batch@.len());
                    assert((from + readable(pairs@, (i + 1) as nat)).len() == from.len() + readable(pairs@, (i + 1) as nat).len());
                    stats.entries_read = stats.entries_read + 1;
                    if batch.len() >= batch_size {
                        let preserved: usize = flush_batch(dest, &batch, prefer_exact);
                        proof {
                            lemma_merge_batches(start, done, batch@, prefer_exact, batch@.len());
                            lemma_turned_away_bound(start, done + batch@, prefer_exact, (done + batch@).len());
                            done = done + batch@;
                        }
                        stats.exact_preserved = stats.exact_preserved + preserved;
                        stats.entries_written = stats.entries_written + (batch.len() - preserved);
                        batch = Vec::new();
                        assert(done + batch@ =~= done);
                    }
                },
                None => {},
            }
            i += 1;
        }
        if batch.len() > 0 {
            assert((done + batch@).len() == done.len() + batch@.len());
            assert((from + readable(pairs@, i as nat)).len() == from.len() + readable(pairs@, i as nat).len());
            let preserved: usize = flush_batch(dest, &batch, prefer_exact);
            proof {
                lemma_merge_batches(start, done, batch@, prefer_exact, batch@.len());
                lemma_turned_away_bound(start, done + batch@, prefer_exact, (done + batch@).len());
                done = done + batch@;
            }
            stats.exact_preserved = stats.exact_preserved + preserved;
            stats.entries_written = stats.entries_written + (batch.len() - preserved);
        } else {
            assert(done + batch@ =~= done);
        }
        s += 1;
    }
    proof {
        if !prefer_exact {
            lemma_all_taken(start, done, done.len());
        }
    }
    stats
}

proof fn lemma_pair_count(sources: Seq<Vec<(Vec<u8>, Vec<u8>)>>, n: nat)
    requires
        n <= sources.len(),
    ensures
        pair_count(sources, n) <= pair_count(sources, sources.len()),
    decreases sources.len() - n,
{
    if n < sources.len() {
        lemma_pair_count(sources, n + 1);
    }
}

/// Nothing is made up: what the destination holds under a key is what it held before, or
/// what one of the entries says of the key, unchanged.
pub proof fn lemma_merge_from_entries(dest: Map<u128, u32>, entries: Seq<(u128, u32)>, prefer_exact: bool, n: nat, key: u128)
    requires
        n <= entries.len(),
    ensures
        held(merged(dest, entries, prefer_exact, n), key) == held(dest, key) || exists|i: int|
            0 <= i < n && (#[trigger] entries[i]).0 == key && held(merged(dest, entries, prefer_exact, n), key) == Some(entries[i].1),
    decreases n,
{
    if n > 0 {
        lemma_merge_from_entries(dest, entries, prefer_exact, (n - 1) as nat, key);
        let before = merged(dest, entries, prefer_exact, (n - 1) as nat);
        let after = merged(dest, entries, prefer_exact, n);
        if held(after, key) == held(before, key) {
            if held(before, key) != held(dest, key) {
                let i = choose|i: int| 0 <= i < n - 1 && (#[trigger] entries[i]).0 == key && held(before, key) == Some(entries[i].1);
                assert(entries[i].0 == key && held(after, key) == Some(entries[i].1));
            }
        } else {
            assert(entries[n - 1].0 == key && held(after, key) == Some(entries[n - 1].1));
        }
    }
}

/// The destination holds an exact entry under a key only where it held one before or an
/// entry for the key is exact.
proof fn lemma_exact_from(dest: Map<u128, u32>, entries: Seq<(u128, u32)>, prefer_exact: bool, n: nat, key: u128)
    requires
        n <= entries.len(),
        dest.contains_key(key) ==> (dest[key] >> 10) & 3 != 0,
        forall|j: int| 0 <= j < n && (#[trigger] entries[j]).0 == key ==> (entries[j].1 >> 10) & 3 != 0,
    ensures
        merged(dest, entries, prefer_exact, n).contains_key(key) ==> (merged(dest, entries, prefer_exact, n)[key] >> 10) & 3 != 0,
{
    lemma_merge_from_entries(dest, entries, prefer_exact, n, key);
}

/// The last entry for a key is the one that counts, unless it is a bound and there is an
/// exact one before it that is preferred.
pub proof fn lemma_last_taken_wins(dest: Map<u128, u32>, entries: Seq<(u128, u32)>, prefer_exact: bool, n: nat, i: int)
    requires
        0 <= i < n <= entries.len(),
        forall|j: int| i < j < n ==> (#[trigger] entries[j]).0 != entries[i].0,
        prefer_exact && (entries[i].1 >> 10) & 3 != 0 ==> {
            &&& dest.contains_key(entries[i].0) ==> (dest[entries[i].0] >> 10) & 3 != 0
            &&& forall|j: int| 0 <= j < i && (#[trigger] entries[j]).0 == entries[i].0 ==> (entries[j].1 >> 10) & 3 != 0
        },
    ensures
        held(merged(dest, entries, prefer_exact, n), entries[i].0) == Some(entries[i].1),
    decreases n,
{
    if i < n - 1 {
        lemma_last_taken_wins(dest, entries, prefer_exact, (n - 1) as nat, i);
        assert(entries[n - 1].0 != entries[i].0);
    } else if prefer_exact && (entries[i].1 >> 10) & 3 != 0 {
        lemma_exact_from(dest, entries, prefer_exact, i as nat, entries[i].0);
    }
}

/// Where exact entries are preferred, the last exact one for a key is the one that
/// counts, whatever bounds follow it.
pub proof fn lemma_last_exact_wins(dest: Map<u128, u32>, entries: Seq<(u128, u32)>, n: nat, i: int)
    requires
        0 <= i < n <= entries.len(),
        (entries[i].1 >> 10) & 3 == 0,
        forall|j: int| i < j < n && (#[trigger] entries[j]).0 == entries[i].0 ==> (entries[j].1 >> 10) & 3 != 0,
    ensures
        held(merged(dest, entries, true, n), entries[i].0) == Some(entries[i].1),
    decreases n,
{
    if i < n - 1 {
        lemma_last_exact_wins(dest, entries, (n - 1) as nat, i);
        if entries[n - 1].0 == entries[i].0 {
            assert((entries[n - 1].1 >> 10) & 3 != 0);
        }
    }
}

/// Where exact entries are preferred, an exact entry of the destination stays as it is
/// unless another exact one comes in.
pub proof fn lemma_exact_stays(dest: Map<u128, u32>, entries: Seq<(u128, u32)>, n: nat, key: u128)
    requires
        n <= entries.len(),
        dest.contains_key(key),
        (dest[key] >> 10) & 3 == 0,
        forall|j: int| 0 <= j < n && (#[trigger] entries[j]).0 == key ==> (entries[j].1 >> 10) & 3 != 0,
    ensures
        held(merged(dest, entries, true, n), key) == Some(dest[key]),
    decreases n,
{
    if n > 0 {
        lemma_exact_stays(dest, entries, (n - 1) as nat, key);
        if entries[n - 1].0 == key {
            assert((entries[n - 1].1 >> 10) & 3 != 0);
        }
    }
}

/// An entry is turned away exactly where it is a bound, exact entries are preferred and
/// one is held under its key by then.
pub proof fn lemma_turned_away_one(dest: Map<u128, u32>, entries: Seq<(u128, u32)>, prefer_exact: bool, i: nat)
    requires
        i < entries.len(),
    ensures
        turned_away(dest, entries, prefer_exact, 0) == 0,
        turned_away(dest, entries, prefer_exact, i + 1) == turned_away(dest, entries, prefer_exact, i) + if prefer_exact && (entries[i as int].1
            >> 10) & 3 != 0 && merged(dest, entries, prefer_exact, i).contains_key(entries[i as int].0) && (merged(dest, entries, prefer_exact, i)[entries[i as int].0]
            >> 10) & 3 == 0 {
            1nat
        } else {
            0nat
        },
{
}

/// Every well-formed pair is read, in order, and nothing else is.
pub proof fn lemma_readable_pairs(pairs: Seq<(Vec<u8>, Vec<u8>)>, n: nat)
    requires
        n <= pairs.len(),
    ensures
        readable(pairs, n).len() <= n,
        forall|i: int|
            0 <= i < n && (#[trigger] pairs[i]).0@.len() == 16 && pairs[i].1@.len() >= 4 ==> readable(pairs, n).contains(
                (spec_u128_from_le_bytes(pairs[i].0@), spec_u32_from_le_bytes(pairs[i].1@.take(4))),
            ),
        forall|t: int|
            0 <= t < readable(pairs, n).len() ==> exists|i: int|
                0 <= i < n && (#[trigger] pairs[i]).0@.len() == 16 && pairs[i].1@.len() >= 4 && #[trigger] readable(pairs, n)[t] == (
                    spec_u128_from_le_bytes(pairs[i].0@),
                    spec_u32_from_le_bytes(pairs[i].1@.take(4)),
                ),
        (forall|i: int| 0 <= i < n ==> (#[trigger] pairs[i]).0@.len() == 16 && pairs[i].1@.len() >= 4) ==> readable(pairs, n).len() == n
            && forall|i: int|
            0 <= i < n ==> #[trigger] readable(pairs, n)[i] == (
                spec_u128_from_le_bytes(pairs[i].0@),
                spec_u32_from_le_bytes(pairs[i].1@.take(4)),
            ),
    decreases n,
{
    if n > 0 {
        lemma_readable_pairs(pairs, (n - 1) as nat);
        let before = readable(pairs, (n - 1) as nat);
        let after = readable(pairs, n);
        assert forall|i: int| 0 <= i < n && (#[trigger] pairs[i]).0@.len() == 16 && pairs[i].1@.len() >= 4 implies after.contains(
            (spec_u128_from_le_bytes(pairs[i].0@), spec_u32_from_le_bytes(pairs[i].1@.take(4))),
        ) by {
            let e = (spec_u128_from_le_bytes(pairs[i].0@), spec_u32_from_le_bytes(pairs[i].1@.take(4)));
            if i < n - 1 {
                assert(before.contains(e));
                let t = choose|t: int| 0 <= t < before.len() && before[t] == e;
                assert(after[t] == e);
            } else {
                assert(after[after.len() - 1] == e);
            }
        }
        assert forall|t: int| 0 <= t < after.len() implies exists|i: int|
            0 <= i < n && (#[trigger] pairs[i]).0@.len() == 16 && pairs[i].1@.len() >= 4 && #[trigger] after[t] == (
                spec_u128_from_le_bytes(pairs[i].0@),
                spec_u32_from_le_bytes(pairs[i].1@.take(4)),
            ) by {
            if t < before.len() {
                let e = before[t];
                let i = choose|i: int|
                    0 <= i < n - 1 && (#[trigger] pairs[i]).0@.len() == 16 && pairs[i].1@.len() >= 4 && before[t] == (
                        spec_u128_from_le_bytes(pairs[i].0@),
                        spec_u32_from_le_bytes(pairs[i].1@.take(4)),
                    );
                assert(pairs[i].0@.len() == 16);
                assert(after[t] == before[t]);
            } else {
                assert(pairs[n - 1].0@.len() == 16);
            }
        }
        if forall|i: int| 0 <= i < n ==> (#[trigger] pairs[i]).0@.len() == 16 && pairs[i].1@.len() >= 4 {
            assert(pairs[n - 1].0@.len() == 16);
        }
    }
}

/// The sources are gone through one after the other, each whole.
pub proof fn lemma_sources_in_turn(sources: Seq<Vec<(Vec<u8>, Vec<u8>)>>, n: nat)
    requires
        n < sources.len(),
    ensures
        all_readable(sources, 0) == Seq::<(u128, u32)>::empty(),
        all_readable(sources, n + 1) == all_readable(sources, n) + readable(sources[n as int]@, sources[n as int]@.len()),
        forall|e: (u128, u32)| #[trigger]
            readable(sources[n as int]@, sources[n as int]@.len()).contains(e) ==> all_readable(sources, n + 1).contains(e),
{
    let own = readable(sources[n as int]@, sources[n as int]@.len());
    let before = all_readable(sources, n);
    assert forall|e: (u128, u32)| #[trigger] own.contains(e) implies all_readable(sources, n + 1).contains(e) by {
        let t = choose|t: int| 0 <= t < own.len() && own[t] == e;
        assert((before + own)[before.len() + t] == e);
    }
}

} // verus!
