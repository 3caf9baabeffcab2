//! When the entries of a transposition table may be believed.
//!
//! Tables are keyed by hashes, and beside each key stands the canonical form that it
//! was computed from. An entry is true of that form, and it is used only for positions
//! of the same form. Entries that come from disk are believed for the positions that
//! play can reach from the root of a search.
use vstd::prelude::*;

use crate::game::letters::{bit_of, holds, is_lower, lemma_add_letter, lemma_mask_same, lower_word, place_mask};
use crate::game::rules::{at, occurs, same_places};
use crate::seqs::lemma_filter;
use crate::solver::canon::{form_key, live_col, live_cols};
use crate::solver::canon_laws::{form_value, lemma_form_value, matrix_value};
use crate::solver::dedup::{is_dedup, lemma_dedup_lists, position_form, position_key};
use crate::solver::matrix::all_len;
use crate::solver::partition::{group, lemma_group};
use crate::solver::required::{foldable, is_fold};
use crate::solver::signature::{
    chosen, idx_ok, lemma_value_of_signatures, list_ok, lists_signatures, position_value, sig, sig_rows, signatures,
};
use crate::solver::tt::claims;
use crate::sorting::strictly_sorted;

verus! {

/// The words at `i` and `j` answer alike to every letter guessed since the root.
pub open spec fn agree(words: Seq<Vec<u8>>, root_masked: u32, masked: u32, i: usize, j: usize) -> bool {
    forall|c: u8|
        #[trigger] holds(masked, c) && !holds(root_masked, c) ==> same_places(
            c,
            words[i as int]@,
            words[j as int]@,
        )
}

/// Play from the root can reach this position: its words agree on every letter
/// guessed since the root, and no signature of a word that agrees with them is
/// missing.
pub open spec fn reachable(
    words: Seq<Vec<u8>>,
    root: Seq<usize>,
    root_masked: u32,
    idx: Seq<usize>,
    masked: u32,
) -> bool {
    &&& idx.len() > 0
    &&& idx_ok(idx, words.len())
    &&& idx == root || idx.no_duplicates()
    &&& forall|t: int| 0 <= t < idx.len() ==> root.contains(#[trigger] idx[t])
    &&& forall|c: u8| #[trigger] holds(root_masked, c) ==> holds(masked, c)
    &&& forall|t: int|
        0 <= t < idx.len() ==> agree(words, root_masked, masked, #[trigger] idx[t], idx[0])
    &&& forall|j: usize|
        #![trigger root.contains(j)]
        root.contains(j) && agree(words, root_masked, masked, j, idx[0]) ==> sig_rows(
            words,
            idx,
            masked,
        ).contains(sig(words[j as int]@, masked))
}

/// A step of the order-independent hash of an index list.
pub open spec fn quick_mix(i: usize) -> u64 {
    (i as u64).wrapping_mul(0x517c_c1b7_2722_0a95)
}

pub open spec fn quick_sum(idx: Seq<usize>, n: nat) -> u64
    decreases n,
{
    if n == 0 {
        0
    } else {
        quick_sum(idx, (n - 1) as nat).wrapping_add(quick_mix(idx[n - 1]))
    }
}

pub open spec fn quick_xor(idx: Seq<usize>, n: nat) -> u64
    decreases n,
{
    if n == 0 {
        0
    } else {
        quick_xor(idx, (n - 1) as nat) ^ quick_mix(idx[n - 1])
    }
}

/// A cheap hash of a position that does not depend on the order of its indices.
pub open spec fn quick_key(idx: Seq<usize>, masked: u32) -> u64 {
    let x = quick_xor(idx, idx.len());
    let h = quick_sum(idx, idx.len()).wrapping_add((x << 17u64) | (x >> 47u64));
    let h = h ^ (masked as u64).wrapping_mul(0x9e37_79b9_7f4a_7c15);
    let h = h ^ ((idx.len() as u64) << 48u64);
    h ^ (h >> 33u64)
}

/// Every key of a table is that of a canonical form, of which its entry is true.
pub open spec fn table_sound(table: Map<u128, u32>, forms: Map<u128, Seq<u8>>) -> bool {
    forall|key: u128| #[trigger]
        table.contains_key(key) ==> forms.contains_key(key) && form_key(forms[key]) == key && claims(
            table[key],
            form_value(forms[key]) as int,
        )
}

/// No position within reach of the root shares its key with another form.
pub open spec fn told_apart(words: Seq<Vec<u8>>, root: Seq<usize>, root_masked: u32, k: nat, forms: Map<u128, Seq<u8>>) -> bool {
    forall|i: Seq<usize>, m: u32|
        #![trigger reachable(words, root, root_masked, i, m)]
        reachable(words, root, root_masked, i, m) && forms.contains_key(position_key(words, i, m, k)) && form_key(
            forms[position_key(words, i, m, k)],
        ) == position_key(words, i, m, k) ==> forms[position_key(words, i, m, k)] == position_form(words, i, m, k)
}

/// The form recorded for the key of a position is the one of the position.
pub open spec fn is_known(words: Seq<Vec<u8>>, idx: Seq<usize>, masked: u32, k: nat, forms: Map<u128, Seq<u8>>) -> bool {
    let key = position_key(words, idx, masked, k);
    forms.contains_key(key) && forms[key] == position_form(words, idx, masked, k)
}

/// Every recorded position has its own key, and the key has its form.
pub open spec fn quick_true(words: Seq<Vec<u8>>, k: nat, positions: Seq<(Seq<usize>, u32, u128)>, forms: Map<u128, Seq<u8>>) -> bool {
    forall|t: int|
        0 <= t < positions.len() ==> {
            let p = #[trigger] positions[t];
            p.2 == position_key(words, p.0, p.1, k) && is_known(words, p.0, p.1, k, forms)
        }
}

/// Whatever the lookup `disk` returns for a reachable position is true of it.
pub open spec fn disk_true<D: Fn(u128) -> Option<u32>>(
    words: Seq<Vec<u8>>,
    root: Seq<usize>,
    root_masked: u32,
    k: nat,
    disk: D,
) -> bool {
    forall|i: Seq<usize>, m: u32, r: Option<u32>|
        #![trigger reachable(words, root, root_masked, i, m), disk.ensures((position_key(words, i, m, k),), r)]
        reachable(words, root, root_masked, i, m) && disk.ensures((position_key(words, i, m, k),), r)
            && r is Some ==> claims(r->0, position_value(words, i, m) as int)
}

/// Signatures of one position all have the same length and are distinct.
proof fn lemma_signature_rows(words: Seq<Vec<u8>>, idx: Seq<usize>, masked: u32, k: nat, d: Seq<usize>)
    requires
        list_ok(words, k),
        idx_ok(idx, words.len()),
        is_dedup(words, idx, masked, d),
    ensures
        all_len(signatures(words, idx, masked), k),
        lists_signatures(signatures(words, idx, masked), words, idx, masked),
{
    lemma_dedup_lists(words, idx, masked, d);
    let q = signatures(words, idx, masked);
    assert forall|i: int| 0 <= i < q.len() implies (#[trigger] q[i]).len() == k by {
        assert(q.contains(q[i]));
        let rows = sig_rows(words, idx, masked);
        let t = choose|t: int| 0 <= t < rows.len() && rows[t] == q[i];
        assert(idx[t] < words.len());
    }
}

/// A position always has a deduplicated list.
pub proof fn lemma_dedup_exists(words: Seq<Vec<u8>>, idx: Seq<usize>, masked: u32) -> (d: Seq<usize>)
    requires
        idx_ok(idx, words.len()),
    ensures
        is_dedup(words, idx, masked, d),
    decreases idx.len(),
{
    if idx.len() == 0 {
        let d = Seq::<usize>::empty();
        assert(is_dedup(words, idx, masked, d));
        d
    } else {
        let init = idx.drop_last();
        let d = lemma_dedup_exists(words, init, masked);
        let x = sig(words[idx.last() as int]@, masked);
        let rows = sig_rows(words, d, masked);
        if rows.contains(x) {
            assert forall|t: int| 0 <= t < d.len() implies idx.contains(#[trigger] d[t]) by {
                assert(init.contains(d[t]));
                let u = choose|u: int| 0 <= u < init.len() && init[u] == d[t];
                assert(idx[u] == d[t]);
            }
            assert forall|t: int| 0 <= t < idx.len() implies rows.contains(#[trigger] crate::solver::dedup::sig_at(words, idx, masked, t)) by {
                if t < init.len() {
                    assert(rows.contains(crate::solver::dedup::sig_at(words, init, masked, t)));
                }
            }
            d
        } else {
            let p = lemma_insert_place(rows, x, rows.len());
            let e = d.insert(p, idx.last());
            let rows2 = sig_rows(words, e, masked);
            assert(rows2 =~= rows.insert(p, x));
            assert(strictly_sorted(rows2));
            assert forall|t: int| 0 <= t < e.len() implies idx.contains(#[trigger] e[t]) by {
                if t == p {
                    assert(idx[idx.len() - 1] == e[t]);
                } else {
                    let u = if t < p { t } else { t - 1 };
                    assert(e[t] == d[u]);
                    assert(init.contains(d[u]));
                    let v = choose|v: int| 0 <= v < init.len() && init[v] == d[u];
                    assert(idx[v] == d[u]);
                }
            }
            assert forall|t: int| 0 <= t < idx.len() implies rows2.contains(#[trigger] crate::solver::dedup::sig_at(words, idx, masked, t)) by {
                if t < init.len() {
                    let y = crate::solver::dedup::sig_at(words, init, masked, t);
                    assert(rows.contains(y));
                    let u = choose|u: int| 0 <= u < rows.len() && rows[u] == y;
                    let v = if u < p { u } else { u + 1 };
                    assert(rows2[v] == y);
                } else {
                    assert(rows2[p] == x);
                }
            }
            e
        }
    }
}

/// Where a new row goes in a strictly sorted list.
proof fn lemma_insert_place(rows: Seq<Seq<u8>>, x: Seq<u8>, n: nat) -> (p: int)
    requires
        strictly_sorted(rows),
        !rows.contains(x),
        n <= rows.len(),
        forall|i: int| n <= i < rows.len() ==> crate::sorting::lex_le(x, #[trigger] rows[i]),
    ensures
        0 <= p <= rows.len(),
        strictly_sorted(rows.insert(p, x)),
    decreases n,
{
    if n > 0 && crate::sorting::lex_le(x, rows[n - 1]) {
        lemma_insert_place(rows, x, (n - 1) as nat)
    } else {
        let p = n as int;
        let r = rows.insert(p, x);
        assert forall|i: int| 0 <= i < p implies crate::sorting::lex_le(#[trigger] rows[i], x) && rows[i] != x by {
            crate::sorting::lemma_lex_total(rows[n - 1], x);
            assert(rows.contains(rows[i]));
            if i < n - 1 {
                crate::sorting::lemma_lex_trans(rows[i], rows[n - 1], x);
            }
        }
        assert forall|i: int| p <= i < rows.len() implies #[trigger] rows[i] != x by {
            assert(rows.contains(rows[i]));
        }
        assert forall|i: int, j: int| 0 <= i < j < r.len() implies crate::sorting::lex_le(#[trigger] r[i], #[trigger] r[j]) && r[i] != r[j] by {
            let a = if i < p { i } else { i - 1 };
            let b = if j < p { j } else { j - 1 };
            if i != p && j != p {
                assert(rows[a] == r[i] && rows[b] == r[j]);
            } else if i == p {
                assert(rows[b] == r[j]);
            } else {
                assert(rows[a] == r[i]);
            }
        }
        p
    }
}

/// The value of a position is the value of its signature matrix.
pub proof fn lemma_value_matrix(words: Seq<Vec<u8>>, idx: Seq<usize>, masked: u32, k: nat)
    requires
        list_ok(words, k),
        idx_ok(idx, words.len()),
    ensures
        position_value(words, idx, masked) == matrix_value(signatures(words, idx, masked)),
        all_len(signatures(words, idx, masked), k),
        lists_signatures(signatures(words, idx, masked), words, idx, masked),
{
    let d = lemma_dedup_exists(words, idx, masked);
    lemma_signature_rows(words, idx, masked, k, d);
    lemma_value_of_signatures(words, idx, masked, signatures(words, idx, masked));
}

/// Two different rows leave some column live.
proof fn lemma_live(rows: Seq<Seq<u8>>, k: nat)
    requires
        all_len(rows, k),
        strictly_sorted(rows),
        rows.len() >= 2,
    ensures
        live_cols(rows, k).len() > 0,
{
    let a = rows[0];
    let b = rows[1];
    if forall|j: int| 0 <= j < k ==> a[j] == b[j] {
        assert(a =~= b);
    }
    let j = choose|j: int| 0 <= j < k && a[j] != b[j];
    assert(rows[0][j] != 0 || rows[1][j] != 0);
    assert(live_col(rows, j));
    let all = Seq::new(k, |c: int| c);
    lemma_filter(all, |c: int| live_col(rows, c));
    assert(all[j] == j);
    assert(live_cols(rows, k).contains(all[j]));
}

/// The canonical form of a position stands for its value.
pub proof fn lemma_position_form(words: Seq<Vec<u8>>, k: nat, idx: Seq<usize>, masked: u32)
    requires
        list_ok(words, k),
        idx_ok(idx, words.len()),
        idx.len() > 0,
    ensures
        form_value(position_form(words, idx, masked, k)) == position_value(words, idx, masked),
{
    let rows = signatures(words, idx, masked);
    lemma_value_matrix(words, idx, masked, k);
    if rows.len() >= 2 {
        lemma_live(rows, k);
    }
    let w = words[idx[0] as int];
    assert(w.len() == w@.len() && w@.len() == k);
    lemma_form_value(rows, k);
}

/// The entry that a sound table holds under the key of a position is true of it, unless
/// the key is shared with another form.
pub proof fn lemma_sound_entry(
    words: Seq<Vec<u8>>,
    root: Seq<usize>,
    root_masked: u32,
    k: nat,
    table: Map<u128, u32>,
    forms: Map<u128, Seq<u8>>,
    idx: Seq<usize>,
    masked: u32,
)
    requires
        list_ok(words, k),
        table_sound(table, forms),
        told_apart(words, root, root_masked, k, forms),
        reachable(words, root, root_masked, idx, masked),
        table.contains_key(position_key(words, idx, masked, k)),
    ensures
        claims(table[position_key(words, idx, masked, k)], position_value(words, idx, masked) as int),
{
    lemma_position_form(words, k, idx, masked);
}

/// A disk that returns only what a sound table held may be believed, unless a position
/// shares its key with another form.
pub proof fn lemma_saved_table_true<D: Fn(u128) -> Option<u32>>(
    words: Seq<Vec<u8>>,
    root: Seq<usize>,
    root_masked: u32,
    k: nat,
    table: Map<u128, u32>,
    forms: Map<u128, Seq<u8>>,
    disk: D,
)
    requires
        list_ok(words, k),
        table_sound(table, forms),
        told_apart(words, root, root_masked, k, forms),
        forall|key: u128, packed: u32| #[trigger]
            disk.ensures((key,), Some(packed)) ==> table.contains_key(key) && table[key] == packed,
    ensures
        disk_true(words, root, root_masked, k, disk),
{
    assert forall|i: Seq<usize>, m: u32, r: Option<u32>|
        #![trigger reachable(words, root, root_masked, i, m), disk.ensures((position_key(words, i, m, k),), r)]
        reachable(words, root, root_masked, i, m) && disk.ensures((position_key(words, i, m, k),), r)
            && r is Some implies claims(r->0, position_value(words, i, m) as int) by {
        assert(disk.ensures((position_key(words, i, m, k),), Some(r->0)));
        lemma_sound_entry(words, root, root_masked, k, table, forms, i, m);
    }
}

/// The root can reach itself.
pub proof fn lemma_root_reachable(words: Seq<Vec<u8>>, root: Seq<usize>, root_masked: u32)
    requires
        root.len() > 0,
        idx_ok(root, words.len()),
    ensures
        reachable(words, root, root_masked, root, root_masked),
{
    assert forall|j: usize|
        #![trigger root.contains(j)]
        root.contains(j) && agree(words, root_masked, root_masked, j, root[0]) implies sig_rows(
        words,
        root,
        root_masked,
    ).contains(sig(words[j as int]@, root_masked)) by {
        let t = choose|t: int| 0 <= t < root.len() && root[t] == j;
        assert(sig_rows(words, root, root_masked)[t] == sig(words[j as int]@, root_masked));
    }
}

proof fn lemma_sig_byte(w: Seq<u8>, masked: u32, j: int)
    requires
        0 <= j < w.len(),
    ensures
        sig(w, masked)[j] == if holds(masked, w[j]) {
            0
        } else {
            w[j]
        },
{
}

/// Masking more letters keeps equal signatures equal.
pub proof fn lemma_sig_coarser(v: Seq<u8>, w: Seq<u8>, masked: u32, wider: u32)
    requires
        v.len() == w.len(),
        sig(v, masked) == sig(w, masked),
        lower_word(v),
        lower_word(w),
        forall|c: u8| #[trigger] holds(masked, c) ==> holds(wider, c),
    ensures
        sig(v, wider) == sig(w, wider),
{
    assert forall|j: int| 0 <= j < v.len() implies sig(v, wider)[j] == sig(w, wider)[j] by {
        lemma_sig_byte(v, masked, j);
        lemma_sig_byte(w, masked, j);
        assert(is_lower(v[j]) && is_lower(w[j]));
    }
    assert(sig(v, wider) =~= sig(w, wider));
}

/// Folding letters that split nothing stays within reach.
pub proof fn lemma_fold_reachable(
    words: Seq<Vec<u8>>,
    k: nat,
    root: Seq<usize>,
    root_masked: u32,
    idx: Seq<usize>,
    masked: u32,
    folded: u32,
)
    requires
        list_ok(words, k),
        reachable(words, root, root_masked, idx, masked),
        is_fold(words, idx, masked, folded),
        idx_ok(root, words.len()),
    ensures
        reachable(words, root, root_masked, idx, folded),
{
    let s = chosen(words, idx);
    assert forall|t: int| 0 <= t < idx.len() implies agree(words, root_masked, folded, #[trigger] idx[t], idx[0]) by {
        assert(agree(words, root_masked, masked, idx[t], idx[0]));
        assert forall|c: u8| #[trigger] holds(folded, c) && !holds(root_masked, c) implies same_places(c, words[idx[t] as int]@, words[idx[0] as int]@) by {
            if !holds(masked, c) {
                assert(foldable(words, idx, masked, c));
                assert(s.contains(words[idx[t] as int]@) && s.contains(words[idx[0] as int]@));
            }
        }
    }
    assert forall|j: usize|
        #![trigger root.contains(j)]
        root.contains(j) && agree(words, root_masked, folded, j, idx[0]) implies sig_rows(words, idx, folded).contains(
        sig(words[j as int]@, folded),
    ) by {
        assert(agree(words, root_masked, masked, j, idx[0])) by {
            assert forall|c: u8| #[trigger] holds(masked, c) && !holds(root_masked, c) implies same_places(c, words[j as int]@, words[idx[0] as int]@) by {
                assert(holds(folded, c));
            }
        }
        let rows = sig_rows(words, idx, masked);
        let t = choose|t: int| 0 <= t < rows.len() && rows[t] == sig(words[j as int]@, masked);
        let v = words[j as int]@;
        let w = words[idx[t] as int]@;
        let u = choose|u: int| 0 <= u < root.len() && root[u] == j;
        assert(root[u] < words.len());
        assert(idx[t] < words.len());
        lemma_sig_coarser(v, w, masked, folded);
        assert(sig_rows(words, idx, folded)[t] == sig(v, folded));
    }
}

/// Deduplicating stays within reach.
pub proof fn lemma_dedup_reachable(
    words: Seq<Vec<u8>>,
    root: Seq<usize>,
    root_masked: u32,
    idx: Seq<usize>,
    masked: u32,
    d: Seq<usize>,
)
    requires
        reachable(words, root, root_masked, idx, masked),
        is_dedup(words, idx, masked, d),
        idx_ok(d, words.len()),
    ensures
        reachable(words, root, root_masked, d, masked),
{
    lemma_dedup_lists(words, idx, masked, d);
    let rows = sig_rows(words, d, masked);
    assert(rows.contains(crate::solver::dedup::sig_at(words, idx, masked, 0)));
    assert forall|t: int| 0 <= t < d.len() implies root.contains(#[trigger] d[t]) && agree(words, root_masked, masked, d[t], idx[0]) by {
        assert(idx.contains(d[t]));
        let u = choose|u: int| 0 <= u < idx.len() && idx[u] == d[t];
        assert(root.contains(idx[u]) && agree(words, root_masked, masked, idx[u], idx[0]));
    }
    assert forall|t: int| 0 <= t < d.len() implies agree(words, root_masked, masked, #[trigger] d[t], d[0]) by {
        lemma_agree(words, root_masked, masked, d[t], idx[0], d[0]);
    }
    assert forall|t: int, u: int| 0 <= t < d.len() && 0 <= u < d.len() && t != u implies d[t] != d[u] by {
        let a = if t < u { t } else { u };
        let b = if t < u { u } else { t };
        assert(rows[a] != rows[b]);
    }
    assert forall|j: usize|
        #![trigger root.contains(j)]
        root.contains(j) && agree(words, root_masked, masked, j, d[0]) implies rows.contains(sig(words[j as int]@, masked)) by {
        lemma_agree_symmetric(words, root_masked, masked, d[0], idx[0]);
        lemma_agree_symmetric(words, root_masked, masked, idx[0], d[0]);
        lemma_agree_through(words, root_masked, masked, j, d[0], idx[0]);
        assert(sig_rows(words, idx, masked).contains(sig(words[j as int]@, masked)));
    }
}

proof fn lemma_agree_symmetric(words: Seq<Vec<u8>>, root_masked: u32, masked: u32, i: usize, j: usize)
    ensures
        agree(words, root_masked, masked, i, j) == agree(words, root_masked, masked, j, i),
{
    if agree(words, root_masked, masked, i, j) {
        assert forall|c: u8| #[trigger] holds(masked, c) && !holds(root_masked, c) implies same_places(c, words[j as int]@, words[i as int]@) by {
            assert(same_places(c, words[i as int]@, words[j as int]@));
        }
    }
    if agree(words, root_masked, masked, j, i) {
        assert forall|c: u8| #[trigger] holds(masked, c) && !holds(root_masked, c) implies same_places(c, words[i as int]@, words[j as int]@) by {
            assert(same_places(c, words[j as int]@, words[i as int]@));
        }
    }
}

/// Agreement with a common word.
proof fn lemma_agree(words: Seq<Vec<u8>>, root_masked: u32, masked: u32, i: usize, mid: usize, j: usize)
    requires
        agree(words, root_masked, masked, i, mid),
        agree(words, root_masked, masked, j, mid),
    ensures
        agree(words, root_masked, masked, i, j),
{
    assert forall|c: u8| #[trigger] holds(masked, c) && !holds(root_masked, c) implies same_places(c, words[i as int]@, words[j as int]@) by {
        assert(same_places(c, words[i as int]@, words[mid as int]@));
        assert(same_places(c, words[j as int]@, words[mid as int]@));
    }
}

proof fn lemma_agree_through(words: Seq<Vec<u8>>, root_masked: u32, masked: u32, i: usize, mid: usize, j: usize)
    requires
        agree(words, root_masked, masked, i, mid),
        agree(words, root_masked, masked, mid, j),
    ensures
        agree(words, root_masked, masked, i, j),
{
    lemma_agree_symmetric(words, root_masked, masked, mid, j);
    lemma_agree(words, root_masked, masked, i, mid, j);
}

/// An answer to a letter stays within reach.
pub proof fn lemma_group_reachable(
    words: Seq<Vec<u8>>,
    k: nat,
    root: Seq<usize>,
    root_masked: u32,
    idx: Seq<usize>,
    masked: u32,
    l: u8,
    m: u32,
)
    requires
        list_ok(words, k),
        k <= 32,
        reachable(words, root, root_masked, idx, masked),
        idx_ok(root, words.len()),
        idx.no_duplicates(),
        is_lower(l),
        !holds(masked, l),
        group(words, idx, l, m).len() > 0,
    ensures
        reachable(words, root, root_masked, group(words, idx, l, m), masked | bit_of(l)),
        group(words, idx, l, m).no_duplicates(),
{
    let g = group(words, idx, l, m);
    let wider = masked | bit_of(l);
    lemma_add_letter(masked, l);
    lemma_group(words, idx, l, m);
    lemma_filter(idx, |i: usize| place_mask(words[i as int]@, l) == m);
    assert forall|t: int| 0 <= t < g.len() implies idx.contains(#[trigger] g[t]) && place_mask(words[g[t] as int]@, l) == m && root.contains(g[t]) && agree(words, root_masked, masked, g[t], idx[0]) by {
        assert(g.contains(g[t]));
        let u = choose|u: int| 0 <= u < idx.len() && idx[u] == g[t];
        assert(root.contains(idx[u]) && agree(words, root_masked, masked, idx[u], idx[0]));
    }
    assert(g[0] < words.len());
    assert forall|t: int| 0 <= t < g.len() implies agree(words, root_masked, wider, #[trigger] g[t], g[0]) by {
        lemma_agree(words, root_masked, masked, g[t], idx[0], g[0]);
        lemma_mask_same(words[g[t] as int]@, words[g[0] as int]@, l);
        assert forall|c: u8| #[trigger] holds(wider, c) && !holds(root_masked, c) implies same_places(c, words[g[t] as int]@, words[g[0] as int]@) by {
            if c != l {
                assert(holds(masked, c));
            }
        }
    }
    assert forall|j: usize|
        #![trigger root.contains(j)]
        root.contains(j) && agree(words, root_masked, wider, j, g[0]) implies sig_rows(words, g, wider).contains(
        sig(words[j as int]@, wider),
    ) by {
        let u = choose|u: int| 0 <= u < root.len() && root[u] == j;
        assert(root[u] < words.len());
        let v = words[j as int]@;
        assert(agree(words, root_masked, masked, j, g[0])) by {
            assert forall|c: u8| #[trigger] holds(masked, c) && !holds(root_masked, c) implies same_places(c, v, words[g[0] as int]@) by {
                assert(holds(wider, c));
            }
        }
        lemma_agree_through(words, root_masked, masked, j, g[0], idx[0]);
        let rows = sig_rows(words, idx, masked);
        assert(rows.contains(sig(v, masked)));
        let t = choose|t: int| 0 <= t < rows.len() && rows[t] == sig(v, masked);
        let w = words[idx[t] as int]@;
        assert(idx[t] < words.len());
        // The word with the same signature answers `l` alike, so it is in the group.
        assert(holds(wider, l));
        if !holds(root_masked, l) {
            assert(same_places(l, v, words[g[0] as int]@));
        }
        assert(!holds(root_masked, l));
        lemma_same_signature_same_answer(v, w, masked, l);
        lemma_mask_same(v, words[g[0] as int]@, l);
        lemma_mask_same(v, w, l);
        assert(idx.contains(idx[t]));
        assert(g.contains(idx[t]));
        let x = choose|x: int| 0 <= x < g.len() && g[x] == idx[t];
        lemma_sig_coarser(v, w, masked, wider);
        assert(sig_rows(words, g, wider)[x] == sig(v, wider));
    }
}

/// Words with equal signatures answer alike to letters that are not masked.
pub proof fn lemma_same_signature_same_answer(v: Seq<u8>, w: Seq<u8>, masked: u32, l: u8)
    requires
        v.len() == w.len(),
        sig(v, masked) == sig(w, masked),
        l != 0,
        !holds(masked, l),
    ensures
        same_places(l, v, w),
        occurs(l, v) == occurs(l, w),
{
    assert forall|j: int| at(v, j, l) == at(w, j, l) by {
        if 0 <= j < v.len() {
            lemma_sig_byte(v, masked, j);
            lemma_sig_byte(w, masked, j);
        }
    }
    if occurs(l, v) {
        let j = choose|j: int| #[trigger] at(v, j, l);
        assert(at(w, j, l));
    }
    if occurs(l, w) {
        let j = choose|j: int| #[trigger] at(w, j, l);
        assert(at(v, j, l));
    }
}

} // verus!
