//! What the steps towards a canonical form do to a matrix.
use std::collections::hash_map::DefaultHasher;

use vstd::bytes::{lemma_auto_spec_u64_to_from_le_bytes, spec_u64_from_le_bytes, spec_u64_to_le_bytes};
use vstd::prelude::*;
use vstd::relations::sorted_by;
use vstd::std_specs::hash::DefaultHasherAdditionalSpecFns;

use crate::seqs::lemma_filter;
use crate::solver::canon::{
    byte_feed, canon_flat, collapsed, fnv, form_bytes, form_key, hash_of, lemma_row_order, lex_sorted, live_col, live_cols, pack, pick_cols,
    row_order, sorted_rows,
};
use crate::solver::canon_laws::{lemma_relabel_keeps_value, lemma_sort_keeps_value, matrix_value};
use crate::solver::column_laws::lemma_columns_keep_value;
use crate::solver::columns::{
    column, column_round, factorial_of, first_of_column, ints, is_column_order, is_round_hash, long_form, merged_cols, relabel_rows,
    same_column, words_hash,
};
use crate::solver::dedup::{is_dedup, keeps_first, sig_at};
use crate::solver::matrix::{all_len, flat, label, label_upto, lemma_flat_rows, lemma_label, rank, relabeled, seen, to_rows};
use crate::solver::signature::{row_set, sig, sig_rows};
use crate::solver::word_hash::{dictionary_order, in_dictionary_order, lemma_dictionary_order, words_feed};
use crate::sorting::{before, lex_le};

verus! {

proof fn lemma_filter_rising(n: nat, f: spec_fn(int) -> bool)
    ensures
        ({
            let q = Seq::new(n, |j: int| j).filter(f);
            &&& forall|j: int| #[trigger] q.contains(j) <==> 0 <= j < n && f(j)
            &&& forall|t: int, u: int| 0 <= t < u < q.len() ==> #[trigger] q[t] < #[trigger] q[u]
        }),
    decreases n,
{
    let s = Seq::new(n, |j: int| j);
    let q = s.filter(f);
    lemma_filter(s, f);
    assert forall|j: int| #[trigger] q.contains(j) <==> 0 <= j < n && f(j) by {
        if 0 <= j < n {
            assert(s[j] == j);
        }
    }
    if n > 0 {
        reveal(Seq::filter);
        lemma_filter_rising((n - 1) as nat, f);
        let t = Seq::new((n - 1) as nat, |j: int| j);
        assert(s.drop_last() =~= t);
        let p = t.filter(f);
        assert forall|a: int, b: int| 0 <= a < b < q.len() implies #[trigger] q[a] < #[trigger] q[b] by {
            if b >= p.len() {
                assert(p.contains(p[a]));
            }
        }
    }
}

/// The columns that are kept are those with a letter in some row, from left to right.
pub proof fn lemma_live_columns(rows: Seq<Seq<u8>>, k: nat)
    ensures
        forall|j: int| #[trigger]
            live_cols(rows, k).contains(j) <==> 0 <= j < k && exists|i: int| 0 <= i < rows.len() && #[trigger] rows[i][j] != 0,
        forall|t: int, u: int| 0 <= t < u < live_cols(rows, k).len() ==> #[trigger] live_cols(rows, k)[t] < #[trigger] live_cols(rows, k)[u],
{
    lemma_filter_rising(k, |j: int| live_col(rows, j));
}

/// Dropping empty columns keeps every row and the cells of the kept columns in order.
pub proof fn lemma_collapsed(rows: Seq<Seq<u8>>, k: nat, i: int, t: int)
    requires
        0 <= i < rows.len(),
        0 <= t < live_cols(rows, k).len(),
    ensures
        collapsed(rows, k).len() == rows.len(),
        collapsed(rows, k)[i].len() == live_cols(rows, k).len(),
        collapsed(rows, k)[i][t] == rows[i][live_cols(rows, k)[t]],
{
}

/// Choosing columns puts into each row the cells of those columns.
pub proof fn lemma_picked_columns(rows: Seq<Seq<u8>>, cols: Seq<int>, i: int, t: int)
    requires
        0 <= i < rows.len(),
        0 <= t < cols.len(),
    ensures
        pick_cols(rows, cols).len() == rows.len(),
        pick_cols(rows, cols)[i].len() == cols.len(),
        pick_cols(rows, cols)[i][t] == rows[i][cols[t]],
{
}

/// No two kept columns are equal.
pub proof fn lemma_kept_columns_differ(rows: Seq<Seq<u8>>, k: nat, t: int, u: int)
    requires
        0 <= t < u < merged_cols(rows, k).len(),
    ensures
        exists|i: int| 0 <= i < rows.len() && #[trigger] rows[i][merged_cols(rows, k)[t]] != rows[i][merged_cols(rows, k)[u]],
{
    let q = merged_cols(rows, k);
    lemma_filter_rising(k, |j: int| first_of_column(rows, j));
    assert(q[t] < q[u]);
    assert(q.contains(q[t]) && q.contains(q[u]));
    assert(first_of_column(rows, q[u]));
    assert(!same_column(rows, q[t], q[u]));
}

/// Of equal columns the first is kept: the kept columns come from left to right, and every
/// column equals a kept one that stands no further to the right.
pub proof fn lemma_merged_columns(rows: Seq<Seq<u8>>, k: nat, j: int)
    requires
        0 <= j < k,
    ensures
        forall|t: int, u: int| 0 <= t < u < merged_cols(rows, k).len() ==> #[trigger] merged_cols(rows, k)[t] < #[trigger] merged_cols(rows, k)[u],
        forall|c: int| #[trigger] merged_cols(rows, k).contains(c) ==> 0 <= c < k,
        exists|c: int|
            c <= j && #[trigger] merged_cols(rows, k).contains(c) && forall|i: int| 0 <= i < rows.len() ==> #[trigger] rows[i][c] == rows[i][j],
{
    lemma_filter_rising(k, |j: int| first_of_column(rows, j));
    let c = lemma_first_equal(rows, j);
    assert(merged_cols(rows, k).contains(c));
}

proof fn lemma_first_equal(rows: Seq<Seq<u8>>, j: int) -> (c: int)
    requires
        0 <= j,
    ensures
        0 <= c <= j,
        same_column(rows, c, j),
        first_of_column(rows, c),
    decreases j,
{
    if first_of_column(rows, j) {
        j
    } else {
        let a = choose|a: int| 0 <= a < j && #[trigger] same_column(rows, a, j);
        let c = lemma_first_equal(rows, a);
        assert forall|i: int| 0 <= i < rows.len() implies #[trigger] rows[i][c] == rows[i][j] by {
            assert(rows[i][c] == rows[i][a]);
            assert(rows[i][a] == rows[i][j]);
        }
        c
    }
}

/// The number of orders grows by a factor with each further thing.
pub proof fn lemma_factorial(n: nat)
    ensures
        factorial_of(0) == 1,
        factorial_of(n + 1) == (n + 1) * factorial_of(n),
{
}

/// Packing takes bytes as the digits of a number, the first one the highest.
pub proof fn lemma_pack_digits(s: Seq<u8>, b: u8)
    ensures
        pack(Seq::empty()) == 0,
        pack(s.push(b)) == 256 * pack(s) + b,
{
    assert(s.push(b).drop_last() =~= s);
}

/// The row hash takes the bytes in one after the other.
pub proof fn lemma_fnv_step(s: Seq<u8>, b: u8)
    ensures
        fnv(Seq::empty()) == 0xcbf2_9ce4_8422_2325,
        fnv(s.push(b)) == (fnv(s) ^ (b as u64)).wrapping_mul(1_099_511_628_211),
{
    assert(s.push(b).drop_last() =~= s);
}

/// Sorting rows keeps each of them as often as it was. Rows of up to eight cells come in
/// dictionary order, longer ones by their hashes and, where those agree, in dictionary
/// order.
pub proof fn lemma_rows_sorted(rows: Seq<Seq<u8>>, k: nat, i: int, j: int)
    requires
        0 <= i < j < sorted_rows(rows, k).len(),
    ensures
        sorted_rows(rows, k).to_multiset() == rows.to_multiset(),
        k <= 8 ==> lex_le(sorted_rows(rows, k)[i], sorted_rows(rows, k)[j]),
        k > 8 ==> fnv(sorted_rows(rows, k)[i]) <= fnv(sorted_rows(rows, k)[j]),
        k > 8 && fnv(sorted_rows(rows, k)[i]) == fnv(sorted_rows(rows, k)[j]) ==> lex_le(sorted_rows(rows, k)[i], sorted_rows(rows, k)[j]),
{
    lemma_row_order(k);
    rows.lemma_sort_by_ensures(row_order(k));
    let q = sorted_rows(rows, k);
    assert(row_order(k)(q[i], q[j]));
}

/// A hash has two halves: the lower is the hash of the data, the upper that of the lower
/// half and the data.
pub proof fn lemma_hash_halves(data: Seq<u8>)
    ensures
        hash_of(data) % 0x1_0000_0000_0000_0000 == DefaultHasher::spec_finish(byte_feed(data)),
        hash_of(data) / 0x1_0000_0000_0000_0000 == DefaultHasher::spec_finish(
            seq![spec_u64_to_le_bytes((hash_of(data) % 0x1_0000_0000_0000_0000) as u64)] + byte_feed(data),
        ),
{
    let h1 = DefaultHasher::spec_finish(byte_feed(data));
    let h2 = DefaultHasher::spec_finish(seq![spec_u64_to_le_bytes(h1)] + byte_feed(data));
    lemma_halves(h1, h2);
}

proof fn lemma_halves(h1: u64, h2: u64)
    ensures
        ((h1 as u128) | ((h2 as u128) << 64u128)) % 0x1_0000_0000_0000_0000 == h1,
        ((h1 as u128) | ((h2 as u128) << 64u128)) / 0x1_0000_0000_0000_0000 == h2,
{
    assert(((h1 as u128) | ((h2 as u128) << 64u128)) % 0x1_0000_0000_0000_0000 == h1 && ((h1 as u128) | ((h2 as u128) << 64u128))
        / 0x1_0000_0000_0000_0000 == h2) by (bit_vector);
}

/// The hash of a list of words has the same two halves, over all its words.
pub proof fn lemma_words_hash_halves(ws: Seq<Seq<u8>>)
    ensures
        words_hash(ws) % 0x1_0000_0000_0000_0000 == DefaultHasher::spec_finish(words_feed(ws, ws.len())),
        words_hash(ws) / 0x1_0000_0000_0000_0000 == DefaultHasher::spec_finish(
            seq![spec_u64_to_le_bytes((words_hash(ws) % 0x1_0000_0000_0000_0000) as u64)] + words_feed(ws, ws.len()),
        ),
{
    let h1 = DefaultHasher::spec_finish(words_feed(ws, ws.len()));
    let h2 = DefaultHasher::spec_finish(seq![spec_u64_to_le_bytes(h1)] + words_feed(ws, ws.len()));
    lemma_halves(h1, h2);
}

/// An order of the columns puts what they hold from top to bottom in dictionary order,
/// equal ones from left to right.
pub proof fn lemma_columns_in_order(rows: Seq<Seq<u8>>, k: nat, o: Seq<usize>, t: int, u: int)
    requires
        is_column_order(rows, k, o),
        0 <= t < u < k,
    ensures
        o.len() == k,
        o[t] != o[u],
        lex_le(column(rows, o[t] as int), column(rows, o[u] as int)),
        column(rows, o[t] as int) == column(rows, o[u] as int) ==> o[t] < o[u],
{
    let leq = crate::solver::columns::column_le(rows);
    assert(before(leq, o[t] as int, o[u] as int));
    crate::sorting::lemma_lex_refl(column(rows, o[u] as int));
}

/// Two sequences look alike: blanks and equal letters at the same places.
pub open spec fn look_alike(a: Seq<u8>, b: Seq<u8>) -> bool {
    &&& a.len() == b.len()
    &&& forall|i: int| 0 <= i < a.len() ==> (#[trigger] a[i] == 0) == (b[i] == 0)
    &&& forall|i: int, j: int| 0 <= i < a.len() && 0 <= j < a.len() ==> (#[trigger] a[i] == #[trigger] a[j]) == (b[i] == b[j])
}

proof fn lemma_seen_alike(a: Seq<u8>, b: Seq<u8>, n: int, i: int)
    requires
        look_alike(a, b),
        0 <= n <= a.len(),
        0 <= i < a.len(),
    ensures
        seen(a, n, a[i]) == seen(b, n, b[i]),
{
    if seen(a, n, a[i]) {
        let j = choose|j: int| 0 <= j < n && #[trigger] a[j] == a[i];
        assert(b[j] == b[i]);
    }
    if seen(b, n, b[i]) {
        let j = choose|j: int| 0 <= j < n && #[trigger] b[j] == b[i];
        assert(a[j] == a[i]);
    }
}

proof fn lemma_rank_alike(a: Seq<u8>, b: Seq<u8>, n: nat)
    requires
        look_alike(a, b),
        n <= a.len(),
    ensures
        rank(a, n) == rank(b, n),
    decreases n,
{
    if n > 0 {
        lemma_rank_alike(a, b, (n - 1) as nat);
        lemma_seen_alike(a, b, n - 1, n - 1);
        assert((a[n - 1] == 0) == (b[n - 1] == 0));
    }
}

proof fn lemma_label_alike(a: Seq<u8>, b: Seq<u8>, n: nat, i: int)
    requires
        look_alike(a, b),
        n <= a.len(),
        0 <= i < a.len(),
    ensures
        label_upto(a, n, a[i]) == label_upto(b, n, b[i]),
    decreases n,
{
    assert((a[i] == 0) == (b[i] == 0));
    if n > 0 && a[i] != 0 {
        lemma_label_alike(a, b, (n - 1) as nat, i);
        lemma_seen_alike(a, b, n - 1, i);
        lemma_rank_alike(a, b, n);
        assert((a[n - 1] == a[i]) == (b[n - 1] == b[i]));
    }
}

/// Renaming by first appearance keeps blanks and tells letters apart as before, and two
/// sequences that look alike become the same: the new names depend on nothing else.
pub proof fn lemma_relabeled(a: Seq<u8>, b: Seq<u8>)
    requires
        look_alike(a, b),
    ensures
        look_alike(a, relabeled(a)),
        relabeled(a) == relabeled(b),
        relabeled(relabeled(a)) == relabeled(a),
{
    lemma_looks_kept(a);
    assert forall|i: int| 0 <= i < a.len() implies relabeled(a)[i] == relabeled(b)[i] by {
        lemma_label_alike(a, b, a.len(), i);
    }
    assert(relabeled(a) =~= relabeled(b));
    assert forall|i: int| 0 <= i < a.len() implies relabeled(a)[i] == relabeled(relabeled(a))[i] by {
        lemma_label_alike(a, relabeled(a), a.len(), i);
    }
    assert(relabeled(relabeled(a)) =~= relabeled(a));
}

proof fn lemma_looks_kept(a: Seq<u8>)
    ensures
        look_alike(a, relabeled(a)),
{
    lemma_label(a);
    let r = relabeled(a);
    assert forall|i: int| 0 <= i < a.len() implies (#[trigger] a[i] == 0) == (r[i] == 0) by {
        assert(a.contains(a[i]));
        assert(r[i] == label(a, a[i]));
    }
    assert forall|i: int, j: int| 0 <= i < a.len() && 0 <= j < a.len() implies (#[trigger] a[i] == #[trigger] a[j]) == (r[i] == r[j]) by {
        assert(a.contains(a[i]) && a.contains(a[j]));
        assert(r[i] == label(a, a[i]) && r[j] == label(a, a[j]));
    }
}

/// The rows of a matrix after its empty columns are gone and its letters renamed.
pub open spec fn plain_rows(rows: Seq<Seq<u8>>, k: nat) -> Seq<Seq<u8>> {
    to_rows(relabeled(flat(collapsed(rows, k), live_cols(rows, k).len())), rows.len(), live_cols(rows, k).len())
}

/// The form is in its normal naming, has a cell for each row and kept column, and does
/// not depend on the order in which rows of up to eight kept cells came out of the first
/// renaming.
pub proof fn lemma_form_of_rows(a: Seq<Seq<u8>>, b: Seq<Seq<u8>>, k: nat)
    requires
        all_len(a, k),
        all_len(b, k),
        live_cols(a, k).len() == live_cols(b, k).len(),
        plain_rows(a, k).to_multiset() == plain_rows(b, k).to_multiset(),
    ensures
        relabeled(canon_flat(a, k)) == canon_flat(a, k),
        canon_flat(a, k).len() == a.len() * live_cols(a, k).len(),
        live_cols(a, k).len() <= 8 ==> canon_flat(a, k) == canon_flat(b, k),
        !lex_sorted(plain_rows(a, k)) && !lex_sorted(plain_rows(b, k)) ==> canon_flat(a, k) == canon_flat(b, k),
{
    let k2 = live_cols(a, k).len();
    lemma_one_form(a, k);
    lemma_one_form(b, k);
    let p = plain_rows(a, k);
    let q = plain_rows(b, k);
    lemma_row_order(k2);
    p.lemma_sort_by_ensures(row_order(k2));
    q.lemma_sort_by_ensures(row_order(k2));
    vstd::seq_lib::lemma_sorted_unique(sorted_rows(p, k2), sorted_rows(q, k2), row_order(k2));
}

proof fn lemma_one_form(rows: Seq<Seq<u8>>, k: nat)
    requires
        all_len(rows, k),
    ensures
        ({
            let k2 = live_cols(rows, k).len();
            &&& relabeled(canon_flat(rows, k)) == canon_flat(rows, k)
            &&& canon_flat(rows, k).len() == rows.len() * k2
            &&& k2 <= 8 || !lex_sorted(plain_rows(rows, k)) ==> canon_flat(rows, k) == relabeled(
                flat(sorted_rows(plain_rows(rows, k), k2), k2),
            )
        }),
{
    let k2 = live_cols(rows, k).len();
    let c = collapsed(rows, k);
    assert(all_len(c, k2));
    lemma_relabel_keeps_value(c, k2);
    let f = flat(c, k2);
    let first = relabeled(f);
    let again = plain_rows(rows, k);
    lemma_sort_keeps_value(again, k2);
    lemma_looks_same(f);
    lemma_relabeled(f, f);
    let g = flat(sorted_rows(again, k2), k2);
    lemma_looks_same(g);
    lemma_relabeled(g, g);
    if k2 <= 8 && lex_sorted(again) {
        lemma_row_order(k2);
        again.lemma_sort_by_ensures(row_order(k2));
        lemma_lex_chain(again);
        assert(sorted_by(again, row_order(k2)));
        vstd::seq_lib::lemma_sorted_unique(sorted_rows(again, k2), again, row_order(k2));
        assert(sorted_rows(again, k2) == again);
        lemma_flat_rows(first, rows.len(), k2);
        lemma_looks_same(first);
    }
}

proof fn lemma_looks_same(f: Seq<u8>)
    ensures
        look_alike(f, f),
{
}

proof fn lemma_lex_chain(rows: Seq<Seq<u8>>)
    requires
        lex_sorted(rows),
    ensures
        forall|i: int, j: int| 0 <= i < j < rows.len() ==> lex_le(#[trigger] rows[i], #[trigger] rows[j]),
{
    assert forall|i: int, j: int| 0 <= i < j < rows.len() implies lex_le(#[trigger] rows[i], #[trigger] rows[j]) by {
        lemma_lex_steps(rows, i, j);
    }
}

proof fn lemma_lex_steps(rows: Seq<Seq<u8>>, i: int, j: int)
    requires
        lex_sorted(rows),
        0 <= i < j < rows.len(),
    ensures
        lex_le(rows[i], rows[j]),
    decreases j - i,
{
    assert(lex_le(rows[j - 1], rows[j]));
    if i < j - 1 {
        lemma_lex_steps(rows, i, j - 1);
        crate::sorting::lemma_lex_trans(rows[i], rows[j - 1], rows[j]);
    }
}

/// The bytes of a form start with the number of kept columns; they are empty, and the key
/// is zero, exactly where there is nothing to tell apart.
pub proof fn lemma_form_layout(rows: Seq<Seq<u8>>, k: nat)
    requires
        all_len(rows, k),
        k <= u64::MAX,
    ensures
        form_bytes(rows, k).len() == 0 <==> rows.len() <= 1 || live_cols(rows, k).len() == 0,
        form_bytes(rows, k).len() > 0 ==> form_bytes(rows, k).len() == 8 + rows.len() * live_cols(rows, k).len(),
        form_bytes(rows, k).len() > 0 ==> spec_u64_from_le_bytes(form_bytes(rows, k).take(8)) == live_cols(rows, k).len(),
        form_bytes(rows, k).len() > 0 ==> form_key(form_bytes(rows, k)) == hash_of(form_bytes(rows, k)),
        form_key(Seq::empty()) == 0,
{
    lemma_auto_spec_u64_to_from_le_bytes();
    lemma_one_form(rows, k);
    lemma_filter(Seq::new(k, |j: int| j), |j: int| live_col(rows, j));
    let k2 = live_cols(rows, k).len();
    if rows.len() > 1 && k2 > 0 {
        assert(form_bytes(rows, k).take(8) =~= spec_u64_to_le_bytes(k2 as u64));
    }
}

/// Leaving out words that look alike keeps one of each kind, in the order of what they
/// look like: for words of up to sixteen letters the one of the lowest number, for longer
/// ones the one that comes first.
pub proof fn lemma_kept_words(words: Seq<Vec<u8>>, idx: Seq<usize>, masked: u32, d: Seq<usize>, k: nat, t: int, u: int)
    requires
        is_dedup(words, idx, masked, d),
        keeps_first(words, idx, masked, d, k),
        0 <= t < d.len(),
        0 <= u < idx.len(),
        sig(words[idx[u] as int]@, masked) == sig(words[d[t] as int]@, masked),
    ensures
        idx.contains(d[t]),
        k <= 16 ==> d[t] <= idx[u],
        k > 16 ==> idx[u] == d[t] || exists|v: int|
            0 <= v < u && #[trigger] idx[v] == d[t] && sig(words[idx[v] as int]@, masked) == sig(words[idx[u] as int]@, masked),
        forall|s: int| 0 <= s < t ==> lex_le(sig(words[#[trigger] d[s] as int]@, masked), sig(words[d[t] as int]@, masked)),
        forall|s: int| 0 <= s < d.len() && s != t ==> sig(words[#[trigger] d[s] as int]@, masked) != sig(words[d[t] as int]@, masked),
{
    let rows = sig_rows(words, d, masked);
    assert(sig_at(words, idx, masked, u) == sig(words[d[t] as int]@, masked));
    assert forall|s: int| 0 <= s < d.len() && s != t implies sig(words[#[trigger] d[s] as int]@, masked) != sig(words[d[t] as int]@, masked) by {
        if s < t {
            assert(rows[s] != rows[t]);
        } else {
            assert(rows[t] != rows[s]);
        }
    }
    assert forall|s: int| 0 <= s < t implies lex_le(sig(words[#[trigger] d[s] as int]@, masked), sig(words[d[t] as int]@, masked)) by {
        assert(lex_le(rows[s], rows[t]));
    }
    if k > 16 {
        let v = choose|v: int|
            0 <= v < idx.len() && #[trigger] idx[v] == d[t] && forall|w: int|
                0 <= w < v ==> #[trigger] sig_at(words, idx, masked, w) != sig(words[d[t] as int]@, masked);
        if v > u {
            assert(sig_at(words, idx, masked, u) != sig(words[d[t] as int]@, masked));
        }
    }
}

/// No kind of word is lost.
pub proof fn lemma_each_kind_kept(words: Seq<Vec<u8>>, idx: Seq<usize>, masked: u32, d: Seq<usize>, u: int)
    requires
        is_dedup(words, idx, masked, d),
        0 <= u < idx.len(),
    ensures
        exists|t: int| 0 <= t < d.len() && sig(words[#[trigger] d[t] as int]@, masked) == sig(words[idx[u] as int]@, masked),
{
    let rows = sig_rows(words, d, masked);
    assert(rows.contains(sig_at(words, idx, masked, u)));
    let t = choose|t: int| 0 <= t < rows.len() && rows[t] == sig_at(words, idx, masked, u);
    assert(sig(words[d[t] as int]@, masked) == sig(words[idx[u] as int]@, masked));
}

/// Sorting words in dictionary order keeps each as often as it was.
pub proof fn lemma_dictionary_sorted(ws: Seq<Seq<u8>>)
    ensures
        in_dictionary_order(ws).len() == ws.len(),
        in_dictionary_order(ws).to_multiset() == ws.to_multiset(),
        forall|i: int, j: int|
            0 <= i < j < ws.len() ==> lex_le(#[trigger] in_dictionary_order(ws)[i], #[trigger] in_dictionary_order(ws)[j]),
        matrix_value(in_dictionary_order(ws)) == matrix_value(ws),
        forall|k: nat| #[trigger] all_len(ws, k) ==> all_len(in_dictionary_order(ws), k),
{
    lemma_dictionary_order();
    let q = in_dictionary_order(ws);
    ws.lemma_sort_by_ensures(dictionary_order());
    broadcast use vstd::seq_lib::group_to_multiset_ensures;

    assert(ws.to_multiset().len() == q.to_multiset().len());
    assert forall|x: Seq<u8>| ws.contains(x) == q.contains(x) by {
        assert(ws.to_multiset().count(x) == q.to_multiset().count(x));
    }
    assert(row_set(ws) =~= row_set(q));
    assert forall|i: int, j: int| 0 <= i < j < ws.len() implies lex_le(#[trigger] q[i], #[trigger] q[j]) by {
        assert(dictionary_order()(q[i], q[j]));
    }
    assert forall|k: nat| #[trigger] all_len(ws, k) implies all_len(q, k) by {
        assert forall|i: int| 0 <= i < q.len() implies (#[trigger] q[i]).len() == k by {
            assert(q.contains(q[i]));
            let j = choose|j: int| 0 <= j < ws.len() && ws[j] == q[i];
            assert(ws[j].len() == k);
        }
    }
}

/// The form of long words keeps the value and comes in dictionary order.
pub proof fn lemma_long_form(rows: Seq<Seq<u8>>, k: nat, o: Seq<usize>)
    requires
        all_len(rows, k),
        k <= usize::MAX,
        is_column_order(relabel_rows(in_dictionary_order(rows), k), k, o),
    ensures
        long_form(rows, k, o).len() == rows.len(),
        all_len(long_form(rows, k, o), k),
        matrix_value(long_form(rows, k, o)) == matrix_value(rows),
        forall|i: int, j: int| 0 <= i < j < rows.len() ==> lex_le(#[trigger] long_form(rows, k, o)[i], #[trigger] long_form(rows, k, o)[j]),
{
    lemma_dictionary_sorted(rows);
    let a = in_dictionary_order(rows);
    lemma_relabel_keeps_value(a, k);
    let b = relabel_rows(a, k);
    lemma_columns_keep_value(b, k, o);
    let c = pick_cols(b, ints(o));
    lemma_dictionary_sorted(c);
    let d = in_dictionary_order(c);
    lemma_relabel_keeps_value(d, k);
    lemma_dictionary_sorted(relabel_rows(d, k));
}

/// The quick hash of a matrix is the hash of a form with its value.
pub proof fn lemma_round_hash(rows: Seq<Seq<u8>>, k: nat, o1: Seq<usize>, o2: Seq<usize>, r: u128)
    requires
        all_len(rows, k),
        k <= usize::MAX,
        is_round_hash(rows, k, o1, o2, r),
    ensures
        exists|form: Seq<u8>| #[trigger]
            hash_of(form) == r && form.len() == rows.len() * k && matrix_value(to_rows(form, rows.len(), k)) == matrix_value(rows)
                && relabeled(form) == form,
{
    let one = column_round(rows, k, o1);
    lemma_round_keeps_value(rows, k, o1);
    let two = column_round(one, k, o2);
    lemma_round_keeps_value(one, k, o2);
    lemma_sort_keeps_value(two, k);
    let last = sorted_rows(two, k);
    lemma_relabel_keeps_value(last, k);
    let f = flat(last, k);
    lemma_looks_same(f);
    lemma_relabeled(f, f);
    assert(hash_of(relabeled(f)) == r);
}

proof fn lemma_round_keeps_value(rows: Seq<Seq<u8>>, k: nat, o: Seq<usize>)
    requires
        all_len(rows, k),
        k <= usize::MAX,
        is_column_order(relabel_rows(sorted_rows(rows, k), k), k, o),
    ensures
        column_round(rows, k, o).len() == rows.len(),
        all_len(column_round(rows, k, o), k),
        matrix_value(column_round(rows, k, o)) == matrix_value(rows),
{
    lemma_sort_keeps_value(rows, k);
    lemma_relabel_keeps_value(sorted_rows(rows, k), k);
    lemma_columns_keep_value(relabel_rows(sorted_rows(rows, k), k), k, o);
}

} // verus!
