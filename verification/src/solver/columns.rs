//! Canonical forms that also reorder columns, and other operations on columns.
use std::collections::hash_map::DefaultHasher;
use std::hash::Hasher;

use vstd::bytes::{spec_u64_to_le_bytes, u64_to_le_bytes};
use vstd::prelude::*;
use vstd::std_specs::hash::DefaultHasherAdditionalSpecFns;

use crate::seqs::lemma_filter_take;
use crate::solver::canon::{
    canon_key, canonicalize_sorted_rows, copy_columns, copy_rest, hash_flat, head, hash_of, pick_cols, sort_flat_rows, sorted_rows,
};
use crate::solver::matrix::{all_len, cell_at, flat, lemma_cell, lemma_flat_rows, lemma_rows_take, relabel_flat, relabeled, to_rows};
use crate::solver::permutation::{
    code, code_limit, lemma_code_limit, lemma_code_rises, lemma_numbers_perm, lemma_perm_numbers, lemma_rising_first,
    lemma_seq_order, next_permutation, same_numbers, seq_le, seq_lt,
};
use crate::solver::row_orders::{
    face_alike, is_least_rows, is_twin_above, least_rows, lists_twins, row_form, twins, twins_above, untouched,
};
use crate::solver::word_hash::{dictionary_places, in_dictionary_order, word_views, words_feed};
use crate::sorting::{
    before, bytes_le, in_order, lemma_lex_at, lemma_lex_refl, lemma_lex_total, lemma_lex_trans, lex_le, perm_of,
    sorted_order,
};

verus! {

/// The numbers of a list as integers.
pub open spec fn ints(p: Seq<usize>) -> Seq<int> {
    p.map_values(|c: usize| c as int)
}

/// The letters of the rows renamed by first appearance.
pub open spec fn relabel_rows(rows: Seq<Seq<u8>>, k: nat) -> Seq<Seq<u8>> {
    to_rows(relabeled(flat(rows, k)), rows.len(), k)
}

/// The canonical form for one order of the columns, laid end to end: rows sorted,
/// letters renamed, and both once more.
pub open spec fn perm_form(rows: Seq<Seq<u8>>, k: nat, p: Seq<usize>) -> Seq<u8> {
    let first = relabel_rows(sorted_rows(pick_cols(rows, ints(p)), k), k);
    relabeled(flat(sorted_rows(first, k), k))
}

/// An order of the `k` columns and one of the `n` rows.
pub open spec fn orders(p: Seq<usize>, q: Seq<usize>, k: nat, n: nat) -> bool {
    perm_of(p, 0, k as int) && perm_of(q, 0, n as int)
}

/// The matrix laid end to end for one order of the columns and one of the rows, with
/// the letters renamed by first appearance.
pub open spec fn order_form(rows: Seq<Seq<u8>>, k: nat, p: Seq<usize>, q: Seq<usize>) -> Seq<u8> {
    row_form(pick_cols(rows, ints(p)), k, q)
}

/// `f` is the least form over all orders of the columns and of the rows.
pub open spec fn is_least_form(rows: Seq<Seq<u8>>, k: nat, f: Seq<u8>) -> bool {
    &&& exists|p: Seq<usize>, q: Seq<usize>| #[trigger] orders(p, q, k, rows.len()) && order_form(rows, k, p, q) == f
    &&& forall|p: Seq<usize>, q: Seq<usize>| #[trigger] orders(p, q, k, rows.len()) ==> lex_le(f, order_form(rows, k, p, q))
}

/// Column `j` from top to bottom.
pub open spec fn column(rows: Seq<Seq<u8>>, j: int) -> Seq<u8> {
    Seq::new(rows.len(), |i: int| rows[i][j])
}

/// Columns in dictionary order of what they hold from top to bottom.
pub open spec fn column_le(rows: Seq<Seq<u8>>) -> spec_fn(int, int) -> bool {
    |a: int, b: int| lex_le(column(rows, a), column(rows, b))
}

/// `o` lists the columns in order, equal ones from left to right.
pub open spec fn is_column_order(rows: Seq<Seq<u8>>, k: nat, o: Seq<usize>) -> bool {
    perm_of(o, 0, k as int) && in_order(column_le(rows), o)
}

/// The bytes of the rows laid end to end.
fn flatten(sigs: &[Vec<u8>], k: usize) -> (buf: Vec<u8>)
    requires
        all_len(word_views(sigs@), k as nat),
    ensures
        buf@.len() == sigs@.len() * k,
        to_rows(buf@, sigs@.len(), k as nat) == word_views(sigs@),
        buf@ == flat(word_views(sigs@), k as nat),
{
    let ghost rows = word_views(sigs@);
    let n: usize = sigs.len();
    let mut buf: Vec<u8> = Vec::new();
    let mut i: usize = 0;
    while i < n
        invariant
            i <= n,
            n == sigs@.len(),
            rows == word_views(sigs@),
            all_len(rows, k as nat),
            buf@.len() == i * k,
            forall|t: int, u: int| 0 <= t < i && 0 <= u < k ==> buf@[t * k + u] == #[trigger] rows[t][u],
        decreases n - i,
    {
        let row = &sigs[i];
        proof {
            assert(rows[i as int] == row@);
        }
        let mut j: usize = 0;
        while j < k
            invariant
                i < n,
                j <= k,
                row@ == rows[i as int],
                row@.len() == k,
                buf@.len() == i * k + j,
                forall|t: int, u: int| 0 <= t < i && 0 <= u < k ==> buf@[t * k + u] == #[trigger] rows[t][u],
                forall|u: int| 0 <= u < j ==> buf@[i * k + u] == #[trigger] rows[i as int][u],
            decreases k - j,
        {
            buf.push(row[j]);
            proof {
                assert forall|t: int, u: int| 0 <= t < i && 0 <= u < k implies buf@[t * k + u] == #[trigger] rows[t][u] by {
                    lemma_cell(t, u, i as int, k as int);
                }
            }
            j += 1;
        }
        proof {
            assert((i + 1) * k == i * k + k) by (nonlinear_arith);
        }
        i += 1;
    }
    proof {
        let got = to_rows(buf@, n as nat, k as nat);
        assert forall|t: int| 0 <= t < n implies got[t] == rows[t] by {
            assert(rows[t].len() == k);
            assert(got[t] =~= rows[t]);
        }
        assert(got =~= rows);
        lemma_flat_rows(buf@, n as nat, k as nat);
    }
    buf
}

/// Cuts a buffer into `n` rows of length `k`.
fn split_rows(buf: &Vec<u8>, n: usize, k: usize) -> (r: Vec<Vec<u8>>)
    requires
        buf@.len() == n * k,
    ensures
        word_views(r@) == to_rows(buf@, n as nat, k as nat),
{
    let ghost rows = to_rows(buf@, n as nat, k as nat);
    let mut r: Vec<Vec<u8>> = Vec::new();
    let mut i: usize = 0;
    while i < n
        invariant
            i <= n,
            buf@.len() == n * k,
            rows == to_rows(buf@, n as nat, k as nat),
            r@.len() == i,
            forall|t: int| 0 <= t < i ==> (#[trigger] r@[t])@ == rows[t],
        decreases n - i,
    {
        let mut row: Vec<u8> = Vec::new();
        let mut j: usize = 0;
        while j < k
            invariant
                i < n,
                j <= k,
                buf@.len() == n * k,
                rows == to_rows(buf@, n as nat, k as nat),
                row@.len() == j,
                forall|u: int| 0 <= u < j ==> #[trigger] row@[u] == rows[i as int][u],
            decreases k - j,
        {
            row.push(cell_at(buf, i, j, Ghost(n as nat), k));
            j += 1;
        }
        assert(row@ =~= rows[i as int]);
        r.push(row);
        i += 1;
    }
    assert(word_views(r@) =~= rows);
    r
}

/// The canonical form of a matrix for one order of its columns.
fn form_of_buffer(buf: &Vec<u8>, m: usize, k: usize, perm: &Vec<usize>) -> (work: Vec<u8>)
    requires
        buf@.len() >= m * k,
        perm_of(perm@, 0, k as int),
    ensures
        work@ == perm_form(to_rows(buf@, m as nat, k as nat), k as nat, perm@),
        work@.len() == m * k,
{
    let mut work = copy_columns(buf, m, k, perm);
    sort_flat_rows(&mut work, m, k);
    proof {
        lemma_flat_rows(work@, m as nat, k as nat);
    }
    relabel_flat(&mut work);
    sort_flat_rows(&mut work, m, k);
    proof {
        lemma_flat_rows(work@, m as nat, k as nat);
    }
    relabel_flat(&mut work);
    work
}

/// The canonical form of the rows for one order of their columns.
pub fn canonical_for_perm(sigs: &[Vec<u8>], perm: &Vec<usize>) -> (r: Vec<Vec<u8>>)
    requires
        sigs@.len() > 0,
        all_len(word_views(sigs@), perm@.len()),
        perm_of(perm@, 0, perm@.len() as int),
    ensures
        word_views(r@) == to_rows(perm_form(word_views(sigs@), perm@.len(), perm@), sigs@.len(), perm@.len()),
{
    let k: usize = perm.len();
    let buf = flatten(sigs, k);
    let work = form_of_buffer(&buf, sigs.len(), k, perm);
    split_rows(&work, sigs.len(), k)
}

/// The columns from left to right.
fn identity(k: usize) -> (r: Vec<usize>)
    ensures
        perm_of(r@, 0, k as int),
        crate::solver::permutation::rising(r@),
{
    let mut r: Vec<usize> = Vec::new();
    let mut i: usize = 0;
    while i < k
        invariant
            i <= k,
            r@.len() == i,
            forall|t: int| 0 <= t < i ==> #[trigger] r@[t] == t,
        decreases k - i,
    {
        r.push(i);
        i += 1;
    }
    proof {
        assert forall|x: usize| 0 <= x < k implies #[trigger] r@.contains(x) by {
            assert(r@[x as int] == x);
        }
    }
    r
}

/// Every order before the next one has been seen once all up to this one have.
proof fn lemma_next_covers(cur: Seq<usize>, next: Seq<usize>, q: Seq<usize>)
    requires
        same_numbers(cur, q),
        seq_lt(cur, q) ==> seq_le(next, q),
        seq_lt(q, next),
    ensures
        seq_le(q, cur),
{
    lemma_seq_order(cur, q);
    lemma_seq_order(next, q);
}

/// The least form over all orders of the rows, for one order of the columns.
fn least_for_columns(buf: &Vec<u8>, n: usize, k: usize, perm: &Vec<usize>, twin: &Vec<usize>) -> (work: Vec<u8>)
    requires
        lists_twins(to_rows(buf@, n as nat, k as nat), k as nat, twin@),
        buf@.len() == n * k,
        perm_of(perm@, 0, k as int),
        k > 0,
    ensures
        is_least_rows(pick_cols(to_rows(buf@, n as nat, k as nat), ints(perm@)), k as nat, work@),
        work@.len() == n * k,
{
    let moved = copy_columns(buf, n, k, perm);
    let rows = split_rows(&moved, n, k);
    assert(word_views(rows@).len() == n);
    proof {
        lemma_twins_moved(to_rows(buf@, n as nat, k as nat), k as nat, perm@, twin@);
    }
    least_rows(&rows, k, twin)
}

/// Twins stay twins when the columns are reordered.
proof fn lemma_twins_moved(rows: Seq<Seq<u8>>, k: nat, p: Seq<usize>, twin: Seq<usize>)
    requires
        perm_of(p, 0, k as int),
        lists_twins(rows, k, twin),
    ensures
        lists_twins(pick_cols(rows, ints(p)), k, twin),
{
    let moved = pick_cols(rows, ints(p));
    assert forall|i: int| 0 <= i < twin.len() implies #[trigger] twin[i] <= i && (twin[i] < i ==> twins(moved, twin[i] as int, i, k)) by {
        let a = twin[i] as int;
        if a < i {
            assert(twins(rows, a, i, k));
            assert forall|c: int, d: int| 0 <= c < k && 0 <= d < k implies #[trigger] face_alike(moved[a], moved[i], c, d) by {
                assert(p[c] < k && p[d] < k);
                assert(face_alike(rows[a], rows[i], p[c] as int, p[d] as int));
            }
            assert forall|j: int, e: int, c: int|
                0 <= j < moved.len() && j != a && j != i && 0 <= e < k && 0 <= c < k implies #[trigger] untouched(
                moved[a],
                moved[i],
                c,
                moved[j][e],
            ) by {
                assert(p[c] < k && p[e] < k);
                assert(untouched(rows[a], rows[i], p[c] as int, rows[j][p[e] as int]));
            }
        }
    }
}

/// Exact canonicalization: the least form over all orders of the columns and rows.
fn canonicalize_exact(sigs: &[Vec<u8>], k: usize) -> (r: Vec<Vec<u8>>)
    requires
        sigs@.len() > 0,
        k > 0,
        all_len(word_views(sigs@), k as nat),
    ensures
        exists|f: Seq<u8>| #[trigger]
            is_least_form(word_views(sigs@), k as nat, f) && word_views(r@) == to_rows(f, sigs@.len(), k as nat),
{
    let n: usize = sigs.len();
    let ghost rows = word_views(sigs@);
    let buf = flatten(sigs, k);
    let start = split_rows(&buf, n, k);
    let twin = twins_above(&start, k);
    assert(lists_twins(rows, k as nat, twin@)) by {
        assert forall|i: int| 0 <= i < twin@.len() implies #[trigger] twin@[i] <= i && (twin@[i] < i ==> twins(
            rows,
            twin@[i] as int,
            i,
            k as nat,
        )) by {
            assert(is_twin_above(rows, k as nat, i, twin@[i] as int));
        }
        assert(word_views(start@).len() == n);
    }
    let mut perm = identity(k);
    let mut best = least_for_columns(&buf, n, k, &perm, &twin);
    let mut more: bool = true;
    let ghost mut best_perm = perm@;
    proof {
        let cur = perm@;
        assert forall|p: Seq<usize>, q: Seq<usize>| #[trigger] orders(p, q, k as nat, n as nat) && seq_le(p, cur) implies lex_le(
            best@,
            order_form(rows, k as nat, p, q),
        ) by {
            lemma_perm_numbers(cur, p, k as int);
            lemma_rising_first(cur, p);
            lemma_seq_order(cur, p);
            assert(perm_of(q, 0, n as int));
        }
    }
    while more
        invariant
            n == sigs@.len(),
            k > 0,
            rows == word_views(sigs@),
            buf@.len() == n * k,
            to_rows(buf@, n as nat, k as nat) == rows,
            lists_twins(rows, k as nat, twin@),
            perm_of(perm@, 0, k as int),
            best@.len() == n * k,
            perm_of(best_perm, 0, k as int),
            is_least_rows(pick_cols(rows, ints(best_perm)), k as nat, best@),
            more ==> forall|p: Seq<usize>, q: Seq<usize>| #[trigger]
                orders(p, q, k as nat, n as nat) && seq_le(p, perm@) ==> lex_le(best@, order_form(rows, k as nat, p, q)),
            !more ==> forall|p: Seq<usize>, q: Seq<usize>| #[trigger]
                orders(p, q, k as nat, n as nat) ==> lex_le(best@, order_form(rows, k as nat, p, q)),
        decreases more as int, code_limit(k as nat, k as nat) - code(perm@, k as nat),
    {
        let ghost cur = perm@;
        more = next_permutation(&mut perm);
        proof {
            lemma_numbers_perm(cur, perm@, k as int);
            if more {
                lemma_code_rises(cur, perm@, k as nat);
                lemma_code_limit(perm@, k as nat);
            } else {
                assert forall|p: Seq<usize>, q: Seq<usize>| #[trigger] orders(p, q, k as nat, n as nat) implies lex_le(
                    best@,
                    order_form(rows, k as nat, p, q),
                ) by {
                    lemma_perm_numbers(cur, p, k as int);
                    assert(seq_le(p, cur));
                }
            }
        }
        if more {
            let work = least_for_columns(&buf, n, k, &perm, &twin);
            let ghost old_best = best@;
            let ghost form = work@;
            let better: bool = !bytes_le(best.as_slice(), work.as_slice());
            if better {
                best = work;
                proof {
                    best_perm = perm@;
                }
            }
            proof {
                let next = perm@;
                lemma_lex_total(old_best, form);
                lemma_lex_refl(form);
                assert forall|p: Seq<usize>, q: Seq<usize>| #[trigger] orders(p, q, k as nat, n as nat) && seq_le(p, next) implies lex_le(
                    best@,
                    order_form(rows, k as nat, p, q),
                ) by {
                    let here = order_form(rows, k as nat, p, q);
                    if p != next {
                        lemma_perm_numbers(cur, p, k as int);
                        lemma_next_covers(cur, next, p);
                        assert(lex_le(old_best, here));
                        if better {
                            lemma_lex_trans(best@, old_best, here);
                        }
                    } else {
                        assert(perm_of(q, 0, n as int));
                        assert(lex_le(form, here));
                        lemma_lex_trans(best@, form, here);
                    }
                }
            }
        }
    }
    proof {
        let picked = pick_cols(rows, ints(best_perm));
        let q = choose|q: Seq<usize>| #[trigger] perm_of(q, 0, picked.len() as int) && row_form(picked, k as nat, q) == best@;
        assert(orders(best_perm, q, k as nat, rows.len()) && order_form(rows, k as nat, best_perm, q) == best@);
        assert(is_least_form(rows, k as nat, best@));
    }
    split_rows(&best, n, k)
}

/// Column `a` comes before column `b` or equals it.
fn column_at_le(buf: &Vec<u8>, a: usize, b: usize, m: usize, k: usize) -> (r: bool)
    requires
        a < k,
        b < k,
        buf@.len() >= m * k,
    ensures
        r == lex_le(column(to_rows(buf@, m as nat, k as nat), a as int), column(to_rows(buf@, m as nat, k as nat), b as int)),
{
    let ghost rows = to_rows(buf@, m as nat, k as nat);
    let ghost ca = column(rows, a as int);
    let ghost cb = column(rows, b as int);
    let mut i: usize = 0;
    while i < m
        invariant
            a < k,
            b < k,
            i <= m,
            buf@.len() >= m * k,
            rows == to_rows(buf@, m as nat, k as nat),
            ca == column(rows, a as int),
            cb == column(rows, b as int),
            forall|t: int| 0 <= t < i ==> ca[t] == cb[t],
        decreases m - i,
    {
        let x: u8 = cell_at(buf, i, a, Ghost(m as nat), k);
        let y: u8 = cell_at(buf, i, b, Ghost(m as nat), k);
        if x != y {
            proof {
                lemma_lex_at(ca, cb, i as int);
            }
            return x < y;
        }
        i += 1;
    }
    proof {
        assert(ca =~= cb);
        lemma_lex_refl(ca);
    }
    true
}

/// The columns in order of what they hold from top to bottom.
fn column_order(buf: &Vec<u8>, m: usize, k: usize) -> (o: Vec<usize>)
    requires
        buf@.len() >= m * k,
    ensures
        is_column_order(to_rows(buf@, m as nat, k as nat), k as nat, o@),
{
    let ghost rows = to_rows(buf@, m as nat, k as nat);
    let ghost leq = column_le(rows);
    let le = |x: usize, y: usize| -> (r: bool)
        requires
            x < k,
            y < k,
            buf@.len() >= m * k,
        ensures
            r == column_le(to_rows(buf@, m as nat, k as nat))(x as int, y as int),
        { column_at_le(buf, x, y, m, k) };
    proof {
        assert forall|x: int, y: int| 0 <= x < k && 0 <= y < k implies #[trigger] leq(x, y) || leq(y, x) by {
            lemma_lex_total(column(rows, x), column(rows, y));
        }
        assert forall|x: int, y: int, z: int|
            0 <= x < k && 0 <= y < k && 0 <= z < k && #[trigger] leq(x, y) && #[trigger] leq(y, z) implies leq(x, z) by {
            lemma_lex_trans(column(rows, x), column(rows, y), column(rows, z));
        }
    }
    sorted_order(k, &le, Ghost(leq))
}

/// Sort the columns of the `m` by `k` matrix at the start of `buf` by what they hold
/// from top to bottom; what follows it stays.
pub fn sort_flat_cols(buf: &mut Vec<u8>, m: usize, k: usize)
    requires
        old(buf)@.len() >= m * k,
    ensures
        final(buf)@.len() == old(buf)@.len(),
        final(buf)@.skip((m * k) as int) == old(buf)@.skip((m * k) as int),
        exists|o: Seq<usize>| #[trigger]
            is_column_order(to_rows(old(buf)@, m as nat, k as nat), k as nat, o) && to_rows(final(buf)@, m as nat, k as nat)
                == pick_cols(to_rows(old(buf)@, m as nat, k as nat), ints(o)),
{
    let order = column_order(buf, m, k);
    let mut sorted = copy_columns(buf, m, k, &order);
    let ghost whole = sorted@;
    copy_rest(buf, &mut sorted);
    proof {
        assert(sorted@.take((m * k) as int) =~= whole);
        lemma_rows_take(whole, sorted@, m as nat, k as nat);
        assert(sorted@.skip((m * k) as int) =~= buf@.skip((m * k) as int));
    }
    *buf = sorted;
}

/// The rows in dictionary order.
fn sorted_copy(rows: &[Vec<u8>]) -> (r: Vec<Vec<u8>>)
    ensures
        word_views(r@) == in_dictionary_order(word_views(rows@)),
        r@.len() == rows@.len(),
        forall|k: nat| all_len(word_views(rows@), k) ==> #[trigger] all_len(word_views(r@), k),
{
    let order = dictionary_places(rows);
    let mut r: Vec<Vec<u8>> = Vec::new();
    let mut i: usize = 0;
    while i < order.len()
        invariant
            i <= order@.len(),
            perm_of(order@, 0, rows@.len() as int),
            r@.len() == i,
            forall|t: int| 0 <= t < i ==> (#[trigger] r@[t])@ == rows@[order@[t] as int]@,
        decreases order@.len() - i,
    {
        let row: Vec<u8> = rows[order[i]].clone();
        assert(row@ =~= rows@[order@[i as int] as int]@);
        r.push(row);
        i += 1;
    }
    proof {
        assert(word_views(r@) =~= Seq::new(rows@.len(), |t: int| rows@[order@[t] as int]@));
        assert forall|k: nat| all_len(word_views(rows@), k) implies #[trigger] all_len(word_views(r@), k) by {
            assert forall|t: int| 0 <= t < word_views(r@).len() implies (#[trigger] word_views(r@)[t]).len() == k by {
                assert(word_views(rows@)[order@[t] as int].len() == k);
            }
        }
    }
    r
}

/// Relabel the nonzero bytes of rows of one length by order of first appearance.
pub fn relabel(sigs: &[Vec<u8>], k: usize) -> (r: Vec<Vec<u8>>)
    requires
        all_len(word_views(sigs@), k as nat),
    ensures
        word_views(r@) == relabel_rows(word_views(sigs@), k as nat),
        r@.len() == sigs@.len(),
        all_len(word_views(r@), k as nat),
{
    let mut buf = flatten(sigs, k);
    relabel_flat(&mut buf);
    let r = split_rows(&buf, sigs.len(), k);
    proof {
        assert(word_views(r@).len() == sigs@.len());
    }
    r
}

/// What the canonicalization of long rows gives for a given order of columns.
pub open spec fn long_form(rows: Seq<Seq<u8>>, k: nat, o: Seq<usize>) -> Seq<Seq<u8>> {
    let first = relabel_rows(in_dictionary_order(rows), k);
    in_dictionary_order(relabel_rows(in_dictionary_order(pick_cols(first, ints(o))), k))
}

/// Canonicalization for more than eight columns: sort rows, relabel, sort columns,
/// and sort and relabel the rows again. It misses some isomorphisms of places, but
/// is fast.
fn canonicalize_heuristic(sigs: &[Vec<u8>], k: usize) -> (r: Vec<Vec<u8>>)
    requires
        sigs@.len() > 0,
        all_len(word_views(sigs@), k as nat),
    ensures
        exists|o: Seq<usize>| #[trigger]
            is_column_order(relabel_rows(in_dictionary_order(word_views(sigs@)), k as nat), k as nat, o) && word_views(r@)
                == long_form(word_views(sigs@), k as nat, o),
{
    let n: usize = sigs.len();
    let sorted = sorted_copy(sigs);
    let mut buf = flatten(sorted.as_slice(), k);
    relabel_flat(&mut buf);
    let ghost rows = word_views(sigs@);
    let ghost first = relabel_rows(in_dictionary_order(rows), k as nat);
    proof {
        lemma_dictionary_len(rows);
        assert(to_rows(buf@, n as nat, k as nat) == first);
    }
    let order = column_order(&buf, n, k);
    let permuted = copy_columns(&buf, n, k, &order);
    let rows2 = split_rows(&permuted, n, k);
    proof {
        assert(word_views(rows2@) == pick_cols(first, ints(order@)));
        assert(word_views(rows2@).len() == n);
        assert(all_len(word_views(rows2@), k as nat)) by {
            assert(order@.len() == k);
        }
    }
    let sorted2 = sorted_copy(rows2.as_slice());
    let relabelled = relabel(sorted2.as_slice(), k);
    let r = sorted_copy(relabelled.as_slice());
    proof {
        assert(word_views(r@) == long_form(rows, k as nat, order@));
        assert(is_column_order(first, k as nat, order@));
    }
    r
}

/// Canonicalize a set of signatures under renaming of letters and reordering of
/// places. For up to eight places the form is the least over all orders of the places
/// and of the rows, so sets that differ only in the names of their letters and the
/// order of their places have one form; beyond that a cheaper method is used. The
/// byte zero is a blank and is never renamed.
pub fn canonicalize(sigs: &[Vec<u8>]) -> (r: Vec<Vec<u8>>)
    requires
        sigs@.len() > 0 ==> all_len(word_views(sigs@), sigs@[0]@.len()),
    ensures
        r@.len() == sigs@.len(),
        sigs@.len() > 0 ==> {
            let rows = word_views(sigs@);
            let k = sigs@[0]@.len();
            if k == 0 {
                forall|i: int| 0 <= i < r@.len() ==> (#[trigger] r@[i])@.len() == 0
            } else if k <= 8 {
                exists|f: Seq<u8>| #[trigger] is_least_form(rows, k, f) && word_views(r@) == to_rows(f, sigs@.len(), k)
            } else {
                exists|o: Seq<usize>| #[trigger]
                    is_column_order(relabel_rows(in_dictionary_order(rows), k), k, o) && word_views(r@) == long_form(rows, k, o)
            }
        },
{
    if sigs.len() == 0 {
        return Vec::new();
    }
    let k: usize = sigs[0].len();
    if k == 0 {
        let mut r: Vec<Vec<u8>> = Vec::new();
        let mut i: usize = 0;
        while i < sigs.len()
            invariant
                i <= sigs@.len(),
                r@.len() == i,
                forall|t: int| 0 <= t < i ==> (#[trigger] r@[t])@.len() == 0,
            decreases sigs@.len() - i,
        {
            r.push(Vec::new());
            i += 1;
        }
        return r;
    }
    if k <= 8 {
        let r = canonicalize_exact(sigs, k);
        proof {
            assert(word_views(r@).len() == sigs@.len());
        }
        r
    } else {
        let r = canonicalize_heuristic(sigs, k);
        proof {
            lemma_long_form_len(word_views(sigs@), k as nat);
            assert(word_views(r@).len() == sigs@.len());
        }
        r
    }
}

proof fn lemma_dictionary_len(rows: Seq<Seq<u8>>)
    ensures
        in_dictionary_order(rows).len() == rows.len(),
{
    crate::solver::word_hash::lemma_dictionary_order();
    rows.lemma_sort_by_ensures(crate::solver::word_hash::dictionary_order());
    broadcast use vstd::seq_lib::group_to_multiset_ensures;

    assert(rows.to_multiset().len() == in_dictionary_order(rows).to_multiset().len());
}

proof fn lemma_long_form_len(rows: Seq<Seq<u8>>, k: nat)
    ensures
        forall|o: Seq<usize>| #[trigger] long_form(rows, k, o).len() == rows.len(),
{
    assert forall|o: Seq<usize>| #[trigger] long_form(rows, k, o).len() == rows.len() by {
        lemma_dictionary_len(rows);
        let first = relabel_rows(in_dictionary_order(rows), k);
        let second = pick_cols(first, ints(o));
        lemma_dictionary_len(second);
        lemma_dictionary_len(relabel_rows(in_dictionary_order(second), k));
    }
}

/// The 128-bit hash of the canonical form of a set of signatures: rows sorted,
/// dead columns dropped, letters renamed, and hashed together with its width.
pub fn canonical_hash(sigs: &[Vec<u8>]) -> (r: u128)
    requires
        sigs@.len() > 0 ==> all_len(word_views(sigs@), sigs@[0]@.len()),
    ensures
        r == if sigs@.len() == 0 || sigs@[0]@.len() == 0 {
            0
        } else {
            canon_key(sorted_rows(word_views(sigs@), sigs@[0]@.len()), sigs@[0]@.len())
        },
{
    if sigs.len() == 0 {
        return 0;
    }
    let k: usize = sigs[0].len();
    if k == 0 {
        return 0;
    }
    canonical_hash_fast(sigs, k)
}

fn canonical_hash_fast(sigs: &[Vec<u8>], k: usize) -> (r: u128)
    requires
        all_len(word_views(sigs@), k as nat),
    ensures
        r == canon_key(sorted_rows(word_views(sigs@), k as nat), k as nat),
{
    let n: usize = sigs.len();
    let mut buf = flatten(sigs, k);
    sort_flat_rows(&mut buf, n, k);
    canonicalize_sorted_rows(&buf, n, k)
}

/// The 128-bit hash of a list of words as it stands.
pub open spec fn words_hash(ws: Seq<Seq<u8>>) -> u128 {
    let h1 = DefaultHasher::spec_finish(words_feed(ws, ws.len()));
    let h2 = DefaultHasher::spec_finish(seq![spec_u64_to_le_bytes(h1)] + words_feed(ws, ws.len()));
    (h1 as u128) | ((h2 as u128) << 64u128)
}

/// Feeds a list of words to a hasher.
fn feed_words(hasher: &mut DefaultHasher, data: &[Vec<u8>])
    ensures
        final(hasher)@ == old(hasher)@ + words_feed(word_views(data@), data@.len()),
{
    let ghost start = hasher@;
    let ghost ws = word_views(data@);
    let count = u64_to_le_bytes(data.len() as u64);
    hasher.write(count.as_slice());
    let mut i: usize = 0;
    proof {
        assert(hasher@ =~= start + words_feed(ws, 0));
    }
    while i < data.len()
        invariant
            i <= data@.len(),
            ws == word_views(data@),
            hasher@ == start + words_feed(ws, i as nat),
        decreases data@.len() - i,
    {
        let len = u64_to_le_bytes(data[i].len() as u64);
        let ghost before = hasher@;
        hasher.write(len.as_slice());
        hasher.write(data[i].as_slice());
        proof {
            assert(ws[i as int] == data@[i as int]@);
            assert(hasher@ =~= start + words_feed(ws, (i + 1) as nat));
        }
        i += 1;
    }
}

fn hash_vecs(data: &[Vec<u8>]) -> (r: u128)
    ensures
        r == words_hash(word_views(data@)),
{
    let ghost ws = word_views(data@);
    let mut hasher = DefaultHasher::new();
    feed_words(&mut hasher, data);
    assert(hasher@ =~= words_feed(ws, ws.len()));
    let h1: u64 = hasher.finish();
    let seed = u64_to_le_bytes(h1);
    let mut hasher2 = DefaultHasher::new();
    hasher2.write(seed.as_slice());
    feed_words(&mut hasher2, data);
    assert(hasher2@ =~= seq![spec_u64_to_le_bytes(h1)] + words_feed(ws, ws.len()));
    let h2: u64 = hasher2.finish();
    (h1 as u128) | ((h2 as u128) << 64u128)
}

/// The hash of the sorted signatures without any canonicalization, as a baseline.
pub fn canonical_hash_none(sigs: &[Vec<u8>]) -> (r: u128)
    ensures
        r == words_hash(in_dictionary_order(word_views(sigs@))),
{
    let sorted = sorted_copy(sigs);
    hash_vecs(sorted.as_slice())
}

/// The largest product of orders and rows for which all orders of the columns are
/// tried.
pub const EXACT_COL_BUDGET: usize = 500_000;

/// The product of the numbers up to `n`.
pub open spec fn factorial_of(n: nat) -> nat
    decreases n,
{
    if n == 0 {
        1
    } else {
        n * factorial_of((n - 1) as nat)
    }
}

proof fn lemma_factorial_grows(m: nat, n: nat)
    requires
        m <= n,
    ensures
        1 <= factorial_of(m) <= factorial_of(n),
    decreases n,
{
    if m < n {
        lemma_factorial_grows(m, (n - 1) as nat);
        let f = factorial_of((n - 1) as nat);
        assert(n * f >= f) by (nonlinear_arith)
            requires
                n >= 1,
                f >= 0,
        ;
    } else if n > 0 {
        lemma_factorial_grows((n - 1) as nat, (n - 1) as nat);
        let f = factorial_of((n - 1) as nat);
        assert(n * f >= 1) by (nonlinear_arith)
            requires
                n >= 1,
                f >= 1,
        ;
    }
}

/// The product of the numbers up to `n`.
pub fn factorial(n: usize) -> (r: usize)
    requires
        factorial_of(n as nat) <= usize::MAX,
    ensures
        r == factorial_of(n as nat),
{
    let mut r: usize = 1;
    let mut i: usize = 0;
    while i < n
        invariant
            i <= n,
            r == factorial_of(i as nat),
            factorial_of(n as nat) <= usize::MAX,
        decreases n - i,
    {
        proof {
            lemma_factorial_grows((i + 1) as nat, n as nat);
            assert(r * (i + 1) == factorial_of((i + 1) as nat)) by (nonlinear_arith)
                requires
                    r == factorial_of(i as nat),
                    factorial_of((i + 1) as nat) == (i + 1) * factorial_of(i as nat),
            ;
        }
        i += 1;
        r = r * i;
    }
    r
}

/// Two columns are identical.
pub open spec fn same_column(rows: Seq<Seq<u8>>, a: int, b: int) -> bool {
    forall|i: int| 0 <= i < rows.len() ==> #[trigger] rows[i][a] == rows[i][b]
}

/// No column further left is identical.
pub open spec fn first_of_column(rows: Seq<Seq<u8>>, j: int) -> bool {
    forall|a: int| 0 <= a < j ==> !#[trigger] same_column(rows, a, j)
}

/// The columns that are left when identical ones are merged.
pub open spec fn merged_cols(rows: Seq<Seq<u8>>, k: nat) -> Seq<int> {
    Seq::new(k, |j: int| j).filter(|j: int| first_of_column(rows, j))
}

fn columns_equal(buf: &Vec<u8>, a: usize, b: usize, m: usize, k: usize) -> (r: bool)
    requires
        a < k,
        b < k,
        buf@.len() >= m * k,
    ensures
        r == same_column(to_rows(buf@, m as nat, k as nat), a as int, b as int),
{
    let ghost rows = to_rows(buf@, m as nat, k as nat);
    let mut i: usize = 0;
    while i < m
        invariant
            a < k,
            b < k,
            i <= m,
            buf@.len() >= m * k,
            rows == to_rows(buf@, m as nat, k as nat),
            forall|t: int| 0 <= t < i ==> #[trigger] rows[t][a as int] == rows[t][b as int],
        decreases m - i,
    {
        if cell_at(buf, i, a, Ghost(m as nat), k) != cell_at(buf, i, b, Ghost(m as nat), k) {
            assert(rows[i as int][a as int] != rows[i as int][b as int]);
            return false;
        }
        i += 1;
    }
    true
}

/// Merge identical columns of an `m` by `k` matrix. Returns `None` where all
/// columns are distinct.
pub fn merge_identical_columns(buf: &Vec<u8>, m: usize, k: usize) -> (r: Option<(Vec<u8>, usize)>)
    requires
        buf@.len() >= m * k,
    ensures
        r is None == (merged_cols(to_rows(buf@, m as nat, k as nat), k as nat).len() == k),
        r matches Some(p) ==> {
            let rows = to_rows(buf@, m as nat, k as nat);
            &&& p.1 == merged_cols(rows, k as nat).len()
            &&& p.0@.len() == m * p.1
            &&& to_rows(p.0@, m as nat, p.1 as nat) == pick_cols(rows, merged_cols(rows, k as nat))
        },
{
    let ghost rows = to_rows(buf@, m as nat, k as nat);
    let ghost all = Seq::new(k as nat, |j: int| j);
    let ghost pred = |j: int| first_of_column(rows, j);
    let mut cols: Vec<usize> = Vec::new();
    let mut j: usize = 0;
    proof {
        assert(all.take(0) =~= Seq::empty());
        reveal(Seq::filter);
        assert(ints(cols@) =~= all.take(0).filter(pred));
    }
    while j < k
        invariant
            j <= k,
            buf@.len() >= m * k,
            rows == to_rows(buf@, m as nat, k as nat),
            all == Seq::new(k as nat, |j: int| j),
            pred == |j: int| first_of_column(rows, j),
            ints(cols@) == all.take(j as int).filter(pred),
            forall|t: int| 0 <= t < cols@.len() ==> #[trigger] cols@[t] < k,
            cols@.len() <= j,
        decreases k - j,
    {
        let mut first: bool = true;
        let mut a: usize = 0;
        while a < j && first
            invariant
                a <= j < k,
                buf@.len() >= m * k,
                rows == to_rows(buf@, m as nat, k as nat),
                first == forall|b: int| 0 <= b < a ==> !#[trigger] same_column(rows, b, j as int),
            decreases j - a,
        {
            if columns_equal(buf, a, j, m, k) {
                first = false;
                assert(same_column(rows, a as int, j as int));
            }
            a += 1;
        }
        proof {
            assert(first == first_of_column(rows, j as int));
            lemma_filter_take(all, pred, j as int);
        }
        let ghost before = cols@;
        if first {
            cols.push(j);
            proof {
                assert(ints(cols@) =~= ints(before).push(j as int));
            }
        }
        j += 1;
    }
    proof {
        assert(all.take(k as int) =~= all);
        assert(ints(cols@).len() == cols@.len());
    }
    let ek: usize = cols.len();
    if ek == k {
        return None;
    }
    Some((copy_columns(buf, m, k, &cols), ek))
}

/// Try all orders of the columns, canonicalize each, and return the least hash.
pub fn exact_column_canon_hash(buf: &Vec<u8>, m: usize, k: usize) -> (r: u128)
    requires
        buf@.len() >= m * k,
    ensures
        exists|p: Seq<usize>| #[trigger]
            perm_of(p, 0, k as int) && hash_of(perm_form(to_rows(buf@, m as nat, k as nat), k as nat, p)) == r,
        forall|p: Seq<usize>| #[trigger]
            perm_of(p, 0, k as int) ==> r <= hash_of(perm_form(to_rows(buf@, m as nat, k as nat), k as nat, p)),
{
    let ghost rows = to_rows(buf@, m as nat, k as nat);
    let mut perm = identity(k);
    let first = form_of_buffer(buf, m, k, &perm);
    let mut best: u128 = hash_flat(&first);
    let mut more: bool = true;
    let ghost mut best_perm = perm@;
    proof {
        let cur = perm@;
        assert forall|q: Seq<usize>| #[trigger] perm_of(q, 0, k as int) && seq_le(q, cur) implies best <= hash_of(perm_form(rows, k as nat, q)) by {
            lemma_perm_numbers(cur, q, k as int);
            lemma_rising_first(cur, q);
            lemma_seq_order(cur, q);
        }
    }
    while more
        invariant
            buf@.len() >= m * k,
            rows == to_rows(buf@, m as nat, k as nat),
            perm_of(perm@, 0, k as int),
            perm_of(best_perm, 0, k as int),
            best == hash_of(perm_form(rows, k as nat, best_perm)),
            more ==> forall|q: Seq<usize>| #[trigger] perm_of(q, 0, k as int) && seq_le(q, perm@) ==> best <= hash_of(perm_form(rows, k as nat, q)),
            !more ==> forall|q: Seq<usize>| #[trigger] perm_of(q, 0, k as int) ==> best <= hash_of(perm_form(rows, k as nat, q)),
        decreases more as int, code_limit(k as nat, k as nat) - code(perm@, k as nat),
    {
        let ghost cur = perm@;
        more = next_permutation(&mut perm);
        proof {
            lemma_numbers_perm(cur, perm@, k as int);
            if more {
                lemma_code_rises(cur, perm@, k as nat);
                lemma_code_limit(perm@, k as nat);
            } else {
                assert forall|q: Seq<usize>| #[trigger] perm_of(q, 0, k as int) implies best <= hash_of(perm_form(rows, k as nat, q)) by {
                    lemma_perm_numbers(cur, q, k as int);
                    assert(seq_le(q, cur));
                }
            }
        }
        if more {
            let work = form_of_buffer(buf, m, k, &perm);
            let h: u128 = hash_flat(&work);
            let ghost old_best = best;
            if h < best {
                best = h;
                proof {
                    best_perm = perm@;
                }
            }
            proof {
                let next = perm@;
                assert forall|q: Seq<usize>| #[trigger] perm_of(q, 0, k as int) && seq_le(q, next) implies best <= hash_of(perm_form(rows, k as nat, q)) by {
                    if q != next {
                        lemma_perm_numbers(cur, q, k as int);
                        lemma_next_covers(cur, next, q);
                        assert(old_best <= hash_of(perm_form(rows, k as nat, q)));
                    }
                }
            }
        }
    }
    proof {
        assert(perm_of(best_perm, 0, k as int) && hash_of(perm_form(rows, k as nat, best_perm)) == best);
    }
    best
}

/// One round of the cheaper method: rows sorted, letters renamed, columns put in
/// the order `o`.
pub open spec fn column_round(rows: Seq<Seq<u8>>, k: nat, o: Seq<usize>) -> Seq<Seq<u8>> {
    pick_cols(relabel_rows(sorted_rows(rows, k), k), ints(o))
}

/// The hash after two rounds with the column orders `o1` and `o2` and a last sort
/// and relabelling of the rows.
pub open spec fn is_round_hash(rows: Seq<Seq<u8>>, k: nat, o1: Seq<usize>, o2: Seq<usize>, r: u128) -> bool {
    let one = column_round(rows, k, o1);
    let two = column_round(one, k, o2);
    &&& is_column_order(relabel_rows(sorted_rows(rows, k), k), k, o1)
    &&& is_column_order(relabel_rows(sorted_rows(one, k), k), k, o2)
    &&& r == hash_of(relabeled(flat(sorted_rows(two, k), k)))
}

/// Canonicalization for many columns: two rounds of sorting rows, relabelling and
/// sorting columns, then rows and labels once more. Returns the hash.
pub fn heuristic_column_canon_hash(buf: &Vec<u8>, m: usize, k: usize) -> (r: u128)
    requires
        buf@.len() >= m * k,
    ensures
        exists|o1: Seq<usize>, o2: Seq<usize>| #[trigger]
            is_round_hash(to_rows(buf@, m as nat, k as nat), k as nat, o1, o2, r),
{
    let ghost rows = to_rows(buf@, m as nat, k as nat);
    let ghost kk = k as nat;
    let len: usize = buf.len();
    proof {
        assert(m * k >= 0) by (nonlinear_arith);
        assert(m * k <= len);
    }
    let mut work: Vec<u8> = head(buf, m * k);
    proof {
        lemma_rows_take(work@, buf@, m as nat, k as nat);
    }
    sort_flat_rows(&mut work, m, k);
    proof {
        lemma_flat_rows(work@, m as nat, kk);
    }
    relabel_flat(&mut work);
    let ghost w1 = to_rows(work@, m as nat, kk);
    proof {
        assert(sorted_rows(rows, kk).len() == m);
        assert(w1 == relabel_rows(sorted_rows(rows, kk), kk));
    }
    sort_flat_cols(&mut work, m, k);
    let ghost o1 = choose|o: Seq<usize>| #[trigger] is_column_order(w1, kk, o) && to_rows(work@, m as nat, kk) == pick_cols(w1, ints(o));
    let ghost one = to_rows(work@, m as nat, kk);
    sort_flat_rows(&mut work, m, k);
    proof {
        lemma_flat_rows(work@, m as nat, kk);
    }
    relabel_flat(&mut work);
    let ghost w2 = to_rows(work@, m as nat, kk);
    proof {
        assert(sorted_rows(one, kk).len() == m);
        assert(w2 == relabel_rows(sorted_rows(one, kk), kk));
    }
    sort_flat_cols(&mut work, m, k);
    let ghost o2 = choose|o: Seq<usize>| #[trigger] is_column_order(w2, kk, o) && to_rows(work@, m as nat, kk) == pick_cols(w2, ints(o));
    let ghost two = to_rows(work@, m as nat, kk);
    sort_flat_rows(&mut work, m, k);
    proof {
        lemma_flat_rows(work@, m as nat, kk);
    }
    relabel_flat(&mut work);
    proof {
        assert(one == column_round(rows, kk, o1));
        assert(two == column_round(one, kk, o2));
        assert(is_column_order(relabel_rows(sorted_rows(rows, kk), kk), kk, o1));
        assert(is_column_order(relabel_rows(sorted_rows(one, kk), kk), kk, o2));
    }
    let r: u128 = hash_flat(&work);
    assert(is_round_hash(rows, kk, o1, o2, r));
    r
}

} // verus!
