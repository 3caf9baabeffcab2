//! Why canonical forms may stand for positions: none of the steps towards the
//! canonical form changes the value of the game.
use vstd::bytes::{lemma_auto_spec_u64_to_from_le_bytes, spec_u64_from_le_bytes, spec_u64_to_le_bytes};
use vstd::prelude::*;

use crate::game::rules::{
    answers_match, at, hits_match, is_open, lemma_indistinct, lemma_value_alike, lemma_value_is, occurs, paired_left,
    paired_right, renamed_to, same_places, uniform, value,
};
use crate::seqs::lemma_filter;
use crate::solver::canon::{canon_flat, collapsed, form_bytes, lemma_row_order, live_col, live_cols, row_order, sorted_rows};
use crate::solver::matrix::{all_len, flat, label, lemma_cell, lemma_label, lemma_rows_flat, relabeled, to_rows};
use crate::solver::signature::row_set;

verus! {

/// The value of a matrix of signatures with nothing guessed.
pub open spec fn matrix_value(rows: Seq<Seq<u8>>) -> nat {
    value(row_set(rows), Set::empty())
}

/// Letter `l` stands in some row.
pub open spec fn in_rows(rows: Seq<Seq<u8>>, l: u8) -> bool {
    l != 0 && exists|i: int| 0 <= i < rows.len() && occurs(l, #[trigger] rows[i])
}

proof fn lemma_in_rows(rows: Seq<Seq<u8>>, l: u8)
    ensures
        in_rows(rows, l) == is_open(row_set(rows), Set::empty(), l),
{
    let s = row_set(rows);
    if in_rows(rows, l) {
        let i = choose|i: int| 0 <= i < rows.len() && occurs(l, #[trigger] rows[i]);
        assert(rows.contains(rows[i]));
        assert(s.contains(rows[i]));
    }
    if is_open(s, Set::empty(), l) {
        let w = choose|w: Seq<u8>| #[trigger] s.contains(w) && occurs(l, w);
        let i = choose|i: int| 0 <= i < rows.len() && rows[i] == w;
        assert(occurs(l, rows[i]));
    }
}

/// Matrices whose rows correspond one by one, with letters renamed by `f`, have
/// the same value.
pub proof fn lemma_value_row_by_row(p: Seq<Seq<u8>>, q: Seq<Seq<u8>>, f: spec_fn(u8) -> u8)
    requires
        p.len() == q.len(),
        forall|l: u8| #[trigger] in_rows(p, l) ==> f(l) != 0,
        forall|l: u8, m: u8| #[trigger] in_rows(p, l) && #[trigger] in_rows(p, m) && f(l) == f(m) ==> l == m,
        forall|m: u8| #[trigger] in_rows(q, m) ==> exists|l: u8| #[trigger] in_rows(p, l) && f(l) == m,
        forall|l: u8, i: int| #[trigger] in_rows(p, l) && 0 <= i < p.len() ==> occurs(l, #[trigger] p[i]) == occurs(f(l), q[i]),
        forall|l: u8, i: int, j: int|
            #[trigger] in_rows(p, l) && 0 <= i < p.len() && 0 <= j < p.len() ==> same_places(l, #[trigger] p[i], #[trigger] p[j])
                == same_places(f(l), q[i], q[j]),
    ensures
        matrix_value(p) == matrix_value(q),
{
    let s = row_set(p);
    let t = row_set(q);
    let e = Set::<u8>::empty();
    let r = |w: Seq<u8>, v: Seq<u8>| exists|i: int| 0 <= i < p.len() && #[trigger] p[i] == w && q[i] == v;
    assert forall|w: Seq<u8>| #[trigger] s.contains(w) implies paired_left(t, r, w) by {
        reveal(paired_left);
        let i = choose|i: int| 0 <= i < p.len() && p[i] == w;
        assert(p[i] == w);
        assert(q.contains(q[i]));
        assert(t.contains(q[i]) && r(w, q[i]));
    }
    assert forall|v: Seq<u8>| #[trigger] t.contains(v) implies paired_right(s, r, v) by {
        reveal(paired_right);
        let i = choose|i: int| 0 <= i < q.len() && q[i] == v;
        assert(p.contains(p[i]));
        assert(s.contains(p[i]) && r(p[i], v));
    }
    assert forall|l: u8| #[trigger] is_open(s, e, l) implies is_open(t, e, f(l)) by {
        lemma_in_rows(p, l);
        lemma_in_rows(q, f(l));
        let i = choose|i: int| 0 <= i < p.len() && occurs(l, #[trigger] p[i]);
        assert(occurs(f(l), q[i]));
    }
    assert forall|m: u8| #[trigger] is_open(t, e, m) implies renamed_to(s, e, f, m) by {
        reveal(renamed_to);
        lemma_in_rows(q, m);
        let l = choose|l: u8| #[trigger] in_rows(p, l) && f(l) == m;
        lemma_in_rows(p, l);
    }
    assert forall|l: u8, m: u8| #[trigger] is_open(s, e, l) && #[trigger] is_open(s, e, m) && f(l) == f(m) implies l == m by {
        lemma_in_rows(p, l);
        lemma_in_rows(p, m);
    }
    assert(hits_match(s, e, t, r, f)) by {
        reveal(hits_match);
        assert forall|w: Seq<u8>, v: Seq<u8>, l: u8|
            #![trigger r(w, v), is_open(s, e, l)]
            s.contains(w) && t.contains(v) && r(w, v) && is_open(s, e, l) implies occurs(l, w)
            == occurs(f(l), v) by {
            lemma_in_rows(p, l);
            let i = choose|i: int| 0 <= i < p.len() && #[trigger] p[i] == w && q[i] == v;
            assert(occurs(l, p[i]) == occurs(f(l), q[i]));
        }
    }
    assert(answers_match(s, e, t, r, f)) by {
        reveal(answers_match);
        assert forall|w: Seq<u8>, v: Seq<u8>, w2: Seq<u8>, v2: Seq<u8>, l: u8|
            #![trigger r(w, v), r(w2, v2), is_open(s, e, l)]
            s.contains(w) && t.contains(v) && r(w, v) && s.contains(w2) && t.contains(v2) && r(
                w2,
                v2,
            ) && is_open(s, e, l) implies same_places(l, w, w2) == same_places(f(l), v, v2) by {
            lemma_in_rows(p, l);
            let i = choose|i: int| 0 <= i < p.len() && #[trigger] p[i] == w && q[i] == v;
            let j = choose|j: int| 0 <= j < p.len() && #[trigger] p[j] == w2 && q[j] == v2;
            assert(same_places(l, p[i], p[j]) == same_places(f(l), q[i], q[j]));
        }
    }
    lemma_value_alike(s, e, t, e, r, f);
}

/// Dropping columns of zeros keeps the value.
pub proof fn lemma_collapse_keeps_value(rows: Seq<Seq<u8>>, k: nat)
    requires
        all_len(rows, k),
    ensures
        matrix_value(collapsed(rows, k)) == matrix_value(rows),
{
    let q = collapsed(rows, k);
    let all = Seq::new(k, |j: int| j);
    let cols = live_cols(rows, k);
    lemma_filter(all, |j: int| live_col(rows, j));
    let f = |l: u8| l;
    assert forall|l: u8, i: int| l != 0 && 0 <= i < rows.len() implies occurs(l, #[trigger] rows[i])
        == #[trigger] occurs(l, q[i]) by {
        if occurs(l, rows[i]) {
            let j = choose|j: int| #[trigger] at(rows[i], j, l);
            assert(rows[i][j] != 0);
            assert(all[j] == j);
            assert(cols.contains(all[j]));
            let t = choose|t: int| 0 <= t < cols.len() && cols[t] == j;
            assert(at(q[i], t, l));
        }
        if occurs(l, q[i]) {
            let t = choose|t: int| #[trigger] at(q[i], t, l);
            assert(all.contains(cols[t]));
            assert(at(rows[i], cols[t], l));
        }
    }
    assert forall|l: u8, i: int, j: int|
        #[trigger] in_rows(rows, l) && 0 <= i < rows.len() && 0 <= j < rows.len() implies same_places(l, #[trigger] rows[i], #[trigger] rows[j])
            == same_places(f(l), q[i], q[j]) by {
        if same_places(l, rows[i], rows[j]) {
            assert forall|t: int| at(q[i], t, l) == at(q[j], t, l) by {
                if 0 <= t < cols.len() {
                    assert(all.contains(cols[t]));
                    assert(at(rows[i], cols[t], l) == at(rows[j], cols[t], l));
                }
            }
        }
        if same_places(l, q[i], q[j]) {
            assert forall|c: int| at(rows[i], c, l) == at(rows[j], c, l) by {
                if 0 <= c < k {
                    if live_col(rows, c) {
                        assert(all[c] == c);
                        assert(cols.contains(all[c]));
                        let t = choose|t: int| 0 <= t < cols.len() && cols[t] == c;
                        assert(at(q[i], t, l) == at(q[j], t, l));
                    } else {
                        assert(rows[i][c] == 0 && rows[j][c] == 0);
                    }
                }
            }
        }
    }
    assert forall|m: u8| #[trigger] in_rows(q, m) implies exists|l: u8| #[trigger] in_rows(rows, l) && f(l) == m by {
        let i = choose|i: int| 0 <= i < q.len() && occurs(m, #[trigger] q[i]);
        assert(occurs(m, rows[i]));
        assert(in_rows(rows, m) && f(m) == m);
    }
    lemma_value_row_by_row(rows, q, f);
}

/// Renaming the letters by first appearance keeps the value.
pub proof fn lemma_relabel_keeps_value(rows: Seq<Seq<u8>>, k: nat)
    requires
        all_len(rows, k),
    ensures
        matrix_value(to_rows(relabeled(flat(rows, k)), rows.len(), k)) == matrix_value(rows),
        all_len(to_rows(relabeled(flat(rows, k)), rows.len(), k), k),
{
    let s = flat(rows, k);
    let m = rows.len();
    let q = to_rows(relabeled(s), m, k);
    let f = |l: u8| label(s, l);
    lemma_rows_flat(rows, k);
    lemma_label(s);
    assert forall|i: int, j: int| 0 <= i < m && 0 <= j < k implies s.contains(#[trigger] rows[i][j]) && q[i][j] == label(s, rows[i][j]) by {
        lemma_cell(i, j, m as int, k as int);
        assert(s[i * k + j] == rows[i][j]);
    }
    assert forall|l: u8| #[trigger] in_rows(rows, l) implies s.contains(l) by {
        let i = choose|i: int| 0 <= i < rows.len() && occurs(l, #[trigger] rows[i]);
        let j = choose|j: int| #[trigger] at(rows[i], j, l);
        assert(s.contains(rows[i][j]));
    }
    assert forall|l: u8, i: int, j: int|
        #![trigger at(q[i], j, label(s, l))]
        #![trigger at(rows[i], j, l)]
        in_rows(rows, l) && 0 <= i < m implies at(q[i], j, label(s, l)) == at(rows[i], j, l) by {
        if 0 <= j < k {
            assert(s.contains(rows[i][j]));
            if rows[i][j] != l {
                assert(label(s, rows[i][j]) != label(s, l));
            }
        }
    }
    assert forall|l: u8, i: int| #[trigger] in_rows(rows, l) && 0 <= i < m implies occurs(l, #[trigger] rows[i]) == occurs(f(l), q[i]) by {
        if occurs(l, rows[i]) {
            let j = choose|j: int| #[trigger] at(rows[i], j, l);
            assert(at(q[i], j, label(s, l)));
        }
        if occurs(label(s, l), q[i]) {
            let j = choose|j: int| #[trigger] at(q[i], j, label(s, l));
            assert(at(rows[i], j, l));
        }
    }
    assert forall|l: u8, i: int, i2: int|
        #[trigger] in_rows(rows, l) && 0 <= i < m && 0 <= i2 < m implies same_places(l, #[trigger] rows[i], #[trigger] rows[i2])
            == same_places(f(l), q[i], q[i2]) by {
        let c = label(s, l);
        if same_places(l, rows[i], rows[i2]) {
            assert forall|j: int| #[trigger] at(q[i], j, c) == at(q[i2], j, c) by {
                assert(at(rows[i], j, l) == at(rows[i2], j, l));
            }
        }
        if same_places(c, q[i], q[i2]) {
            assert forall|j: int| #[trigger] at(rows[i], j, l) == at(rows[i2], j, l) by {
                assert(at(q[i], j, c) == at(q[i2], j, c));
            }
        }
    }
    assert forall|c: u8| #[trigger] in_rows(q, c) implies exists|l: u8| #[trigger] in_rows(rows, l) && f(l) == c by {
        let i = choose|i: int| 0 <= i < q.len() && occurs(c, #[trigger] q[i]);
        let j = choose|j: int| #[trigger] at(q[i], j, c);
        let l = rows[i][j];
        assert(s.contains(l));
        assert(at(rows[i], j, l));
        assert(occurs(l, rows[i]));
        assert(in_rows(rows, l) && f(l) == c);
    }
    lemma_value_row_by_row(rows, q, f);
}

/// Sorting the rows keeps the value.
pub proof fn lemma_sort_keeps_value(rows: Seq<Seq<u8>>, k: nat)
    requires
        all_len(rows, k),
    ensures
        matrix_value(sorted_rows(rows, k)) == matrix_value(rows),
        all_len(sorted_rows(rows, k), k),
        sorted_rows(rows, k).len() == rows.len(),
{
    lemma_row_order(k);
    let q = sorted_rows(rows, k);
    rows.lemma_sort_by_ensures(row_order(k));
    broadcast use vstd::seq_lib::group_to_multiset_ensures;
    assert(rows.to_multiset().len() == q.to_multiset().len());
    assert forall|x: Seq<u8>| rows.contains(x) == q.contains(x) by {
        assert(rows.to_multiset().count(x) == q.to_multiset().count(x));
    }
    assert(row_set(rows) =~= row_set(q));
    assert forall|i: int| 0 <= i < q.len() implies (#[trigger] q[i]).len() == k by {
        assert(q.contains(q[i]));
        let j = choose|j: int| 0 <= j < rows.len() && rows[j] == q[i];
        assert(rows[j].len() == k);
    }
}

/// The rows of the canonical form.
pub open spec fn canon_rows(rows: Seq<Seq<u8>>, k: nat) -> Seq<Seq<u8>> {
    to_rows(canon_flat(rows, k), rows.len(), live_cols(rows, k).len())
}

/// A matrix and its canonical form have the same value.
pub proof fn lemma_canon_keeps_value(rows: Seq<Seq<u8>>, k: nat)
    requires
        all_len(rows, k),
    ensures
        matrix_value(canon_rows(rows, k)) == matrix_value(rows),
{
    let c = collapsed(rows, k);
    let k2 = live_cols(rows, k).len();
    lemma_collapse_keeps_value(rows, k);
    assert(all_len(c, k2));
    lemma_relabel_keeps_value(c, k2);
    let again = to_rows(relabeled(flat(c, k2)), rows.len(), k2);
    lemma_sort_keeps_value(again, k2);
    lemma_relabel_keeps_value(sorted_rows(again, k2), k2);
}

/// The value that the bytes of a canonical form stand for.
pub open spec fn form_value(form: Seq<u8>) -> nat {
    if form.len() == 0 {
        0
    } else {
        let k = spec_u64_from_le_bytes(form.take(8)) as nat;
        let cells = form.skip(8);
        matrix_value(to_rows(cells, cells.len() / k, k))
    }
}

/// The bytes of the canonical form of a matrix stand for its value.
pub proof fn lemma_form_value(rows: Seq<Seq<u8>>, k: nat)
    requires
        all_len(rows, k),
        k <= u64::MAX,
        rows.len() >= 2 ==> live_cols(rows, k).len() > 0,
    ensures
        form_value(form_bytes(rows, k)) == matrix_value(rows),
{
    if rows.len() <= 1 {
        lemma_one_row(rows);
    } else {
        lemma_auto_spec_u64_to_from_le_bytes();
        let form = form_bytes(rows, k);
        let k2 = live_cols(rows, k).len();
        lemma_filter(Seq::new(k, |j: int| j), |j: int| live_col(rows, j));
        assert(form.take(8) =~= spec_u64_to_le_bytes(k2 as u64));
        assert(form.skip(8) =~= canon_flat(rows, k));
        lemma_canon_len(rows, k);
        assert(form.skip(8).len() / k2 == rows.len()) by {
            vstd::arithmetic::div_mod::lemma_div_multiples_vanish(rows.len() as int, k2 as int);
            assert(rows.len() * k2 == k2 * rows.len()) by (nonlinear_arith);
        }
        lemma_canon_keeps_value(rows, k);
    }
}

/// A matrix with at most one row needs no miss.
pub proof fn lemma_one_row(rows: Seq<Seq<u8>>)
    requires
        rows.len() <= 1,
    ensures
        matrix_value(rows) == 0,
{
    let s = row_set(rows);
    let g = Set::<u8>::empty();
    assert forall|l: u8| l != 0 && !g.contains(l) implies #[trigger] uniform(s, l) by {}
    lemma_indistinct(s, g);
    lemma_value_is(s, g, 0);
}

proof fn lemma_canon_len(rows: Seq<Seq<u8>>, k: nat)
    requires
        all_len(rows, k),
    ensures
        canon_flat(rows, k).len() == rows.len() * live_cols(rows, k).len(),
{
    let k2 = live_cols(rows, k).len();
    let c = collapsed(rows, k);
    assert(all_len(c, k2));
    lemma_relabel_keeps_value(c, k2);
    lemma_sort_keeps_value(to_rows(relabeled(flat(c, k2)), rows.len(), k2), k2);
}

} // verus!
