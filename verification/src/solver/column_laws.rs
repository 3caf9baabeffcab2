//! What canonical forms over all orders do not depend on, and that they keep the
//! value of the game.
use vstd::prelude::*;

use crate::game::rules::{at, occurs, same_places};
use crate::game::value_laws::is_renaming;
use crate::seqs::lemma_perm_multiset;
use crate::solver::canon::{pick_cols, sorted_rows};
use crate::solver::canon_laws::{
    in_rows, lemma_relabel_keeps_value, lemma_sort_keeps_value, lemma_value_row_by_row, matrix_value,
};
use crate::solver::columns::{ints, is_least_form, order_form, orders, perm_form, relabel_rows};
use crate::solver::matrix::{
    all_len, flat, label, label_upto, lemma_cell, lemma_label, lemma_place, rank, relabeled, seen, to_rows,
};
use crate::solver::row_orders::{
    lemma_label_stays, lemma_renamed_flat, lemma_renamed_relabel, pick_rows, renamed_rows,
};
use crate::solver::signature::row_set;
use crate::sorting::{lemma_lex_total, perm_of};

verus! {

/// Reordering the columns keeps the value.
pub proof fn lemma_columns_keep_value(rows: Seq<Seq<u8>>, k: nat, p: Seq<usize>)
    requires
        all_len(rows, k),
        perm_of(p, 0, k as int),
        k <= usize::MAX,
    ensures
        matrix_value(pick_cols(rows, ints(p))) == matrix_value(rows),
        all_len(pick_cols(rows, ints(p)), k),
{
    let q = pick_cols(rows, ints(p));
    let f = |l: u8| l;
    assert forall|i: int| 0 <= i < rows.len() implies (#[trigger] q[i]).len() == k by {}
    assert forall|l: u8, i: int| 0 <= i < rows.len() implies #[trigger] occurs(l, rows[i]) == occurs(l, q[i]) by {
        if occurs(l, rows[i]) {
            let j = choose|j: int| #[trigger] at(rows[i], j, l);
            assert(p.contains(j as usize));
            let t = choose|t: int| 0 <= t < p.len() && p[t] == j as usize;
            assert(at(q[i], t, l));
        }
        if occurs(l, q[i]) {
            let t = choose|t: int| #[trigger] at(q[i], t, l);
            assert(at(rows[i], p[t] as int, l));
        }
    }
    assert forall|l: u8, i: int, j: int|
        #[trigger] in_rows(rows, l) && 0 <= i < rows.len() && 0 <= j < rows.len() implies same_places(l, #[trigger] rows[i], #[trigger] rows[j])
            == same_places(f(l), q[i], q[j]) by {
        if same_places(l, rows[i], rows[j]) {
            assert forall|t: int| at(q[i], t, l) == at(q[j], t, l) by {
                if 0 <= t < k {
                    assert(at(rows[i], p[t] as int, l) == at(rows[j], p[t] as int, l));
                }
            }
        }
        if same_places(l, q[i], q[j]) {
            assert forall|c: int| at(rows[i], c, l) == at(rows[j], c, l) by {
                if 0 <= c < k {
                    assert(p.contains(c as usize));
                    let t = choose|t: int| 0 <= t < p.len() && p[t] == c as usize;
                    assert(at(q[i], t, l) == at(q[j], t, l));
                }
            }
        }
    }
    assert forall|m: u8| #[trigger] in_rows(q, m) implies exists|l: u8| #[trigger] in_rows(rows, l) && f(l) == m by {
        let i = choose|i: int| 0 <= i < q.len() && occurs(m, #[trigger] q[i]);
        assert(occurs(m, rows[i]));
        assert(in_rows(rows, m) && f(m) == m);
    }
    assert forall|l: u8, i: int| #[trigger] in_rows(rows, l) && 0 <= i < rows.len() implies occurs(l, #[trigger] rows[i]) == occurs(f(l), q[i]) by {}
    lemma_value_row_by_row(rows, q, f);
}

/// The canonical form for any order of the columns has the value of the rows.
pub proof fn lemma_form_keeps_value(rows: Seq<Seq<u8>>, k: nat, p: Seq<usize>)
    requires
        all_len(rows, k),
        perm_of(p, 0, k as int),
        k <= usize::MAX,
    ensures
        matrix_value(to_rows(perm_form(rows, k, p), rows.len(), k)) == matrix_value(rows),
{
    lemma_columns_keep_value(rows, k, p);
    let a = pick_cols(rows, ints(p));
    lemma_sort_keeps_value(a, k);
    let b = sorted_rows(a, k);
    lemma_relabel_keeps_value(b, k);
    let c = relabel_rows(b, k);
    lemma_sort_keeps_value(c, k);
    lemma_relabel_keeps_value(sorted_rows(c, k), k);
}

/// Reordering the rows keeps the value.
proof fn lemma_rows_keep_value(rows: Seq<Seq<u8>>, k: nat, q: Seq<usize>)
    requires
        all_len(rows, k),
        perm_of(q, 0, rows.len() as int),
        rows.len() <= usize::MAX,
    ensures
        matrix_value(pick_rows(rows, q)) == matrix_value(rows),
        all_len(pick_rows(rows, q), k),
{
    let o = pick_rows(rows, q);
    assert forall|x: Seq<u8>| rows.contains(x) == o.contains(x) by {
        if rows.contains(x) {
            let i = choose|i: int| 0 <= i < rows.len() && rows[i] == x;
            assert(q.contains(i as usize));
            let t = choose|t: int| 0 <= t < q.len() && q[t] == i as usize;
            assert(o[t] == x);
        }
        if o.contains(x) {
            let t = choose|t: int| 0 <= t < o.len() && o[t] == x;
            assert(rows[q[t] as int] == x);
        }
    }
    assert(row_set(rows) =~= row_set(o));
    assert forall|t: int| 0 <= t < o.len() implies (#[trigger] o[t]).len() == k by {
        assert(rows[q[t] as int].len() == k);
    }
}

/// The form for any order of the columns and rows has the value of the rows.
pub proof fn lemma_order_form_keeps_value(rows: Seq<Seq<u8>>, k: nat, p: Seq<usize>, q: Seq<usize>)
    requires
        all_len(rows, k),
        orders(p, q, k, rows.len()),
        k <= usize::MAX,
        rows.len() <= usize::MAX,
    ensures
        matrix_value(to_rows(order_form(rows, k, p, q), rows.len(), k)) == matrix_value(rows),
{
    lemma_columns_keep_value(rows, k, p);
    let a = pick_cols(rows, ints(p));
    lemma_rows_keep_value(a, k, q);
    lemma_relabel_keeps_value(pick_rows(a, q), k);
}

/// Signature sets with the same canonical form have the same value.
pub proof fn lemma_same_form_same_value(a: Seq<Seq<u8>>, b: Seq<Seq<u8>>, k: nat, f: Seq<u8>)
    requires
        all_len(a, k),
        all_len(b, k),
        a.len() == b.len(),
        a.len() <= usize::MAX,
        k <= usize::MAX,
        is_least_form(a, k, f),
        is_least_form(b, k, f),
    ensures
        matrix_value(a) == matrix_value(b),
{
    let (p, q) = choose|p: Seq<usize>, q: Seq<usize>| #[trigger] orders(p, q, k, a.len()) && order_form(a, k, p, q) == f;
    let (r, s) = choose|p: Seq<usize>, q: Seq<usize>| #[trigger] orders(p, q, k, b.len()) && order_form(b, k, p, q) == f;
    lemma_order_form_keeps_value(a, k, p, q);
    lemma_order_form_keeps_value(b, k, r, s);
}

/// One order after another.
pub open spec fn composed(s: Seq<usize>, p: Seq<usize>) -> Seq<usize> {
    Seq::new(p.len(), |t: int| s[p[t] as int])
}

/// The order that undoes another.
spec fn inverse(s: Seq<usize>) -> Seq<usize> {
    Seq::new(s.len(), |c: int| s.index_of(c as usize) as usize)
}

proof fn lemma_composed(s: Seq<usize>, p: Seq<usize>, k: int)
    requires
        perm_of(s, 0, k),
        perm_of(p, 0, k),
        k <= usize::MAX,
    ensures
        perm_of(composed(s, p), 0, k),
{
    let c = composed(s, p);
    assert forall|t: int, u: int| 0 <= t < u < c.len() implies #[trigger] c[t] != #[trigger] c[u] by {
        assert(p[t] != p[u]);
        let x = p[t] as int;
        let y = p[u] as int;
        if x < y {
            assert(s[x] != s[y]);
        } else {
            assert(s[y] != s[x]);
        }
    }
    assert forall|i: usize| 0 <= i < k implies #[trigger] c.contains(i) by {
        assert(s.contains(i));
        let x = choose|x: int| 0 <= x < s.len() && s[x] == i;
        assert(p.contains(x as usize));
        let t = choose|t: int| 0 <= t < p.len() && p[t] == x as usize;
        assert(c[t] == i);
    }
    assert forall|t: int| 0 <= t < c.len() implies 0 <= #[trigger] c[t] < k by {
        assert(p[t] < k);
    }
}

proof fn lemma_inverse(s: Seq<usize>, k: int)
    requires
        perm_of(s, 0, k),
        k <= usize::MAX,
    ensures
        perm_of(inverse(s), 0, k),
        forall|c: int| 0 <= c < k ==> s[#[trigger] inverse(s)[c] as int] == c,
{
    let v = inverse(s);
    assert forall|c: int| 0 <= c < k implies s[#[trigger] v[c] as int] == c && 0 <= v[c] < k by {
        assert(s.contains(c as usize));
        let x = s.index_of(c as usize);
        assert(0 <= x < s.len() && s[x] == c as usize);
    }
    assert forall|t: int, u: int| 0 <= t < u < v.len() implies #[trigger] v[t] != #[trigger] v[u] by {
        assert(s[v[t] as int] == t && s[v[u] as int] == u);
    }
    assert forall|i: usize| 0 <= i < k implies #[trigger] v.contains(i) by {
        let c = s[i as int] as int;
        assert(s[v[c] as int] == c);
        let x = v[c] as int;
        if x != i {
            if x < i {
                assert(s[x] != s[i as int]);
            } else {
                assert(s[i as int] != s[x]);
            }
        }
        assert(v[c] == i);
    }
}

/// The columns reordered, then the rows, then the letters renamed.
pub open spec fn rearranged(rows: Seq<Seq<u8>>, s: Seq<usize>, r: Seq<usize>, h: spec_fn(u8) -> u8) -> Seq<Seq<u8>> {
    renamed_rows(pick_rows(pick_cols(rows, ints(s)), r), h)
}

/// A form of the rearranged rows is one of the rows.
proof fn lemma_rearranged_form(
    rows: Seq<Seq<u8>>,
    k: nat,
    s: Seq<usize>,
    r: Seq<usize>,
    h: spec_fn(u8) -> u8,
    p: Seq<usize>,
    q: Seq<usize>,
)
    requires
        k > 0,
        k <= usize::MAX,
        rows.len() <= usize::MAX,
        orders(s, r, k, rows.len()),
        orders(p, q, k, rows.len()),
        is_renaming(h),
    ensures
        orders(composed(s, p), composed(r, q), k, rows.len()),
        order_form(rearranged(rows, s, r, h), k, p, q) == order_form(rows, k, composed(s, p), composed(r, q)),
{
    lemma_composed(s, p, k as int);
    lemma_composed(r, q, rows.len() as int);
    let other = rearranged(rows, s, r, h);
    let a = pick_rows(pick_cols(other, ints(p)), q);
    let b = pick_rows(pick_cols(rows, ints(composed(s, p))), composed(r, q));
    assert(b.len() == rows.len());
    assert forall|i: int| 0 <= i < rows.len() implies a[i] == renamed_rows(b, h)[i] by {
        assert(q[i] < rows.len());
        assert(r[q[i] as int] < rows.len());
        assert forall|t: int| 0 <= t < k implies a[i][t] == renamed_rows(b, h)[i][t] by {
            assert(p[t] < k);
            assert(s[p[t] as int] < k);
        }
        assert(a[i] =~= renamed_rows(b, h)[i]);
    }
    assert(a =~= renamed_rows(b, h));
    assert(all_len(b, k)) by {
        assert forall|i: int| 0 <= i < b.len() implies (#[trigger] b[i]).len() == k by {
            assert(composed(r, q)[i] < rows.len());
        }
    }
    lemma_renamed_flat(b, k, h);
    lemma_renamed_relabel(flat(b, k), h);
}

/// Sets that differ in the order of their places, the order of their words and the
/// names of their letters have one canonical form.
pub proof fn lemma_isomorphic_same_form(
    rows: Seq<Seq<u8>>,
    k: nat,
    s: Seq<usize>,
    r: Seq<usize>,
    h: spec_fn(u8) -> u8,
    f: Seq<u8>,
    g: Seq<u8>,
)
    requires
        k > 0,
        k <= usize::MAX,
        rows.len() <= usize::MAX,
        orders(s, r, k, rows.len()),
        is_renaming(h),
        is_least_form(rows, k, f),
        is_least_form(rearranged(rows, s, r, h), k, g),
    ensures
        f == g,
{
    let n = rows.len();
    let other = rearranged(rows, s, r, h);
    let (pg, qg) = choose|p: Seq<usize>, q: Seq<usize>| #[trigger] orders(p, q, k, other.len()) && order_form(other, k, p, q) == g;
    lemma_rearranged_form(rows, k, s, r, h, pg, qg);
    let (pf, qf) = choose|p: Seq<usize>, q: Seq<usize>| #[trigger] orders(p, q, k, n) && order_form(rows, k, p, q) == f;
    lemma_undone(s, pf, k as int);
    lemma_undone(r, qf, n as int);
    let p = composed(inverse(s), pf);
    let q = composed(inverse(r), qf);
    assert(orders(p, q, k, other.len()));
    lemma_rearranged_form(rows, k, s, r, h, p, q);
    lemma_lex_total(f, g);
}

/// An order can be put after another one so that both make a third.
proof fn lemma_undone(s: Seq<usize>, p: Seq<usize>, k: int)
    requires
        perm_of(s, 0, k),
        perm_of(p, 0, k),
        k <= usize::MAX,
    ensures
        perm_of(composed(inverse(s), p), 0, k),
        composed(s, composed(inverse(s), p)) == p,
{
    lemma_inverse(s, k);
    lemma_composed(inverse(s), p, k);
    assert(composed(s, composed(inverse(s), p)) =~= p) by {
        assert forall|t: int| 0 <= t < k implies composed(s, composed(inverse(s), p))[t] == p[t] by {
            assert(p[t] < k);
            assert(s[inverse(s)[p[t] as int] as int] == p[t]);
        }
    }
}

/// The numbers below `n` from first to last.
spec fn counting(n: nat) -> Seq<usize> {
    Seq::new(n, |i: int| i as usize)
}

proof fn lemma_counting(n: nat)
    requires
        n <= usize::MAX,
    ensures
        perm_of(counting(n), 0, n as int),
{
    assert forall|i: usize| 0 <= i < n implies #[trigger] counting(n).contains(i) by {
        assert(counting(n)[i as int] == i);
    }
}

/// The canonical form does not depend on the order of the places.
pub proof fn lemma_column_order_free(rows: Seq<Seq<u8>>, k: nat, s: Seq<usize>, f: Seq<u8>, g: Seq<u8>)
    requires
        perm_of(s, 0, k as int),
        k > 0,
        k <= usize::MAX,
        rows.len() <= usize::MAX,
        is_least_form(rows, k, f),
        is_least_form(pick_cols(rows, ints(s)), k, g),
    ensures
        f == g,
{
    let h = |l: u8| l;
    let r = counting(rows.len());
    lemma_counting(rows.len());
    let other = rearranged(rows, s, r, h);
    assert forall|i: int| 0 <= i < rows.len() implies other[i] == pick_cols(rows, ints(s))[i] by {
        assert(other[i] =~= pick_cols(rows, ints(s))[i]);
    }
    assert(other =~= pick_cols(rows, ints(s)));
    assert(orders(s, r, k, rows.len()));
    lemma_isomorphic_same_form(rows, k, s, r, h, f, g);
}

/// The canonical form does not depend on the names of the letters.
pub proof fn lemma_renaming_free(rows: Seq<Seq<u8>>, k: nat, h: spec_fn(u8) -> u8, f: Seq<u8>, g: Seq<u8>)
    requires
        all_len(rows, k),
        k > 0,
        k <= usize::MAX,
        rows.len() <= usize::MAX,
        is_renaming(h),
        is_least_form(rows, k, f),
        is_least_form(renamed_rows(rows, h), k, g),
    ensures
        f == g,
{
    let s = counting(k);
    let r = counting(rows.len());
    lemma_counting(k);
    lemma_counting(rows.len());
    let other = rearranged(rows, s, r, h);
    assert forall|i: int| 0 <= i < rows.len() implies other[i] == renamed_rows(rows, h)[i] by {
        assert(rows[i].len() == k);
        assert(other[i] =~= renamed_rows(rows, h)[i]);
    }
    assert(other =~= renamed_rows(rows, h));
    assert(orders(s, r, k, rows.len()));
    lemma_isomorphic_same_form(rows, k, s, r, h, f, g);
}

/// Sequences with the same members are reorderings of each other.
proof fn lemma_reordering(a: Seq<Seq<u8>>, b: Seq<Seq<u8>>) -> (r: Seq<usize>)
    requires
        a.to_multiset() == b.to_multiset(),
        a.len() <= usize::MAX,
    ensures
        a.len() == b.len(),
        perm_of(r, 0, a.len() as int),
        b == pick_rows(a, r),
    decreases a.len(),
{
    broadcast use vstd::seq_lib::group_to_multiset_ensures;

    assert(a.len() == a.to_multiset().len() && b.len() == b.to_multiset().len());
    if a.len() == 0 {
        let r = Seq::<usize>::empty();
        assert(b =~= pick_rows(a, r));
        r
    } else {
        let n = (a.len() - 1) as int;
        let x = a[n];
        assert(a.contains(x));
        assert(b.to_multiset().count(x) > 0);
        assert(b.contains(x));
        let i = choose|i: int| 0 <= i < b.len() && b[i] == x;
        vstd::seq_lib::to_multiset_remove(a, n);
        vstd::seq_lib::to_multiset_remove(b, i);
        let c = a.remove(n);
        let inner = lemma_reordering(c, b.remove(i));
        let r = inner.insert(i, n as usize);
        assert forall|t: int| 0 <= t < r.len() implies 0 <= #[trigger] r[t] < a.len() && b[t] == a[r[t] as int] by {
            if t < i {
                assert(r[t] == inner[t]);
                assert(b.remove(i)[t] == c[inner[t] as int]);
            } else if t > i {
                assert(r[t] == inner[t - 1]);
                assert(b.remove(i)[t - 1] == c[inner[t - 1] as int]);
            }
        }
        assert forall|t: int, u: int| 0 <= t < u < r.len() implies #[trigger] r[t] != #[trigger] r[u] by {
            let x = if t < i {
                t
            } else {
                t - 1
            };
            let y = if u < i {
                u
            } else {
                u - 1
            };
            if t != i && u != i {
                assert(r[t] == inner[x] && r[u] == inner[y] && inner[x] != inner[y]);
            } else if t == i {
                assert(r[u] == inner[y] && inner[y] < n);
            } else {
                assert(r[t] == inner[x] && inner[x] < n);
            }
        }
        assert forall|v: usize| 0 <= v < a.len() implies #[trigger] r.contains(v) by {
            if v == n {
                assert(r[i] == v);
            } else {
                assert(inner.contains(v));
                let t = choose|t: int| 0 <= t < inner.len() && inner[t] == v;
                if t < i {
                    assert(r[t] == v);
                } else {
                    assert(r[t + 1] == v);
                }
            }
        }
        assert(b =~= pick_rows(a, r));
        r
    }
}

/// The canonical form does not depend on the order of the words.
pub proof fn lemma_row_order_free(a: Seq<Seq<u8>>, b: Seq<Seq<u8>>, k: nat, f: Seq<u8>, g: Seq<u8>)
    requires
        all_len(a, k),
        k > 0,
        k <= usize::MAX,
        a.len() <= usize::MAX,
        a.to_multiset() == b.to_multiset(),
        is_least_form(a, k, f),
        is_least_form(b, k, g),
    ensures
        f == g,
{
    let h = |l: u8| l;
    let s = counting(k);
    lemma_counting(k);
    let r = lemma_reordering(a, b);
    let other = rearranged(a, s, r, h);
    assert forall|i: int| 0 <= i < a.len() implies other[i] == b[i] by {
        assert(a[r[i] as int].len() == k);
        assert(other[i] =~= b[i]);
    }
    assert(other =~= b);
    assert(orders(s, r, k, a.len()));
    lemma_isomorphic_same_form(a, k, s, r, h, f, g);
}

/// Every label up to the number of different letters is given out.
proof fn lemma_labels_given(s: Seq<u8>, n: nat, v: nat)
    requires
        n <= s.len(),
        1 <= v <= rank(s, n),
    ensures
        exists|j: int| 0 <= j < n && label_upto(s, s.len(), #[trigger] s[j]) == v,
    decreases n,
{
    if n > 0 {
        let j = n - 1;
        if v <= rank(s, (n - 1) as nat) {
            lemma_labels_given(s, (n - 1) as nat, v);
            let j = choose|j: int| 0 <= j < n - 1 && label_upto(s, s.len(), #[trigger] s[j]) == v;
            assert(0 <= j < n && label_upto(s, s.len(), s[j]) == v);
        } else {
            assert(label_upto(s, n, s[j]) == v);
            assert(seen(s, n as int, s[j]));
            lemma_label_stays(s, n, s.len(), s[j]);
        }
    }
}

/// A letter gets the next label where it first appears.
proof fn lemma_first_label(s: Seq<u8>, n: nat, b: u8)
    requires
        n <= s.len(),
        b != 0,
        seen(s, n as int, b),
    ensures
        exists|j: int| 0 <= j < n && label_upto(s, n, b) == #[trigger] rank(s, j as nat) + 1,
    decreases n,
{
    if seen(s, n - 1, b) {
        lemma_first_label(s, (n - 1) as nat, b);
        let j = choose|j: int| 0 <= j < n - 1 && label_upto(s, (n - 1) as nat, b) == #[trigger] rank(s, j as nat) + 1;
        assert(0 <= j < n && label_upto(s, n, b) == rank(s, j as nat) + 1);
    } else {
        assert(s[n - 1] == b);
        assert(label_upto(s, n, b) == rank(s, (n - 1) as nat) + 1);
    }
}

/// Labels first appear in the order of their numbers.
pub proof fn lemma_labels_in_order(s: Seq<u8>, i: int, b: u8)
    requires
        0 <= i < s.len(),
        0 < b < relabeled(s)[i],
    ensures
        seen(relabeled(s), i, b),
{
    lemma_label(s);
    let l = s[i];
    assert(label(s, l) == label_upto(s, s.len(), l));
    assert(label(s, l) == relabeled(s)[i]);
    assert(seen(s, i + 1, l));
    lemma_label_stays(s, (i + 1) as nat, s.len(), l);
    lemma_first_label(s, (i + 1) as nat, l);
    let j = choose|j: int| 0 <= j < i + 1 && label_upto(s, (i + 1) as nat, l) == #[trigger] rank(s, j as nat) + 1;
    lemma_labels_given(s, j as nat, b as nat);
    let t = choose|t: int| 0 <= t < j && label_upto(s, s.len(), #[trigger] s[t]) == b;
    assert(label(s, s[t]) == b);
    assert(relabeled(s)[t] == b);
}

/// Bytes that are zero at the same places hold equally many zeros.
proof fn lemma_zeros(a: Seq<u8>, b: Seq<u8>)
    requires
        a.len() == b.len(),
        forall|i: int| 0 <= i < a.len() ==> (#[trigger] a[i] == 0) == (b[i] == 0),
    ensures
        a.to_multiset().count(0) == b.to_multiset().count(0),
    decreases a.len(),
{
    broadcast use vstd::seq_lib::group_to_multiset_ensures;

    if a.len() > 0 {
        let c = a.drop_last();
        let d = b.drop_last();
        assert(a =~= c.push(a.last()) && b =~= d.push(b.last()));
        lemma_zeros(c, d);
    } else {
        assert(a =~= b);
    }
}

/// The canonical form has as many blanks as the rows, and its labels first appear in
/// the order one, two, three.
pub proof fn lemma_form_shape(rows: Seq<Seq<u8>>, k: nat, f: Seq<u8>)
    requires
        all_len(rows, k),
        k > 0,
        rows.len() * k <= usize::MAX,
        is_least_form(rows, k, f),
    ensures
        f.len() == rows.len() * k,
        f.to_multiset().count(0) == flat(rows, k).to_multiset().count(0),
        forall|i: int, b: u8| 0 <= i < f.len() && 0 < b < f[i] ==> #[trigger] seen(f, i, b),
{
    let n = rows.len();
    let (p, q) = choose|p: Seq<usize>, q: Seq<usize>| #[trigger] orders(p, q, k, n) && order_form(rows, k, p, q) == f;
    let picked = pick_rows(pick_cols(rows, ints(p)), q);
    let s = flat(picked, k);
    assert(f == relabeled(s));
    assert forall|i: int, b: u8| 0 <= i < f.len() && 0 < b < f[i] implies #[trigger] seen(f, i, b) by {
        lemma_labels_in_order(s, i, b);
    }
    lemma_label(s);
    assert forall|i: int| 0 <= i < s.len() implies (#[trigger] f[i] == 0) == (s[i] == 0) by {
        assert(s.contains(s[i]));
        assert((label(s, s[i]) == 0) == (s[i] == 0 || !s.contains(s[i])));
    }
    lemma_zeros(f, s);
    let w = flat(rows, k);
    let o = Seq::new(w.len(), |x: int| (q[x / k as int] * k + p[x % k as int]) as usize);
    lemma_places_perm(p, q, k, n);
    assert forall|x: int| 0 <= x < s.len() implies s[x] == w[o[x] as int] by {
        lemma_place(x, n as int, k as int);
        let i = x / k as int;
        let j = x % k as int;
        assert(q[i] < n && p[j] < k);
        lemma_cell(q[i] as int, p[j] as int, n as int, k as int);
    }
    assert(s =~= Seq::new(w.len(), |t: int| w[o[t] as int]));
    lemma_perm_multiset(w, o);
}

/// Orders of columns and rows give an order of the places of the matrix.
proof fn lemma_places_perm(p: Seq<usize>, q: Seq<usize>, k: nat, n: nat)
    requires
        orders(p, q, k, n),
        k > 0,
        n * k <= usize::MAX,
    ensures
        perm_of(Seq::new(n * k, |x: int| (q[x / k as int] * k + p[x % k as int]) as usize), 0, (n * k) as int),
{
    let o = Seq::new(n * k, |x: int| (q[x / k as int] * k + p[x % k as int]) as usize);
    let m = n as int;
    let l = k as int;
    assert forall|x: int| 0 <= x < n * k implies 0 <= #[trigger] o[x] < n * k && o[x] as int / l == q[x / l] && o[x] as int % l == p[x % l] by {
        lemma_place(x, m, l);
        assert(q[x / l] < n && p[x % l] < k);
        lemma_cell(q[x / l] as int, p[x % l] as int, m, l);
    }
    assert forall|x: int, y: int| 0 <= x < y < o.len() implies #[trigger] o[x] != #[trigger] o[y] by {
        lemma_place(x, m, l);
        lemma_place(y, m, l);
        if o[x] == o[y] {
            let (a, b) = (x / l, y / l);
            let (c, d) = (x % l, y % l);
            assert(q[a] == q[b] && p[c] == p[d]);
            assert(a == b) by {
                if a < b {
                    assert(q[a] != q[b]);
                } else if b < a {
                    assert(q[b] != q[a]);
                }
            }
            assert(c == d) by {
                if c < d {
                    assert(p[c] != p[d]);
                } else if d < c {
                    assert(p[d] != p[c]);
                }
            }
        }
    }
    assert forall|v: usize| 0 <= v < n * k implies #[trigger] o.contains(v) by {
        lemma_place(v as int, m, l);
        let i = v as int / l;
        let j = v as int % l;
        assert(q.contains(i as usize) && p.contains(j as usize));
        let a = choose|a: int| 0 <= a < q.len() && q[a] == i as usize;
        let b = choose|b: int| 0 <= b < p.len() && p[b] == j as usize;
        lemma_cell(a, b, m, l);
        assert(o[a * l + b] == v);
    }
}

} // verus!
