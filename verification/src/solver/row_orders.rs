//! The least relabelling of a matrix over all orders of its rows.
use vstd::prelude::*;

use crate::game::value_laws::{is_renaming, renamed};
use crate::solver::matrix::{
    all_len, flat, label_upto, lemma_cell, lemma_place, rank, relabel_flat, relabeled, seen,
};
use crate::solver::word_hash::word_views;
use crate::sorting::{bytes_le, lemma_lex_refl, lemma_lex_total, lemma_lex_trans, lex_le, perm_of};

verus! {

/// Some of the rows, in the order of the list.
pub open spec fn pick_rows(rows: Seq<Seq<u8>>, q: Seq<usize>) -> Seq<Seq<u8>> {
    Seq::new(q.len(), |t: int| rows[q[t] as int])
}

/// The listed rows laid end to end, with the letters renamed by first appearance.
pub open spec fn row_form(rows: Seq<Seq<u8>>, k: nat, q: Seq<usize>) -> Seq<u8> {
    relabeled(flat(pick_rows(rows, q), k))
}

/// `q` is an order of the `n` rows that starts with the given rows.
pub open spec fn goes_on(prefix: Seq<usize>, q: Seq<usize>, n: int) -> bool {
    perm_of(q, 0, n) && prefix.len() <= q.len() && q.take(prefix.len() as int) == prefix
}

/// `f` is the least form over the orders that start with the given rows.
pub open spec fn is_least_after(rows: Seq<Seq<u8>>, k: nat, prefix: Seq<usize>, f: Seq<u8>) -> bool {
    let n = rows.len() as int;
    &&& exists|q: Seq<usize>| #[trigger] goes_on(prefix, q, n) && row_form(rows, k, q) == f
    &&& forall|q: Seq<usize>| #[trigger] goes_on(prefix, q, n) ==> lex_le(f, row_form(rows, k, q))
}

/// `f` is the least form over all orders of the rows.
pub open spec fn is_least_rows(rows: Seq<Seq<u8>>, k: nat, f: Seq<u8>) -> bool {
    let n = rows.len() as int;
    &&& exists|q: Seq<usize>| #[trigger] perm_of(q, 0, n) && row_form(rows, k, q) == f
    &&& forall|q: Seq<usize>| #[trigger] perm_of(q, 0, n) ==> lex_le(f, row_form(rows, k, q))
}

/// The letters of all rows renamed.
pub open spec fn renamed_rows(rows: Seq<Seq<u8>>, h: spec_fn(u8) -> u8) -> Seq<Seq<u8>> {
    rows.map_values(|r: Seq<u8>| renamed(r, h))
}

/// Labels depend only on what stands before.
proof fn lemma_label_take(s: Seq<u8>, n: nat, m: nat, b: u8)
    requires
        n <= m <= s.len(),
    ensures
        rank(s.take(m as int), n) == rank(s, n),
        label_upto(s.take(m as int), n, b) == label_upto(s, n, b),
        seen(s.take(m as int), n as int, b) == seen(s, n as int, b),
    decreases n,
{
    let t = s.take(m as int);
    assert forall|c: u8, i: int| 0 <= i <= n implies seen(t, i, c) == #[trigger] seen(s, i, c) by {
        if seen(s, i, c) {
            let j = choose|j: int| 0 <= j < i && #[trigger] s[j] == c;
            assert(t[j] == c);
        }
        if seen(t, i, c) {
            let j = choose|j: int| 0 <= j < i && #[trigger] t[j] == c;
            assert(s[j] == c);
        }
    }
    if n > 0 {
        lemma_label_take(s, (n - 1) as nat, m, b);
        assert(seen(s, n - 1, s[n - 1]) == seen(t, n - 1, t[n - 1]));
        assert(seen(s, n - 1, b) == seen(t, n - 1, b));
    }
}

/// A byte keeps the label that it got when it first appeared.
pub proof fn lemma_label_stays(s: Seq<u8>, n: nat, m: nat, b: u8)
    requires
        n <= m,
        b == 0 || seen(s, n as int, b),
    ensures
        label_upto(s, m, b) == label_upto(s, n, b),
    decreases m,
{
    if n < m && b != 0 {
        lemma_label_stays(s, n, (m - 1) as nat, b);
        let j = choose|j: int| 0 <= j < n && #[trigger] s[j] == b;
        assert(seen(s, m - 1, b));
    }
}

/// Relabelling goes from left to right.
proof fn lemma_relabel_take(s: Seq<u8>, n: int)
    requires
        0 <= n <= s.len(),
    ensures
        relabeled(s).take(n) == relabeled(s.take(n)),
{
    assert forall|i: int| 0 <= i < n implies relabeled(s).take(n)[i] == relabeled(s.take(n))[i] by {
        let b = s[i];
        assert(s.take(n)[i] == b);
        assert(seen(s, n, b));
        lemma_label_stays(s, n as nat, s.len(), b);
        lemma_label_take(s, n as nat, n as nat, b);
    }
    assert(relabeled(s).take(n) =~= relabeled(s.take(n)));
}

/// The form of the first rows starts the form of all of them.
proof fn lemma_form_take(rows: Seq<Seq<u8>>, k: nat, q: Seq<usize>, t: int)
    requires
        0 <= t <= q.len(),
    ensures
        row_form(rows, k, q).len() == q.len() * k,
        row_form(rows, k, q.take(t)).len() == t * k,
        0 <= t * k <= q.len() * k,
        row_form(rows, k, q).take(t * k) == row_form(rows, k, q.take(t)),
{
    let s = flat(pick_rows(rows, q), k);
    assert(0 <= t * k <= q.len() * k) by (nonlinear_arith)
        requires
            0 <= t <= q.len(),
            0 <= k,
    ;
    let f = flat(pick_rows(rows, q.take(t)), k);
    assert forall|x: int| 0 <= x < t * k implies s.take(t * k)[x] == f[x] by {
        if k == 0 {
            assert(t * k == 0) by (nonlinear_arith)
                requires
                    k == 0,
            ;
        } else {
            lemma_place(x, t, k as int);
        }
    }
    assert(s.take(t * k) =~= f);
    lemma_relabel_take(s, t * k);
}

/// What decides between two beginnings decides between the whole.
proof fn lemma_lex_prefix(a: Seq<u8>, b: Seq<u8>, n: int)
    requires
        0 <= n <= a.len(),
        n <= b.len(),
        lex_le(a.take(n), b.take(n)),
        a.take(n) != b.take(n),
    ensures
        lex_le(a, b),
    decreases n,
{
    let x = a.take(n);
    let y = b.take(n);
    if n == 0 {
        assert(x =~= y);
    } else {
        assert(x[0] == a[0] && y[0] == b[0]);
        if a[0] == b[0] {
            assert(x.drop_first() =~= a.drop_first().take(n - 1));
            assert(y.drop_first() =~= b.drop_first().take(n - 1));
            if x.drop_first() == y.drop_first() {
                assert(x =~= seq![x[0]] + x.drop_first());
                assert(y =~= seq![y[0]] + y.drop_first());
            }
            lemma_lex_prefix(a.drop_first(), b.drop_first(), n - 1);
        }
    }
}

proof fn lemma_renamed_labels(s: Seq<u8>, h: spec_fn(u8) -> u8, n: nat, b: u8)
    requires
        is_renaming(h),
        n <= s.len(),
    ensures
        rank(renamed(s, h), n) == rank(s, n),
        label_upto(renamed(s, h), n, h(b)) == label_upto(s, n, b),
        seen(renamed(s, h), n as int, h(b)) == seen(s, n as int, b),
    decreases n,
{
    let r = renamed(s, h);
    assert(seen(r, n as int, h(b)) == seen(s, n as int, b)) by {
        if seen(s, n as int, b) {
            let j = choose|j: int| 0 <= j < n && #[trigger] s[j] == b;
            assert(r[j] == h(b));
        }
        if seen(r, n as int, h(b)) {
            let j = choose|j: int| 0 <= j < n && #[trigger] r[j] == h(b);
            assert(s[j] == b);
        }
    }
    if n > 0 {
        lemma_renamed_labels(s, h, (n - 1) as nat, b);
        lemma_renamed_labels(s, h, (n - 1) as nat, s[n - 1]);
        assert(r[n - 1] == h(s[n - 1]));
        assert(h(b) == 0 ==> b == 0);
        assert(h(s[n - 1]) == 0 ==> s[n - 1] == 0);
    }
}

pub proof fn lemma_renamed_relabel(s: Seq<u8>, h: spec_fn(u8) -> u8)
    requires
        is_renaming(h),
    ensures
        relabeled(renamed(s, h)) == relabeled(s),
{
    assert forall|i: int| 0 <= i < s.len() implies relabeled(renamed(s, h))[i] == relabeled(s)[i] by {
        lemma_renamed_labels(s, h, s.len(), s[i]);
    }
    assert(relabeled(renamed(s, h)) =~= relabeled(s));
}

pub proof fn lemma_renamed_flat(rows: Seq<Seq<u8>>, k: nat, h: spec_fn(u8) -> u8)
    requires
        all_len(rows, k),
        k > 0,
    ensures
        flat(renamed_rows(rows, h), k) == renamed(flat(rows, k), h),
{
    assert forall|x: int| 0 <= x < rows.len() * k implies flat(renamed_rows(rows, h), k)[x] == renamed(flat(rows, k), h)[x] by {
        lemma_place(x, rows.len() as int, k as int);
        assert(rows[x / k as int].len() == k);
    }
    assert(flat(renamed_rows(rows, h), k) =~= renamed(flat(rows, k), h));
}

/// Swapping two rows comes to the same as renaming letters: letters are equal in the
/// one where they are in the other, blanks face blanks, and a letter that faces
/// another one stands in no further row.
pub open spec fn twins(rows: Seq<Seq<u8>>, a: int, b: int, k: nat) -> bool {
    &&& forall|c: int, d: int| 0 <= c < k && 0 <= d < k ==> #[trigger] face_alike(rows[a], rows[b], c, d)
    &&& forall|i: int, e: int, c: int|
        0 <= i < rows.len() && i != a && i != b && 0 <= e < k && 0 <= c < k ==> #[trigger] untouched(rows[a], rows[b], c, rows[i][e])
}

/// What two places of two facing rows have in common.
pub open spec fn face_alike(x: Seq<u8>, y: Seq<u8>, c: int, d: int) -> bool {
    &&& (x[c] == x[d]) == (y[c] == y[d])
    &&& (x[c] == y[d]) == (y[c] == x[d])
    &&& (x[c] == 0) == (y[c] == 0)
}

/// The letter is not one of two different letters that face each other at a place.
pub open spec fn untouched(x: Seq<u8>, y: Seq<u8>, c: int, l: u8) -> bool {
    x[c] == y[c] || (x[c] != l && y[c] != l)
}

/// The name that a letter gets when two rows are swapped.
spec fn facing(x: Seq<u8>, y: Seq<u8>, l: u8) -> u8 {
    if exists|c: int| 0 <= c < x.len() && #[trigger] x[c] == l {
        y[choose|c: int| 0 <= c < x.len() && #[trigger] x[c] == l]
    } else if exists|c: int| 0 <= c < y.len() && #[trigger] y[c] == l {
        x[choose|c: int| 0 <= c < y.len() && #[trigger] y[c] == l]
    } else {
        l
    }
}

/// A list with two numbers swapped.
spec fn swapped(q: Seq<usize>, a: usize, b: usize) -> Seq<usize> {
    Seq::new(
        q.len(),
        |t: int|
            if q[t] == a {
                b
            } else if q[t] == b {
                a
            } else {
                q[t]
            },
    )
}

proof fn lemma_facing(rows: Seq<Seq<u8>>, a: int, b: int, k: nat)
    requires
        all_len(rows, k),
        0 <= a < rows.len(),
        0 <= b < rows.len(),
        twins(rows, a, b, k),
    ensures
        is_renaming(|l: u8| facing(rows[a], rows[b], l)),
        renamed(rows[a], |l: u8| facing(rows[a], rows[b], l)) == rows[b],
        renamed(rows[b], |l: u8| facing(rows[a], rows[b], l)) == rows[a],
        forall|i: int| 0 <= i < rows.len() && i != a && i != b ==> renamed(#[trigger] rows[i], |l: u8| facing(rows[a], rows[b], l)) == rows[i],
{
    let x = rows[a];
    let y = rows[b];
    let h = |l: u8| facing(x, y, l);
    assert(x.len() == k && y.len() == k);
    assert forall|c: int| 0 <= c < k implies facing(x, y, #[trigger] x[c]) == y[c] by {
        let d = choose|d: int| 0 <= d < x.len() && #[trigger] x[d] == x[c];
        assert(face_alike(x, y, c, d));
    }
    assert forall|c: int| 0 <= c < k implies facing(x, y, #[trigger] y[c]) == x[c] by {
        if exists|d: int| 0 <= d < x.len() && #[trigger] x[d] == y[c] {
            let d = choose|d: int| 0 <= d < x.len() && #[trigger] x[d] == y[c];
            assert(face_alike(x, y, d, c));
        } else {
            let d = choose|d: int| 0 <= d < y.len() && #[trigger] y[d] == y[c];
            assert(face_alike(x, y, c, d));
        }
    }
    assert forall|l: u8| facing(x, y, #[trigger] facing(x, y, l)) == l by {
        if exists|c: int| 0 <= c < x.len() && #[trigger] x[c] == l {
            let c = choose|c: int| 0 <= c < x.len() && #[trigger] x[c] == l;
            assert(facing(x, y, x[c]) == y[c]);
            assert(facing(x, y, y[c]) == x[c]);
        } else if exists|c: int| 0 <= c < y.len() && #[trigger] y[c] == l {
            let c = choose|c: int| 0 <= c < y.len() && #[trigger] y[c] == l;
            assert(facing(x, y, y[c]) == x[c]);
            assert(facing(x, y, x[c]) == y[c]);
        }
    }
    assert(facing(x, y, 0) == 0) by {
        if exists|c: int| 0 <= c < x.len() && #[trigger] x[c] == 0 {
            let c = choose|c: int| 0 <= c < x.len() && #[trigger] x[c] == 0;
            assert(face_alike(x, y, c, c));
        } else if exists|c: int| 0 <= c < y.len() && #[trigger] y[c] == 0 {
            let c = choose|c: int| 0 <= c < y.len() && #[trigger] y[c] == 0;
            assert(face_alike(x, y, c, c));
        }
    }
    assert forall|l: u8, m: u8| #[trigger] h(l) == #[trigger] h(m) implies l == m by {
        assert(facing(x, y, facing(x, y, l)) == l);
        assert(facing(x, y, facing(x, y, m)) == m);
    }
    assert(renamed(x, h) =~= y);
    assert(renamed(y, h) =~= x);
    assert forall|i: int| 0 <= i < rows.len() && i != a && i != b implies renamed(#[trigger] rows[i], h) == rows[i] by {
        assert forall|e: int| 0 <= e < k implies facing(x, y, #[trigger] rows[i][e]) == rows[i][e] by {
            let l = rows[i][e];
            if exists|c: int| 0 <= c < x.len() && #[trigger] x[c] == l {
                let c = choose|c: int| 0 <= c < x.len() && #[trigger] x[c] == l;
                assert(untouched(x, y, c, l));
            } else if exists|c: int| 0 <= c < y.len() && #[trigger] y[c] == l {
                let c = choose|c: int| 0 <= c < y.len() && #[trigger] y[c] == l;
                assert(untouched(x, y, c, l));
            }
        }
        assert(rows[i].len() == k);
        assert(renamed(rows[i], h) =~= rows[i]);
    }
}

/// Swapping twin rows in an order keeps the form.
proof fn lemma_twins_swap(rows: Seq<Seq<u8>>, k: nat, a: usize, b: usize, q: Seq<usize>)
    requires
        all_len(rows, k),
        k > 0,
        a < rows.len(),
        b < rows.len(),
        twins(rows, a as int, b as int, k),
        perm_of(q, 0, rows.len() as int),
    ensures
        perm_of(swapped(q, a, b), 0, rows.len() as int),
        row_form(rows, k, swapped(q, a, b)) == row_form(rows, k, q),
{
    let s = swapped(q, a, b);
    let n = rows.len() as int;
    let h = |l: u8| facing(rows[a as int], rows[b as int], l);
    lemma_facing(rows, a as int, b as int, k);
    assert forall|i: usize| 0 <= i < n implies #[trigger] s.contains(i) by {
        let from = if i == a {
            b
        } else if i == b {
            a
        } else {
            i
        };
        assert(q.contains(from));
        let t = choose|t: int| 0 <= t < q.len() && q[t] == from;
        assert(s[t] == i);
    }
    assert(perm_of(s, 0, n));
    let picked = pick_rows(rows, q);
    assert(all_len(picked, k)) by {
        assert forall|t: int| 0 <= t < picked.len() implies (#[trigger] picked[t]).len() == k by {
            assert(rows[q[t] as int].len() == k);
        }
    }
    assert(pick_rows(rows, s) =~= renamed_rows(picked, h)) by {
        assert forall|t: int| 0 <= t < q.len() implies pick_rows(rows, s)[t] == renamed_rows(picked, h)[t] by {
            assert(0 <= q[t] < n);
            assert(renamed_rows(picked, h)[t] == renamed(rows[q[t] as int], h));
        }
    }
    lemma_renamed_flat(picked, k, h);
    lemma_renamed_relabel(flat(picked, k), h);
}

/// Whether swapping two rows comes to the same as renaming letters.
fn are_twins(sigs: &Vec<Vec<u8>>, a: usize, b: usize, k: usize) -> (r: bool)
    requires
        all_len(word_views(sigs@), k as nat),
        a < sigs@.len(),
        b < sigs@.len(),
    ensures
        r == twins(word_views(sigs@), a as int, b as int, k as nat),
{
    let ghost rows = word_views(sigs@);
    let x = &sigs[a];
    let y = &sigs[b];
    assert(rows[a as int] == x@ && rows[b as int] == y@);
    let mut c: usize = 0;
    while c < k
        invariant
            c <= k,
            rows == word_views(sigs@),
            x@.len() == k,
            y@.len() == k,
            rows[a as int] == x@,
            rows[b as int] == y@,
            forall|s: int, d: int| 0 <= s < c && 0 <= d < k ==> #[trigger] face_alike(rows[a as int], rows[b as int], s, d),
        decreases k - c,
    {
        let mut d: usize = 0;
        while d < k
            invariant
                c < k,
                d <= k,
                rows == word_views(sigs@),
                x@.len() == k,
                y@.len() == k,
                rows[a as int] == x@,
                rows[b as int] == y@,
                forall|e: int| 0 <= e < d ==> #[trigger] face_alike(rows[a as int], rows[b as int], c as int, e),
            decreases k - d,
        {
            let alike: bool = (x[c] == x[d]) == (y[c] == y[d]) && (x[c] == y[d]) == (y[c] == x[d]) && (x[c] == 0) == (y[c] == 0);
            assert(alike == face_alike(rows[a as int], rows[b as int], c as int, d as int));
            if !alike {
                return false;
            }
            d += 1;
        }
        c += 1;
    }
    let mut i: usize = 0;
    while i < sigs.len()
        invariant
            i <= sigs@.len(),
            rows == word_views(sigs@),
            all_len(rows, k as nat),
            x@.len() == k,
            y@.len() == k,
            rows[a as int] == x@,
            rows[b as int] == y@,
            forall|s: int, e: int, c: int|
                0 <= s < i && s != a && s != b && 0 <= e < k && 0 <= c < k ==> #[trigger] untouched(
                    rows[a as int],
                    rows[b as int],
                    c,
                    rows[s][e],
                ),
        decreases sigs@.len() - i,
    {
        if i != a && i != b {
            let row = &sigs[i];
            assert(rows[i as int] == row@);
            let mut e: usize = 0;
            while e < k
                invariant
                    i < sigs@.len(),
                    i != a,
                    i != b,
                    e <= k,
                    rows == word_views(sigs@),
                    rows[i as int] == row@,
                    row@.len() == k,
                    x@.len() == k,
                    y@.len() == k,
                    rows[a as int] == x@,
                    rows[b as int] == y@,
                    forall|f: int, c: int|
                        0 <= f < e && 0 <= c < k ==> #[trigger] untouched(rows[a as int], rows[b as int], c, rows[i as int][f]),
                decreases k - e,
            {
                let mut c: usize = 0;
                while c < k
                    invariant
                        i < sigs@.len(),
                        i != a,
                        i != b,
                        e < k,
                        c <= k,
                        rows == word_views(sigs@),
                        rows[i as int] == row@,
                        row@.len() == k,
                        x@.len() == k,
                        y@.len() == k,
                        rows[a as int] == x@,
                        rows[b as int] == y@,
                        forall|d: int|
                            0 <= d < c ==> #[trigger] untouched(rows[a as int], rows[b as int], d, rows[i as int][e as int]),
                    decreases k - c,
                {
                    let free: bool = x[c] == y[c] || (x[c] != row[e] && y[c] != row[e]);
                    assert(free == untouched(rows[a as int], rows[b as int], c as int, rows[i as int][e as int]));
                    if !free {
                        return false;
                    }
                    c += 1;
                }
                e += 1;
            }
        }
        i += 1;
    }
    true
}

/// The nearest twin of row `i` above it, or the row itself where there is none.
pub open spec fn is_twin_above(rows: Seq<Seq<u8>>, k: nat, i: int, j: int) -> bool {
    &&& 0 <= j <= i
    &&& j < i ==> twins(rows, j, i, k)
    &&& forall|s: int| j < s < i ==> !#[trigger] twins(rows, s, i, k)
    &&& j == i ==> forall|s: int| 0 <= s < i ==> !#[trigger] twins(rows, s, i, k)
}

/// For each row a twin above it, or the row itself.
pub open spec fn lists_twins(rows: Seq<Seq<u8>>, k: nat, twin: Seq<usize>) -> bool {
    twin.len() == rows.len() && forall|i: int|
        0 <= i < twin.len() ==> #[trigger] twin[i] <= i && (twin[i] < i ==> twins(rows, twin[i] as int, i, k))
}

/// For each row its nearest twin above.
pub(crate) fn twins_above(sigs: &Vec<Vec<u8>>, k: usize) -> (r: Vec<usize>)
    requires
        all_len(word_views(sigs@), k as nat),
    ensures
        r@.len() == sigs@.len(),
        forall|i: int| 0 <= i < r@.len() ==> is_twin_above(word_views(sigs@), k as nat, i, #[trigger] r@[i] as int),
{
    let ghost rows = word_views(sigs@);
    let mut r: Vec<usize> = Vec::new();
    let mut i: usize = 0;
    while i < sigs.len()
        invariant
            i <= sigs@.len(),
            rows == word_views(sigs@),
            all_len(rows, k as nat),
            r@.len() == i,
            forall|s: int| 0 <= s < i ==> is_twin_above(rows, k as nat, s, #[trigger] r@[s] as int),
        decreases sigs@.len() - i,
    {
        let mut j: usize = i;
        let mut at: usize = i;
        while j > 0 && at == i
            invariant
                j <= i,
                i < sigs@.len(),
                rows == word_views(sigs@),
                all_len(rows, k as nat),
                at == i || at == j,
                at <= i,
                at < i ==> twins(rows, at as int, i as int, k as nat),
                at == i ==> forall|s: int| j <= s < i ==> !#[trigger] twins(rows, s, i as int, k as nat),
                at < i ==> forall|s: int| at < s < i ==> !#[trigger] twins(rows, s, i as int, k as nat),
            decreases j,
        {
            j -= 1;
            if are_twins(sigs, j, i, k) {
                at = j;
            }
        }
        r.push(at);
        i += 1;
    }
    r
}

/// The form of the listed rows.
fn form_of_rows(sigs: &Vec<Vec<u8>>, k: usize, list: &Vec<usize>) -> (r: Vec<u8>)
    requires
        all_len(word_views(sigs@), k as nat),
        forall|t: int| 0 <= t < list@.len() ==> #[trigger] list@[t] < sigs@.len(),
        k > 0,
    ensures
        r@ == row_form(word_views(sigs@), k as nat, list@),
{
    let ghost rows = word_views(sigs@);
    let ghost picked = pick_rows(rows, list@);
    let mut buf: Vec<u8> = Vec::new();
    let mut i: usize = 0;
    while i < list.len()
        invariant
            i <= list@.len(),
            rows == word_views(sigs@),
            picked == pick_rows(rows, list@),
            all_len(rows, k as nat),
            forall|t: int| 0 <= t < list@.len() ==> #[trigger] list@[t] < sigs@.len(),
            k > 0,
            buf@ == flat(picked.take(i as int), k as nat),
            buf@.len() == i * k,
        decreases list@.len() - i,
    {
        let row = &sigs[list[i]];
        assert(rows[list@[i as int] as int] == row@);
        assert(row@.len() == k);
        let ghost start = buf@;
        let mut j: usize = 0;
        while j < k
            invariant
                j <= k,
                row@.len() == k,
                buf@ == start + row@.take(j as int),
            decreases k - j,
        {
            buf.push(row[j]);
            assert(row@.take(j + 1) =~= row@.take(j as int).push(row@[j as int]));
            assert(buf@ =~= start + row@.take(j + 1));
            j += 1;
        }
        proof {
            assert(row@.take(k as int) =~= row@);
            lemma_flat_push(picked.take(i as int), row@, k as nat);
            assert(picked.take(i + 1) =~= picked.take(i as int).push(row@));
            assert((i + 1) * k == i * k + k) by (nonlinear_arith);
        }
        i += 1;
    }
    assert(picked.take(i as int) =~= picked);
    relabel_flat(&mut buf);
    buf
}

/// Laying one more row at the end.
proof fn lemma_flat_push(rows: Seq<Seq<u8>>, row: Seq<u8>, k: nat)
    requires
        row.len() == k,
        k > 0,
    ensures
        flat(rows.push(row), k) == flat(rows, k) + row,
{
    let m = rows.len() as int;
    let a = flat(rows.push(row), k);
    let b = flat(rows, k) + row;
    assert((m + 1) * k == m * k + k) by (nonlinear_arith);
    assert forall|x: int| 0 <= x < a.len() implies a[x] == b[x] by {
        if x < m * k {
            lemma_place(x, m, k as int);
        } else {
            lemma_cell(m, x - m * k, m + 1, k as int);
        }
    }
    assert(a =~= b);
}

/// Whether the list holds the number.
fn lists(list: &Vec<usize>, x: usize) -> (r: bool)
    ensures
        r == list@.contains(x),
{
    let mut i: usize = 0;
    while i < list.len()
        invariant
            i <= list@.len(),
            forall|t: int| 0 <= t < i ==> list@[t] != x,
        decreases list@.len() - i,
    {
        if list[i] == x {
            return true;
        }
        i += 1;
    }
    false
}

/// The list with one more number.
fn longer(list: &Vec<usize>, x: usize) -> (r: Vec<usize>)
    ensures
        r@ == list@.push(x),
{
    let mut r: Vec<usize> = Vec::new();
    let mut i: usize = 0;
    while i < list.len()
        invariant
            i <= list@.len(),
            r@ == list@.take(i as int),
        decreases list@.len() - i,
    {
        r.push(list[i]);
        i += 1;
        assert(list@.take(i as int) =~= list@.take(i - 1).push(list@[i - 1]));
    }
    assert(list@.take(i as int) =~= list@);
    r.push(x);
    r
}

/// Different numbers below `n`.
pub open spec fn some_rows(list: Seq<usize>, n: int) -> bool {
    &&& forall|t: int| 0 <= t < list.len() ==> 0 <= #[trigger] list[t] < n
    &&& list.no_duplicates()
}

/// Different numbers below `n` are at most `n`, and where they are fewer one is left.
proof fn lemma_some_left(list: Seq<usize>, n: int)
    requires
        some_rows(list, n),
        0 <= n <= usize::MAX,
    ensures
        list.len() <= n,
        list.len() < n ==> exists|r: usize| r < n && !#[trigger] list.contains(r),
        list.len() == n ==> perm_of(list, 0, n),
{
    let all = Set::<usize>::new(|x: usize| 0 <= x < n);
    let ids = Seq::new(n as nat, |i: int| i as usize);
    assert(ids.no_duplicates());
    ids.unique_seq_to_set();
    assert(ids.to_set() =~= all) by {
        assert forall|x: usize| all.contains(x) implies ids.to_set().contains(x) by {
            assert(ids[x as int] == x);
        }
    }
    list.unique_seq_to_set();
    assert(list.to_set().subset_of(all)) by {
        assert forall|x: usize| list.to_set().contains(x) implies all.contains(x) by {
            let t = choose|t: int| 0 <= t < list.len() && list[t] == x;
            assert(list[t] < n);
        }
    }
    vstd::set_lib::lemma_len_subset(list.to_set(), all);
    if forall|r: usize| r < n ==> list.contains(r) {
        assert(list.to_set() =~= all);
    }
    if list.len() == n {
        vstd::set_lib::lemma_subset_equality(list.to_set(), all);
        assert forall|i: usize| 0 <= i < n implies #[trigger] list.contains(i) by {
            assert(all.contains(i));
            assert(list.to_set().contains(i));
        }
        assert forall|t: int, u: int| 0 <= t < u < list.len() implies #[trigger] list[t] != #[trigger] list[u] by {}
    }
}

/// An order that starts with the prefix goes on with a row that is not in it.
proof fn lemma_next_row(prefix: Seq<usize>, q: Seq<usize>, n: int)
    requires
        goes_on(prefix, q, n),
        prefix.len() < n,
    ensures
        q[prefix.len() as int] < n,
        !prefix.contains(q[prefix.len() as int]),
        goes_on(prefix.push(q[prefix.len() as int]), q, n),
{
    let t = prefix.len() as int;
    if prefix.contains(q[t]) {
        let u = choose|u: int| 0 <= u < prefix.len() && prefix[u] == q[t];
        assert(q.take(t)[u] == q[u]);
        assert(q[u] != q[t]);
    }
    assert(q.take(t + 1) =~= q.take(t).push(q[t]));
}

proof fn lemma_goes_on_less(prefix: Seq<usize>, r: usize, q: Seq<usize>, n: int)
    requires
        goes_on(prefix.push(r), q, n),
    ensures
        goes_on(prefix, q, n),
        q[prefix.len() as int] == r,
{
    let t = prefix.len() as int;
    let p = prefix.push(r);
    assert(q.take(t) =~= p.take(t));
    assert(p.take(t) =~= prefix);
    assert(q.take(t + 1)[t] == p[t]);
}

/// An order that goes on with a row has the form of one that goes on with its twin.
proof fn lemma_skip_twin(rows: Seq<Seq<u8>>, k: nat, p: Seq<usize>, q: Seq<usize>, a: usize, b: usize)
    requires
        all_len(rows, k),
        k > 0,
        a < b < rows.len(),
        twins(rows, a as int, b as int, k),
        goes_on(p, q, rows.len() as int),
        p.len() < rows.len(),
        q[p.len() as int] == b,
        !p.contains(a),
    ensures
        goes_on(p, swapped(q, a, b), rows.len() as int),
        swapped(q, a, b)[p.len() as int] == a,
        row_form(rows, k, swapped(q, a, b)) == row_form(rows, k, q),
        row_form(rows, k, p.push(a)) == row_form(rows, k, p.push(b)),
{
    let n = rows.len() as int;
    let t = p.len() as int;
    let s = swapped(q, a, b);
    lemma_twins_swap(rows, k, a, b, q);
    lemma_next_row(p, q, n);
    assert(s.take(t) =~= p) by {
        assert forall|u: int| 0 <= u < t implies s[u] == p[u] by {
            assert(q.take(t)[u] == q[u]);
            assert(p.contains(p[u]));
        }
    }
    assert(goes_on(p, s, n));
    lemma_next_row(p, s, n);
    assert(s.take(t + 1) =~= p.push(a));
    assert(q.take(t + 1) =~= p.push(b));
    lemma_form_take(rows, k, q, t + 1);
    lemma_form_take(rows, k, s, t + 1);
}

/// Any different rows can be gone on with to an order of all rows.
proof fn lemma_some_order(p: Seq<usize>, r: usize, n: int) -> (q: Seq<usize>)
    requires
        some_rows(p, n),
        n <= usize::MAX,
        r < n,
        !p.contains(r),
    ensures
        goes_on(p, q, n),
        q[p.len() as int] == r,
    decreases n - p.len(),
{
    let next = p.push(r);
    assert(some_rows(next, n)) by {
        assert forall|u: int| 0 <= u < next.len() implies 0 <= #[trigger] next[u] < n by {
            if u < p.len() {
                assert(p[u] < n);
            }
        }
        assert forall|a: int, b: int| 0 <= a < next.len() && 0 <= b < next.len() && a != b implies next[a] != next[b] by {
            if a < p.len() && b < p.len() {
                assert(p[a] != p[b]);
            }
        }
    }
    lemma_some_left(next, n);
    if next.len() == n {
        assert(next.take(p.len() as int) =~= p);
        next
    } else {
        let x = choose|x: usize| x < n && !#[trigger] next.contains(x);
        let q = lemma_some_order(next, x, n);
        lemma_goes_on_less(p, r, q, n);
        q
    }
}

/// The least form that one more row can lead to.
fn least_step(sigs: &Vec<Vec<u8>>, k: usize, prefix: &Vec<usize>) -> (m: Vec<u8>)
    requires
        all_len(word_views(sigs@), k as nat),
        k > 0,
        some_rows(prefix@, sigs@.len() as int),
        prefix@.len() < sigs@.len(),
    ensures
        exists|r: usize| r < sigs@.len() && !#[trigger] prefix@.contains(r) && row_form(word_views(sigs@), k as nat, prefix@.push(r)) == m@,
        forall|r: usize|
            r < sigs@.len() && !#[trigger] prefix@.contains(r) ==> lex_le(m@, row_form(word_views(sigs@), k as nat, prefix@.push(r))),
{
    let ghost rows = word_views(sigs@);
    let n: usize = sigs.len();
    let mut best: Option<Vec<u8>> = None;
    let mut r: usize = 0;
    while r < n
        invariant
            r <= n,
            n == sigs@.len(),
            rows == word_views(sigs@),
            all_len(rows, k as nat),
            k > 0,
            some_rows(prefix@, n as int),
            match best {
                None => forall|x: usize| x < r ==> #[trigger] prefix@.contains(x),
                Some(b) => {
                    &&& exists|x: usize| x < r && !#[trigger] prefix@.contains(x) && row_form(rows, k as nat, prefix@.push(x)) == b@
                    &&& forall|x: usize| x < r && !#[trigger] prefix@.contains(x) ==> lex_le(b@, row_form(rows, k as nat, prefix@.push(x)))
                },
            },
        decreases n - r,
    {
        if !lists(prefix, r) {
            let list = longer(prefix, r);
            assert forall|t: int| 0 <= t < list@.len() implies #[trigger] list@[t] < sigs@.len() by {
                if t < prefix@.len() {
                    assert(prefix@[t] < n);
                }
            }
            let part = form_of_rows(sigs, k, &list);
            let ghost before = best;
            let better: bool = match &best {
                None => true,
                Some(b) => !bytes_le(b.as_slice(), part.as_slice()),
            };
            proof {
                lemma_lex_refl(part@);
                if let Some(b) = before {
                    lemma_lex_total(b@, part@);
                    assert forall|x: usize| x < r && !#[trigger] prefix@.contains(x) && better implies lex_le(
                        part@,
                        row_form(rows, k as nat, prefix@.push(x)),
                    ) by {
                        lemma_lex_trans(part@, b@, row_form(rows, k as nat, prefix@.push(x)));
                    }
                }
            }
            if better {
                best = Some(part);
            }
            assert(!prefix@.contains(r));
        }
        r += 1;
    }
    proof {
        lemma_some_left(prefix@, n as int);
    }
    match best {
        Some(b) => b,
        None => {
            assert(false);
            Vec::new()
        },
    }
}

/// The least form over the orders that start with the given rows: only rows that lead
/// to the least beginning are followed, and of twins only the first that is left.
fn least_after(sigs: &Vec<Vec<u8>>, k: usize, twin: &Vec<usize>, prefix: &Vec<usize>) -> (f: Vec<u8>)
    requires
        lists_twins(word_views(sigs@), k as nat, twin@),
        all_len(word_views(sigs@), k as nat),
        k > 0,
        some_rows(prefix@, sigs@.len() as int),
    ensures
        is_least_after(word_views(sigs@), k as nat, prefix@, f@),
    decreases sigs@.len() - prefix@.len(),
{
    let ghost rows = word_views(sigs@);
    let n: usize = sigs.len();
    let ghost p = prefix@;
    proof {
        lemma_some_left(p, n as int);
    }
    if prefix.len() == n {
        let f = form_of_rows(sigs, k, prefix);
        proof {
            assert(p.take(n as int) =~= p);
            assert(goes_on(p, p, n as int) && row_form(rows, k as nat, p) == f@);
            assert forall|q: Seq<usize>| #[trigger] goes_on(p, q, n as int) implies lex_le(f@, row_form(rows, k as nat, q)) by {
                assert(q.take(n as int) =~= q);
                assert(q == p);
                lemma_lex_refl(f@);
            }
            assert(rows.len() == n);
            assert(is_least_after(rows, k as nat, p, f@));
        }
        return f;
    }
    let least = least_step(sigs, k, prefix);
    let ghost t = p.len() as int;
    let ghost m = least@;
    let mut best: Option<Vec<u8>> = None;
    let mut r: usize = 0;
    while r < n
        invariant
            r <= n,
            n == sigs@.len(),
            rows == word_views(sigs@),
            all_len(rows, k as nat),
            k > 0,
            p == prefix@,
            t == p.len(),
            t < n,
            some_rows(p, n as int),
            lists_twins(rows, k as nat, twin@),
            m == least@,
            forall|x: usize| x < n && !#[trigger] p.contains(x) ==> lex_le(m, row_form(rows, k as nat, p.push(x))),
            match best {
                None => forall|x: usize| x < r && !#[trigger] p.contains(x) ==> row_form(rows, k as nat, p.push(x)) != m,
                Some(b) => {
                    &&& exists|q: Seq<usize>| #[trigger] goes_on(p, q, n as int) && row_form(rows, k as nat, q) == b@ && row_form(
                        rows,
                        k as nat,
                        p.push(q[t]),
                    ) == m
                    &&& forall|q: Seq<usize>| #[trigger]
                        goes_on(p, q, n as int) && q[t] < r && row_form(rows, k as nat, p.push(q[t])) == m ==> lex_le(
                            b@,
                            row_form(rows, k as nat, q),
                        )
                },
            },
        decreases n - r,
    {
        let above: usize = twin[r];
        if above < r && !lists(prefix, above) {
            proof {
                assert forall|q: Seq<usize>| #[trigger] goes_on(p, q, n as int) && q[t] == r implies goes_on(
                    p,
                    swapped(q, above, r),
                    n as int,
                ) && swapped(q, above, r)[t] == above && row_form(rows, k as nat, swapped(q, above, r)) == row_form(rows, k as nat, q)
                    && row_form(rows, k as nat, p.push(above)) == row_form(rows, k as nat, p.push(r)) by {
                    lemma_skip_twin(rows, k as nat, p, q, above, r);
                }
                assert forall|q: Seq<usize>| #[trigger]
                    goes_on(p, q, n as int) && q[t] < r + 1 && row_form(rows, k as nat, p.push(q[t])) == m && best is Some implies lex_le(
                    best->0@,
                    row_form(rows, k as nat, q),
                ) by {
                    if q[t] == r {
                        assert(goes_on(p, swapped(q, above, r), n as int));
                    }
                }
                if best is None && !p.contains(r) && row_form(rows, k as nat, p.push(r)) == m {
                    let q = lemma_some_order(p, r, n as int);
                    assert(goes_on(p, q, n as int) && q[t] == r);
                    assert(!p.contains(above));
                }
            }
        } else if !lists(prefix, r) {
            let list = longer(prefix, r);
            proof {
                assert forall|u: int| 0 <= u < list@.len() implies 0 <= #[trigger] list@[u] < n by {
                    if u < p.len() {
                        assert(p[u] < n);
                    }
                }
                assert(list@.no_duplicates()) by {
                    assert forall|a: int, b: int| 0 <= a < list@.len() && 0 <= b < list@.len() && a != b implies list@[a] != list@[b] by {
                        if a < p.len() && b < p.len() {
                            assert(p[a] != p[b]);
                        }
                    }
                }
            }
            let part = form_of_rows(sigs, k, &list);
            if bytes_le(part.as_slice(), least.as_slice()) {
                proof {
                    lemma_lex_total(part@, m);
                }
                let f = least_after(sigs, k, twin, &list);
                let ghost before = best;
                let better: bool = match &best {
                    None => true,
                    Some(b) => !bytes_le(b.as_slice(), f.as_slice()),
                };
                proof {
                    let q0 = choose|q: Seq<usize>| #[trigger] goes_on(list@, q, n as int) && row_form(rows, k as nat, q) == f@;
                    lemma_goes_on_less(p, r, q0, n as int);
                    assert(goes_on(p, q0, n as int));
                    if let Some(b) = before {
                        lemma_lex_total(b@, f@);
                    }
                    assert forall|q: Seq<usize>| #[trigger] goes_on(p, q, n as int) && q[t] < r + 1 && row_form(rows, k as nat, p.push(q[t])) == m implies lex_le(
                        if better {
                            f@
                        } else {
                            before->0@
                        },
                        row_form(rows, k as nat, q),
                    ) by {
                        lemma_next_row(p, q, n as int);
                        if q[t] == r {
                            assert(goes_on(list@, q, n as int));
                            assert(lex_le(f@, row_form(rows, k as nat, q)));
                            if !better {
                                lemma_lex_trans(before->0@, f@, row_form(rows, k as nat, q));
                            }
                        } else {
                            if before is None {
                                assert(!p.contains(q[t]));
                            } else if better {
                                lemma_lex_trans(f@, before->0@, row_form(rows, k as nat, q));
                            }
                        }
                    }
                }
                if better {
                    best = Some(f);
                }
            } else {
                proof {
                    lemma_lex_refl(m);
                    assert(part@ != m);
                    assert forall|q: Seq<usize>| #[trigger] goes_on(p, q, n as int) && q[t] < r + 1 && row_form(rows, k as nat, p.push(q[t])) == m implies q[t] < r by {}
                }
            }
        } else {
            proof {
                assert forall|q: Seq<usize>| #[trigger] goes_on(p, q, n as int) && q[t] < r + 1 implies q[t] < r by {
                    lemma_next_row(p, q, n as int);
                }
            }
        }
        r += 1;
    }
    match best {
        Some(b) => {
            proof {
                let q0 = choose|q: Seq<usize>| #[trigger] goes_on(p, q, n as int) && row_form(rows, k as nat, q) == b@ && row_form(
                    rows,
                    k as nat,
                    p.push(q[t]),
                ) == m;
                lemma_next_row(p, q0, n as int);
                lemma_form_take(rows, k as nat, q0, t + 1);
                assert(q0.take(t + 1) == p.push(q0[t]));
                assert forall|q: Seq<usize>| #[trigger] goes_on(p, q, n as int) implies lex_le(b@, row_form(rows, k as nat, q)) by {
                    lemma_next_row(p, q, n as int);
                    lemma_form_take(rows, k as nat, q, t + 1);
                    assert(q.take(t + 1) == p.push(q[t]));
                    let part = row_form(rows, k as nat, p.push(q[t]));
                    if part != m {
                        assert(lex_le(m, part));
                        lemma_lex_prefix(b@, row_form(rows, k as nat, q), (t + 1) * k);
                    }
                }
            }
            b
        },
        None => {
            assert(false);
            Vec::new()
        },
    }
}

/// The least form over all orders of the rows, of which some twins are known.
pub(crate) fn least_rows(sigs: &Vec<Vec<u8>>, k: usize, twin: &Vec<usize>) -> (f: Vec<u8>)
    requires
        all_len(word_views(sigs@), k as nat),
        k > 0,
        lists_twins(word_views(sigs@), k as nat, twin@),
    ensures
        is_least_rows(word_views(sigs@), k as nat, f@),
        f@.len() == sigs@.len() * k,
{
    let none: Vec<usize> = Vec::new();
    let f = least_after(sigs, k, twin, &none);
    proof {
        let rows = word_views(sigs@);
        let n = rows.len() as int;
        assert forall|q: Seq<usize>| #[trigger] perm_of(q, 0, n) implies goes_on(none@, q, n) by {
            assert(q.take(0) =~= none@);
        }
        let q = choose|q: Seq<usize>| #[trigger] goes_on(none@, q, n) && row_form(rows, k as nat, q) == f@;
        assert(perm_of(q, 0, n) && row_form(rows, k as nat, q) == f@);
        assert forall|q: Seq<usize>| #[trigger] perm_of(q, 0, n) implies lex_le(f@, row_form(rows, k as nat, q)) by {
            assert(goes_on(none@, q, n));
        }
    }
    f
}

} // verus!
