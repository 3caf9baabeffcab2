//! Row-major byte matrices: rows, columns and the relabelling of letters.
use vstd::arithmetic::div_mod::{lemma_fundamental_div_mod, lemma_fundamental_div_mod_converse};
use vstd::prelude::*;

verus! {

/// The rows of an `m` by `k` matrix kept row by row in `buf`.
pub open spec fn to_rows(buf: Seq<u8>, m: nat, k: nat) -> Seq<Seq<u8>> {
    Seq::new(m, |i: int| Seq::new(k, |j: int| buf[i * k + j]))
}

/// The rows, each of length `k`, laid end to end.
pub open spec fn flat(rows: Seq<Seq<u8>>, k: nat) -> Seq<u8> {
    Seq::new((rows.len() * k) as nat, |p: int| rows[p / k as int][p % k as int])
}

/// Every row has length `k`.
pub open spec fn all_len(rows: Seq<Seq<u8>>, k: nat) -> bool {
    forall|i: int| 0 <= i < rows.len() ==> (#[trigger] rows[i]).len() == k
}

/// A cell lies inside the matrix.
pub proof fn lemma_cell(i: int, j: int, m: int, k: int)
    requires
        0 <= i < m,
        0 <= j < k,
    ensures
        0 <= i * k + j < m * k,
        (i * k + j) / k == i,
        (i * k + j) % k == j,
        (i + 1) * k == i * k + k,
        (i + 1) * k <= m * k,
{
    assert(i * k + j < m * k) by (nonlinear_arith)
        requires
            0 <= i < m,
            0 <= j < k,
    ;
    assert(0 <= i * k) by (nonlinear_arith)
        requires
            0 <= i,
            0 < k,
    ;
    assert((i + 1) * k == i * k + k) by (nonlinear_arith);
    assert((i + 1) * k <= m * k) by (nonlinear_arith)
        requires
            0 <= i < m,
            0 < k,
    ;
    lemma_fundamental_div_mod_converse(i * k + j, k, i, j);
}

/// A place in the buffer belongs to a cell.
pub proof fn lemma_place(p: int, m: int, k: int)
    requires
        0 <= p < m * k,
        k > 0,
    ensures
        0 <= p / k < m,
        0 <= p % k < k,
        (p / k) * k + p % k == p,
{
    lemma_fundamental_div_mod(p, k);
    assert(0 <= p % k < k);
    assert(k * (p / k) == (p / k) * k) by (nonlinear_arith);
    assert(p / k < m) by (nonlinear_arith)
        requires
            p < m * k,
            k > 0,
            k * (p / k) + p % k == p,
            0 <= p % k,
    ;
    assert(p / k >= 0) by (nonlinear_arith)
        requires
            p >= 0,
            k > 0,
            k * (p / k) + p % k == p,
            p % k < k,
    ;
}

/// Flattening and cutting into rows undo each other.
pub proof fn lemma_rows_flat(rows: Seq<Seq<u8>>, k: nat)
    requires
        all_len(rows, k),
    ensures
        to_rows(flat(rows, k), rows.len(), k) == rows,
        flat(rows, k).len() == rows.len() * k,
        forall|i: int, j: int|
            0 <= i < rows.len() && 0 <= j < k ==> flat(rows, k)[i * k + j] == #[trigger] rows[i][j],
{
    assert forall|i: int, j: int| 0 <= i < rows.len() && 0 <= j < k implies flat(rows, k)[i * k + j]
        == #[trigger] rows[i][j] by {
        lemma_cell(i, j, rows.len() as int, k as int);
    }
    assert forall|i: int| 0 <= i < rows.len() implies to_rows(flat(rows, k), rows.len(), k)[i]
        == rows[i] by {
        assert(to_rows(flat(rows, k), rows.len(), k)[i] =~= rows[i]);
    }
    assert(to_rows(flat(rows, k), rows.len(), k) =~= rows);
}

pub proof fn lemma_flat_rows(buf: Seq<u8>, m: nat, k: nat)
    requires
        buf.len() == m * k,
    ensures
        flat(to_rows(buf, m, k), k) == buf,
        all_len(to_rows(buf, m, k), k),
{
    let rows = to_rows(buf, m, k);
    assert forall|p: int| 0 <= p < buf.len() implies flat(rows, k)[p] == buf[p] by {
        if k == 0 {
            assert(m * k == 0) by (nonlinear_arith)
                requires
                    k == 0,
            ;
        } else {
            lemma_place(p, m as int, k as int);
        }
    }
    assert(flat(rows, k) =~= buf);
}

/// The rows depend only on the start of the buffer.
pub proof fn lemma_rows_take(a: Seq<u8>, b: Seq<u8>, m: nat, k: nat)
    requires
        a.len() == m * k,
        b.len() >= m * k,
        b.take((m * k) as int) == a,
    ensures
        to_rows(a, m, k) == to_rows(b, m, k),
{
    assert forall|i: int| 0 <= i < m implies to_rows(a, m, k)[i] == to_rows(b, m, k)[i] by {
        assert forall|j: int| 0 <= j < k implies to_rows(a, m, k)[i][j] == to_rows(b, m, k)[i][j] by {
            lemma_cell(i, j, m as int, k as int);
            assert(b.take((m * k) as int)[i * k + j] == a[i * k + j]);
        }
        assert(to_rows(a, m, k)[i] =~= to_rows(b, m, k)[i]);
    }
    assert(to_rows(a, m, k) =~= to_rows(b, m, k));
}

/// Reads one cell of a matrix with `m` rows of length `k`.
pub fn cell_at(buf: &Vec<u8>, i: usize, j: usize, Ghost(m): Ghost<nat>, k: usize) -> (b: u8)
    requires
        i < m,
        j < k,
        buf@.len() >= m * k,
    ensures
        b == to_rows(buf@, m, k as nat)[i as int][j as int],
        b == buf@[i * k + j],
{
    let len: usize = buf.len();
    proof {
        lemma_cell(i as int, j as int, m as int, k as int);
        assert(0 <= i * k) by (nonlinear_arith);
        assert(i * k + j < len);
    }
    buf[i * k + j]
}

/// Some byte among the first `n` equals `b`.
pub open spec fn seen(s: Seq<u8>, n: int, b: u8) -> bool {
    exists|j: int| 0 <= j < n && #[trigger] s[j] == b
}

/// The number of distinct nonzero bytes among the first `n`.
pub open spec fn rank(s: Seq<u8>, n: nat) -> nat
    decreases n,
{
    if n == 0 {
        0
    } else if s[n - 1] != 0 && !seen(s, n - 1, s[n - 1]) {
        rank(s, (n - 1) as nat) + 1
    } else {
        rank(s, (n - 1) as nat)
    }
}

/// The label of byte `b` by order of first appearance among the first `n`
/// bytes; zero where it does not appear. The byte zero keeps label zero.
pub open spec fn label_upto(s: Seq<u8>, n: nat, b: u8) -> nat
    decreases n,
{
    if n == 0 || b == 0 {
        0
    } else if seen(s, n - 1, b) {
        label_upto(s, (n - 1) as nat, b)
    } else if s[n - 1] == b {
        rank(s, n)
    } else {
        0
    }
}

/// The label of byte `b` in `s`: its place in the order in which the nonzero
/// bytes first appear, counted from one.
pub open spec fn label(s: Seq<u8>, b: u8) -> u8 {
    label_upto(s, s.len(), b) as u8
}

/// Every nonzero byte replaced by its label.
pub open spec fn relabeled(s: Seq<u8>) -> Seq<u8> {
    Seq::new(s.len(), |i: int| label(s, s[i]))
}

proof fn lemma_label_upto(s: Seq<u8>, n: nat, b: u8)
    requires
        n <= s.len(),
    ensures
        label_upto(s, n, b) <= rank(s, n),
        (label_upto(s, n, b) > 0) == (b != 0 && seen(s, n as int, b)),
    decreases n,
{
    if n > 0 {
        lemma_label_upto(s, (n - 1) as nat, b);
        if b != 0 && !seen(s, n - 1, b) && s[n - 1] == b {
            assert(seen(s, n as int, b));
        }
        if seen(s, n - 1, b) {
            let j = choose|j: int| 0 <= j < n - 1 && #[trigger] s[j] == b;
            assert(s[j] == b);
            assert(seen(s, n as int, b));
        }
    }
}

/// Distinct bytes have distinct labels.
proof fn lemma_label_distinct(s: Seq<u8>, n: nat, b: u8, c: u8)
    requires
        n <= s.len(),
        b != c,
        label_upto(s, n, b) > 0,
    ensures
        label_upto(s, n, b) != label_upto(s, n, c),
    decreases n,
{
    if n > 0 {
        let p = (n - 1) as nat;
        lemma_label_upto(s, p, b);
        lemma_label_upto(s, p, c);
        if seen(s, n - 1, b) {
            lemma_label_distinct(s, p, b, c);
        } else if c != 0 && seen(s, n - 1, c) {
            lemma_label_distinct(s, p, c, b);
        }
    }
}

/// How many byte values below `c` have a label.
spec fn labelled(s: Seq<u8>, n: nat, c: nat) -> nat
    decreases c,
{
    if c == 0 {
        0
    } else {
        labelled(s, n, (c - 1) as nat) + if label_upto(s, n, (c - 1) as u8) > 0 {
            1nat
        } else {
            0nat
        }
    }
}

proof fn lemma_labelled_step(s: Seq<u8>, n: nat, c: nat)
    requires
        0 < n <= s.len(),
        c <= 256,
    ensures
        labelled(s, n, c) == labelled(s, (n - 1) as nat, c) + if s[n - 1] != 0 && !seen(
            s,
            n - 1,
            s[n - 1],
        ) && s[n - 1] < c {
            1nat
        } else {
            0nat
        },
        labelled(s, n, c) <= c,
        c > 0 ==> labelled(s, n, c) <= c - 1,
    decreases c,
{
    if c > 0 {
        lemma_labelled_step(s, n, (c - 1) as nat);
        let b = (c - 1) as u8;
        lemma_label_upto(s, n, b);
        lemma_label_upto(s, (n - 1) as nat, b);
        if seen(s, n as int, b) && !seen(s, n - 1, b) {
            assert(s[n - 1] == b);
        }
    }
}

proof fn lemma_rank_labelled(s: Seq<u8>, n: nat)
    requires
        n <= s.len(),
    ensures
        rank(s, n) == labelled(s, n, 256),
        rank(s, n) <= 255,
    decreases n,
{
    if n == 0 {
        lemma_labelled_none(s, 256);
    } else {
        lemma_rank_labelled(s, (n - 1) as nat);
        lemma_labelled_step(s, n, 256);
    }
}

proof fn lemma_labelled_none(s: Seq<u8>, c: nat)
    ensures
        labelled(s, 0, c) == 0,
    decreases c,
{
    if c > 0 {
        lemma_labelled_none(s, (c - 1) as nat);
    }
}

/// Labels fit a byte, zero belongs to the blank and to absent bytes, and
/// distinct bytes of `s` have distinct labels.
pub proof fn lemma_label(s: Seq<u8>)
    ensures
        forall|b: u8| #[trigger] label(s, b) == label_upto(s, s.len(), b),
        forall|b: u8| (#[trigger] label(s, b) == 0) == (b == 0 || !s.contains(b)),
        forall|b: u8, c: u8|
            b != c && s.contains(b) && s.contains(c) ==> #[trigger] label(s, b) != #[trigger] label(
                s,
                c,
            ),
{
    lemma_rank_labelled(s, s.len());
    assert forall|b: u8| #[trigger] label(s, b) == label_upto(s, s.len(), b) && (label(s, b) == 0)
        == (b == 0 || !s.contains(b)) by {
        lemma_label_upto(s, s.len(), b);
        if s.contains(b) {
            let j = choose|j: int| 0 <= j < s.len() && s[j] == b;
            assert(s[j] == b);
            assert(seen(s, s.len() as int, b));
        }
    }
    assert forall|b: u8, c: u8| b != c && s.contains(b) && s.contains(c) implies #[trigger] label(
        s,
        b,
    ) != #[trigger] label(s, c) by {
        assert(label(s, b) == label_upto(s, s.len(), b));
        assert(label(s, c) == label_upto(s, s.len(), c));
        assert((label(s, b) == 0) == (b == 0));
        assert((label(s, c) == 0) == (c == 0));
        if b != 0 {
            lemma_label_distinct(s, s.len(), b, c);
        } else {
            lemma_label_distinct(s, s.len(), c, b);
        }
    }
}

/// Relabel the nonzero bytes of `buf` by order of first appearance, in place.
pub fn relabel_flat(buf: &mut Vec<u8>)
    ensures
        final(buf)@ == relabeled(old(buf)@),
{
    let ghost s = buf@;
    let mut label_map: [u8; 256] = [0; 256];
    let mut next_id: u16 = 1;
    let mut i: usize = 0;
    while i < buf.len()
        invariant
            i <= s.len(),
            buf@ == s,
            next_id == rank(s, i as nat) + 1,
            forall|b: int| 0 <= b < 256 ==> #[trigger] label_map@[b] == label_upto(s, i as nat, b as u8),
        decreases s.len() - i,
    {
        let b: u8 = buf[i];
        proof {
            lemma_rank_labelled(s, i as nat);
            lemma_rank_labelled(s, (i + 1) as nat);
            assert forall|c: u8| #[trigger] label_upto(s, (i + 1) as nat, c) == if c == b && b != 0
                && label_upto(s, i as nat, b) == 0 {
                rank(s, i as nat) + 1
            } else {
                label_upto(s, i as nat, c)
            } by {
                lemma_label_upto(s, i as nat, c);
            }
            lemma_label_upto(s, i as nat, b);
        }
        if b != 0 && label_map[b as usize] == 0 {
            label_map[b as usize] = next_id as u8;
            next_id += 1;
        }
        i += 1;
    }
    let mut j: usize = 0;
    while j < buf.len()
        invariant
            j <= s.len(),
            buf@.len() == s.len(),
            forall|b: int| 0 <= b < 256 ==> #[trigger] label_map@[b] == label_upto(s, s.len(), b as u8),
            forall|t: int| 0 <= t < j ==> #[trigger] buf@[t] == label(s, s[t]),
            forall|t: int| j <= t < s.len() ==> #[trigger] buf@[t] == s[t],
        decreases s.len() - j,
    {
        let b: u8 = buf[j];
        if b != 0 {
            buf[j] = label_map[b as usize];
        }
        j += 1;
    }
    assert(buf@ =~= relabeled(s));
}

} // verus!
