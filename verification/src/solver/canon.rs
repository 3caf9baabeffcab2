//! Canonical forms of word sets, and the hashes by which positions are looked
//! up.
//!
//! A position is seen as a matrix of effective signatures: one row for each
//! possible word, with a zero wherever the letter has been guessed. Renaming
//! letters, reordering rows and dropping columns of zeros do not change the
//! game, so positions that agree after these steps share a key.
use std::collections::hash_map::DefaultHasher;
use std::hash::Hasher;

use vstd::bytes::{spec_u64_to_le_bytes, u64_to_le_bytes};
use vstd::prelude::*;
use vstd::relations::total_ordering;
use vstd::std_specs::hash::DefaultHasherAdditionalSpecFns;

use crate::solver::matrix::{all_len, cell_at, flat, lemma_cell, lemma_flat_rows, lemma_rows_take, relabel_flat, relabeled, to_rows};
use crate::seqs::{lemma_filter, lemma_filter_full, lemma_filter_take, lemma_perm_multiset};
use crate::sorting::{lemma_lex_refl, lemma_lex_total, lemma_lex_trans, lex_le, perm_of, sorted_order};

verus! {

/// A byte sequence read as a number in base 256.
pub open spec fn pack(s: Seq<u8>) -> nat
    decreases s.len(),
{
    if s.len() == 0 {
        0
    } else {
        pack(s.drop_last()) * 256 + s.last() as nat
    }
}

pub closed spec fn p256(n: nat) -> nat
    decreases n,
{
    if n == 0 {
        1
    } else {
        256 * p256((n - 1) as nat)
    }
}

pub proof fn lemma_pack_bound(s: Seq<u8>)
    ensures
        pack(s) < p256(s.len()),
    decreases s.len(),
{
    if s.len() > 0 {
        lemma_pack_bound(s.drop_last());
    }
}

pub proof fn lemma_p256_grows(m: nat, n: nat)
    requires
        m <= n,
    ensures
        p256(m) <= p256(n),
    decreases n,
{
    if m < n {
        lemma_p256_grows(m, (n - 1) as nat);
        assert(p256((n - 1) as nat) >= 0);
    }
}

pub proof fn lemma_p256_values()
    ensures
        p256(7) == 0x100_0000_0000_0000,
        p256(15) == 0x100_0000_0000_0000 * 0x1_0000_0000_0000_0000,
{
    reveal_with_fuel(p256, 16);
}

/// Dictionary order of two sequences in terms of all but their last bytes.
proof fn lemma_lex_snoc(a: Seq<u8>, b: Seq<u8>)
    requires
        a.len() == b.len(),
        a.len() > 0,
    ensures
        lex_le(a, b) == if a.drop_last() == b.drop_last() {
            a.last() <= b.last()
        } else {
            lex_le(a.drop_last(), b.drop_last())
        },
    decreases a.len(),
{
    let a1 = a.drop_last();
    let b1 = b.drop_last();
    if a.len() == 1 {
        assert(a1 =~= b1);
        assert(lex_le(a.drop_first(), b.drop_first()));
    } else {
        lemma_lex_snoc(a.drop_first(), b.drop_first());
        assert(a.drop_first().drop_last() =~= a1.drop_first());
        assert(b.drop_first().drop_last() =~= b1.drop_first());
        if a1 == b1 {
            assert(a[0] == a1[0] && b[0] == b1[0]);
        } else if a[0] == b[0] {
            if a1.drop_first() == b1.drop_first() {
                assert(a1 =~= seq![a[0]] + a1.drop_first());
                assert(b1 =~= seq![b[0]] + b1.drop_first());
            }
        }
    }
}

/// On sequences of one length, packing keeps the order.
pub proof fn lemma_pack_order(a: Seq<u8>, b: Seq<u8>)
    requires
        a.len() == b.len(),
    ensures
        lex_le(a, b) == (pack(a) <= pack(b)),
        (pack(a) == pack(b)) == (a == b),
    decreases a.len(),
{
    if a.len() == 0 {
        assert(a =~= b);
    } else {
        lemma_lex_snoc(a, b);
        lemma_pack_order(a.drop_last(), b.drop_last());
        if a.drop_last() == b.drop_last() && a.last() == b.last() {
            assert(a =~= a.drop_last().push(a.last()));
            assert(b =~= b.drop_last().push(b.last()));
        }
    }
}

/// The FNV-1a hash of a byte sequence.
pub open spec fn fnv(s: Seq<u8>) -> u64
    decreases s.len(),
{
    if s.len() == 0 {
        0xcbf2_9ce4_8422_2325
    } else {
        (fnv(s.drop_last()) ^ (s.last() as u64)).wrapping_mul(0x0100_0000_01b3)
    }
}

/// The order in which rows of length `k` are sorted: dictionary order for
/// short rows, by hash and then dictionary order for long ones.
pub open spec fn row_le(k: nat, a: Seq<u8>, b: Seq<u8>) -> bool {
    if k <= 8 || fnv(a) == fnv(b) {
        lex_le(a, b)
    } else {
        fnv(a) < fnv(b)
    }
}

pub open spec fn row_order(k: nat) -> spec_fn(Seq<u8>, Seq<u8>) -> bool {
    |a: Seq<u8>, b: Seq<u8>| row_le(k, a, b)
}

/// The rows in sorted order.
pub open spec fn sorted_rows(rows: Seq<Seq<u8>>, k: nat) -> Seq<Seq<u8>> {
    rows.sort_by(row_order(k))
}

pub proof fn lemma_row_order(k: nat)
    ensures
        total_ordering(row_order(k)),
{
    let r = row_order(k);
    assert forall|a: Seq<u8>| #[trigger] r(a, a) by {
        lemma_lex_refl(a);
    }
    assert forall|a: Seq<u8>, b: Seq<u8>| #[trigger] r(a, b) && #[trigger] r(b, a) implies a == b by {
        lemma_lex_total(a, b);
    }
    assert forall|a: Seq<u8>, b: Seq<u8>| #[trigger] r(a, b) || #[trigger] r(b, a) by {
        lemma_lex_total(a, b);
    }
    assert forall|a: Seq<u8>, b: Seq<u8>, c: Seq<u8>| #[trigger] r(a, b) && #[trigger] r(b, c) implies r(
        a,
        c,
    ) by {
        if lex_le(a, b) && lex_le(b, c) {
            lemma_lex_trans(a, b, c);
        }
    }
}

/// Appends a byte to a packed number.
pub(crate) fn shift_in(key: u64, b: u8) -> (r: u64)
    requires
        key < 0x100_0000_0000_0000,
    ensures
        r == key * 256 + b,
{
    assert((key << 8u64) | (b as u64) == key * 256 + b) by (bit_vector)
        requires
            key < 0x100_0000_0000_0000u64,
    ;
    (key << 8u64) | (b as u64)
}

/// The keys belong to the rows: the packed bytes of a short row, the FNV hash
/// of a long one.
spec fn keys_ok(buf: Seq<u8>, keys: Seq<u64>, n: nat, k: nat) -> bool {
    &&& buf.len() >= n * k
    &&& keys.len() == n
    &&& forall|i: int|
        0 <= i < n ==> #[trigger] keys[i] == if k <= 8 {
            pack(to_rows(buf, n, k)[i]) as int
        } else {
            fnv(to_rows(buf, n, k)[i]) as int
        }
}

/// One key for each row: the packed bytes of a short row, the FNV hash of a
/// long one.
fn row_keys(buf: &Vec<u8>, n: usize, k: usize) -> (keys: Vec<u64>)
    requires
        buf@.len() >= n * k,
    ensures
        keys@.len() == n,
        keys_ok(buf@, keys@, n as nat, k as nat),
{
    let ghost rows = to_rows(buf@, n as nat, k as nat);
    let mut keys: Vec<u64> = Vec::new();
    let mut i: usize = 0;
    while i < n
        invariant
            i <= n,
            buf@.len() >= n * k,
            rows == to_rows(buf@, n as nat, k as nat),
            keys@.len() == i,
            forall|t: int|
                0 <= t < i ==> #[trigger] keys@[t] == if k <= 8 {
                    pack(rows[t]) as int
                } else {
                    fnv(rows[t]) as int
                },
        decreases n - i,
    {
        let mut key: u64 = if k <= 8 {
            0
        } else {
            0xcbf2_9ce4_8422_2325
        };
        let mut j: usize = 0;
        while j < k
            invariant
                i < n,
                j <= k,
                buf@.len() >= n * k,
                rows == to_rows(buf@, n as nat, k as nat),
                key == if k <= 8 {
                    pack(rows[i as int].take(j as int)) as int
                } else {
                    fnv(rows[i as int].take(j as int)) as int
                },
            decreases k - j,
        {
            proof {
                lemma_cell(i as int, j as int, n as int, k as int);
                let t = rows[i as int].take(j as int);
                assert(rows[i as int].take(j + 1).drop_last() =~= t);
                lemma_pack_bound(t);
                if k <= 8 {
                    lemma_p256_grows(j as nat, 7);
                    lemma_p256_values();
                }
            }
            let b: u8 = cell_at(buf, i, j, Ghost(n as nat), k);
            if k <= 8 {
                key = shift_in(key, b);
            } else {
                key = (key ^ (b as u64)).wrapping_mul(0x0100_0000_01b3);
            }
            j += 1;
        }
        proof {
            assert(rows[i as int].take(k as int) =~= rows[i as int]);
        }
        keys.push(key);
        i += 1;
    }
    keys
}

/// Row `a` of the matrix comes before row `b` or equals it in dictionary order.
fn row_at_le(buf: &Vec<u8>, a: usize, b: usize, Ghost(n): Ghost<nat>, k: usize) -> (r: bool)
    requires
        a < n,
        b < n,
        buf@.len() >= n * k,
    ensures
        r == lex_le(to_rows(buf@, n, k as nat)[a as int], to_rows(buf@, n, k as nat)[b as int]),
{
    let ghost ra = to_rows(buf@, n, k as nat)[a as int];
    let ghost rb = to_rows(buf@, n, k as nat)[b as int];
    let mut j: usize = 0;
    while j < k
        invariant
            a < n,
            b < n,
            j <= k,
            buf@.len() >= n * k,
            ra == to_rows(buf@, n, k as nat)[a as int],
            rb == to_rows(buf@, n, k as nat)[b as int],
            forall|t: int| 0 <= t < j ==> ra[t] == rb[t],
        decreases k - j,
    {
        proof {
            lemma_cell(a as int, j as int, n as int, k as int);
            lemma_cell(b as int, j as int, n as int, k as int);
        }
        let x: u8 = cell_at(buf, a, j, Ghost(n), k);
        let y: u8 = cell_at(buf, b, j, Ghost(n), k);
        if x != y {
            proof {
                crate::sorting::lemma_lex_at(ra, rb, j as int);
            }
            return x < y;
        }
        j += 1;
    }
    proof {
        assert(ra =~= rb);
        lemma_lex_refl(ra);
    }
    true
}

/// Row `x` stands before row `y` or equals it; equal keys of long rows are
/// told apart by their bytes.
fn keyed_row_le(buf: &Vec<u8>, keys: &Vec<u64>, x: usize, y: usize, n: usize, k: usize) -> (r: bool)
    requires
        x < n,
        y < n,
        keys_ok(buf@, keys@, n as nat, k as nat),
    ensures
        r == row_le(
            k as nat,
            to_rows(buf@, n as nat, k as nat)[x as int],
            to_rows(buf@, n as nat, k as nat)[y as int],
        ),
{
    let ghost rows = to_rows(buf@, n as nat, k as nat);
    proof {
        lemma_pack_order(rows[x as int], rows[y as int]);
        lemma_lex_refl(rows[x as int]);
    }
    if keys[x] != keys[y] {
        keys[x] < keys[y]
    } else if k <= 8 {
        true
    } else {
        row_at_le(buf, x, y, Ghost(n as nat), k)
    }
}

/// The start of a buffer.
pub(crate) fn head(buf: &Vec<u8>, n: usize) -> (r: Vec<u8>)
    requires
        n <= buf@.len(),
    ensures
        r@ == buf@.take(n as int),
{
    let mut r: Vec<u8> = Vec::new();
    let mut i: usize = 0;
    while i < n
        invariant
            i <= n <= buf@.len(),
            r@ == buf@.take(i as int),
        decreases n - i,
    {
        r.push(buf[i]);
        i += 1;
        assert(buf@.take(i as int) =~= buf@.take(i - 1).push(buf@[i - 1]));
    }
    r
}

/// Appends to `out` what stands in `buf` beyond the length of `out`.
pub(crate) fn copy_rest(buf: &Vec<u8>, out: &mut Vec<u8>)
    requires
        old(out)@.len() <= buf@.len(),
    ensures
        final(out)@ == old(out)@ + buf@.skip(old(out)@.len() as int),
{
    let ghost start = out@;
    let mut i: usize = out.len();
    assert(start + buf@.subrange(start.len() as int, i as int) =~= start);
    while i < buf.len()
        invariant
            start.len() <= i <= buf@.len(),
            out@ == start + buf@.subrange(start.len() as int, i as int),
        decreases buf@.len() - i,
    {
        out.push(buf[i]);
        i += 1;
        assert(buf@.subrange(start.len() as int, i as int) =~= buf@.subrange(start.len() as int, i - 1).push(buf@[i - 1]));
        assert(out@ =~= start + buf@.subrange(start.len() as int, i as int));
    }
    assert(buf@.subrange(start.len() as int, i as int) =~= buf@.skip(start.len() as int));
}

/// Sort the rows of the `n` by `k` matrix at the start of `buf`; what follows it stays.
pub(crate) fn sort_flat_rows(buf: &mut Vec<u8>, n: usize, k: usize)
    requires
        old(buf)@.len() >= n * k,
    ensures
        final(buf)@.len() == old(buf)@.len(),
        final(buf)@.skip((n * k) as int) == old(buf)@.skip((n * k) as int),
        to_rows(final(buf)@, n as nat, k as nat) == sorted_rows(
            to_rows(old(buf)@, n as nat, k as nat),
            k as nat,
        ),
{
    let ghost rows = to_rows(buf@, n as nat, k as nat);
    let tmp: Vec<u8> = buf.clone();
    assert(tmp@ =~= buf@);
    let keys = row_keys(&tmp, n, k);
    let ghost leq = |x: int, y: int| row_le(k as nat, rows[x], rows[y]);
    let le = |x: usize, y: usize| -> (r: bool)
        requires
            x < n,
            y < n,
            keys_ok(tmp@, keys@, n as nat, k as nat),
        ensures
            r == row_le(
                k as nat,
                to_rows(tmp@, n as nat, k as nat)[x as int],
                to_rows(tmp@, n as nat, k as nat)[y as int],
            ),
        { keyed_row_le(&tmp, &keys, x, y, n, k) };
    proof {
        lemma_row_order(k as nat);
        let r = row_order(k as nat);
        assert forall|x: int, y: int| 0 <= x < n && 0 <= y < n implies #[trigger] leq(x, y) || leq(
            y,
            x,
        ) by {
            assert(r(rows[x], rows[y]) || r(rows[y], rows[x]));
        }
        assert forall|x: int, y: int, z: int|
            0 <= x < n && 0 <= y < n && 0 <= z < n && #[trigger] leq(x, y) && #[trigger] leq(
                y,
                z,
            ) implies leq(x, z) by {
            assert(r(rows[x], rows[y]) && r(rows[y], rows[z]));
        }
    }
    let order = sorted_order(n, &le, Ghost(leq));
    let mut out: Vec<u8> = Vec::new();
    let mut i: usize = 0;
    while i < n
        invariant
            i <= n,
            tmp@.len() >= n * k,
            rows == to_rows(tmp@, n as nat, k as nat),
            perm_of(order@, 0, n as int),
            out@.len() == i * k,
            forall|t: int, j: int|
                0 <= t < i && 0 <= j < k ==> out@[t * k + j] == #[trigger] rows[order@[t] as int][j],
        decreases n - i,
    {
        let src: usize = order[i];
        let mut j: usize = 0;
        while j < k
            invariant
                i < n,
                j <= k,
                src == order@[i as int],
                tmp@.len() >= n * k,
                rows == to_rows(tmp@, n as nat, k as nat),
                perm_of(order@, 0, n as int),
                out@.len() == i * k + j,
                forall|t: int, u: int|
                    0 <= t < i && 0 <= u < k ==> out@[t * k + u] == #[trigger] rows[order@[t] as int][u],
                forall|u: int| 0 <= u < j ==> out@[i * k + u] == #[trigger] rows[src as int][u],
            decreases k - j,
        {
            proof {
                lemma_cell(src as int, j as int, n as int, k as int);
            }
            let ghost before = out@;
            out.push(cell_at(&tmp, src, j, Ghost(n as nat), k));
            proof {
                assert forall|t: int, u: int| 0 <= t < i && 0 <= u < k implies out@[t * k + u]
                    == #[trigger] rows[order@[t] as int][u] by {
                    lemma_cell(t, u, i as int, k as int);
                }
            }
            j += 1;
        }
        proof {
            assert((i + 1) * k == i * k + k) by (nonlinear_arith);
        }
        i += 1;
    }
    copy_rest(&tmp, &mut out);
    *buf = out;
    proof {
        let got = to_rows(buf@, n as nat, k as nat);
        let want = Seq::new(n as nat, |t: int| rows[order@[t] as int]);
        assert forall|t: int| 0 <= t < n implies got[t] == want[t] by {
            assert forall|j: int| 0 <= j < k implies got[t][j] == want[t][j] by {
                lemma_cell(t, j, n as int, k as int);
                assert(rows[order@[t] as int][j] == want[t][j]);
            }
            assert(got[t] =~= want[t]);
        }
        assert(got =~= want);
        lemma_perm_multiset(rows, order@);
        rows.lemma_sort_by_ensures(row_order(k as nat));
        assert forall|t: int, u: int| 0 <= t < u < got.len() implies #[trigger] row_order(k as nat)(
            got[t],
            got[u],
        ) by {
            assert(leq(order@[t] as int, order@[u] as int));
        }
        vstd::seq_lib::lemma_sorted_unique(got, sorted_rows(rows, k as nat), row_order(k as nat));
    }
}

/// Column `j` holds a nonzero byte in some row.
pub open spec fn live_col(rows: Seq<Seq<u8>>, j: int) -> bool {
    exists|i: int| 0 <= i < rows.len() && #[trigger] rows[i][j] != 0
}

/// The live columns, from left to right.
pub open spec fn live_cols(rows: Seq<Seq<u8>>, k: nat) -> Seq<int> {
    Seq::new(k, |j: int| j).filter(|j: int| live_col(rows, j))
}

/// The given columns of each row.
pub open spec fn pick_cols(rows: Seq<Seq<u8>>, cols: Seq<int>) -> Seq<Seq<u8>> {
    Seq::new(rows.len(), |i: int| Seq::new(cols.len(), |t: int| rows[i][cols[t]]))
}

/// The rows without the columns that are zero throughout.
pub open spec fn collapsed(rows: Seq<Seq<u8>>, k: nat) -> Seq<Seq<u8>> {
    pick_cols(rows, live_cols(rows, k))
}

/// The columns that hold a nonzero byte, from left to right.
fn live_columns(buf: &Vec<u8>, m: usize, k: usize) -> (cols: Vec<usize>)
    requires
        buf@.len() >= m * k,
    ensures
        cols@.map_values(|c: usize| c as int) == live_cols(to_rows(buf@, m as nat, k as nat), k as nat),
        forall|t: int| 0 <= t < cols@.len() ==> #[trigger] cols@[t] < k,
        cols@.len() <= k,
{
    let ghost rows = to_rows(buf@, m as nat, k as nat);
    let ghost all = Seq::new(k as nat, |j: int| j);
    let ghost pred = |j: int| live_col(rows, j);
    let mut cols: Vec<usize> = Vec::new();
    let mut j: usize = 0;
    proof {
        assert(all.take(0) =~= Seq::empty());
        reveal(Seq::filter);
        assert(cols@.map_values(|c: usize| c as int) =~= all.take(0).filter(pred));
    }
    while j < k
        invariant
            j <= k,
            buf@.len() >= m * k,
            rows == to_rows(buf@, m as nat, k as nat),
            all == Seq::new(k as nat, |j: int| j),
            pred == |j: int| live_col(rows, j),
            cols@.map_values(|c: usize| c as int) == all.take(j as int).filter(pred),
            forall|t: int| 0 <= t < cols@.len() ==> #[trigger] cols@[t] < k,
            cols@.len() <= j,
        decreases k - j,
    {
        let mut i: usize = 0;
        let mut live: bool = false;
        while i < m && !live
            invariant
                i <= m,
                j < k,
                buf@.len() >= m * k,
                rows == to_rows(buf@, m as nat, k as nat),
                live == exists|t: int| 0 <= t < i && #[trigger] rows[t][j as int] != 0,
            decreases m - i,
        {
            let b: u8 = cell_at(buf, i, j, Ghost(m as nat), k);
            if b != 0 {
                live = true;
                assert(rows[i as int][j as int] != 0);
            }
            i += 1;
        }
        proof {
            assert(live == live_col(rows, j as int)) by {
                if live {
                    let t = choose|t: int| 0 <= t < i && #[trigger] rows[t][j as int] != 0;
                    assert(rows[t][j as int] != 0);
                }
            }
            lemma_filter_take(all, pred, j as int);
        }
        let ghost before = cols@;
        if live {
            cols.push(j);
            proof {
                assert(cols@.map_values(|c: usize| c as int) =~= before.map_values(
                    |c: usize| c as int,
                ).push(j as int));
            }
        }
        j += 1;
    }
    proof {
        assert(all.take(k as int) =~= all);
    }
    cols
}

/// Copies the given columns of an `m` by `k` matrix into a new one.
pub(crate) fn copy_columns(buf: &Vec<u8>, m: usize, k: usize, cols: &Vec<usize>) -> (out: Vec<u8>)
    requires
        buf@.len() >= m * k,
        forall|t: int| 0 <= t < cols@.len() ==> #[trigger] cols@[t] < k,
    ensures
        out@.len() == m * cols@.len(),
        to_rows(out@, m as nat, cols@.len()) == pick_cols(
            to_rows(buf@, m as nat, k as nat),
            cols@.map_values(|c: usize| c as int),
        ),
{
    let ghost rows = to_rows(buf@, m as nat, k as nat);
    let nk: usize = cols.len();
    let mut out: Vec<u8> = Vec::new();
    let mut i: usize = 0;
    while i < m
        invariant
            i <= m,
            nk == cols@.len(),
            buf@.len() >= m * k,
            rows == to_rows(buf@, m as nat, k as nat),
            forall|t: int| 0 <= t < cols@.len() ==> #[trigger] cols@[t] < k,
            out@.len() == i * nk,
            forall|t: int, u: int|
                0 <= t < i && 0 <= u < nk ==> out@[t * nk + u] == #[trigger] rows[t][cols@[u] as int],
        decreases m - i,
    {
        let mut j: usize = 0;
        while j < nk
            invariant
                i < m,
                j <= nk,
                nk == cols@.len(),
                buf@.len() >= m * k,
                rows == to_rows(buf@, m as nat, k as nat),
                forall|t: int| 0 <= t < cols@.len() ==> #[trigger] cols@[t] < k,
                out@.len() == i * nk + j,
                forall|t: int, u: int|
                    0 <= t < i && 0 <= u < nk ==> out@[t * nk + u] == #[trigger] rows[t][cols@[u] as int],
                forall|u: int| 0 <= u < j ==> out@[i * nk + u] == #[trigger] rows[i as int][cols@[u] as int],
            decreases nk - j,
        {
            out.push(cell_at(buf, i, cols[j], Ghost(m as nat), k));
            proof {
                assert forall|t: int, u: int| 0 <= t < i && 0 <= u < nk implies out@[t * nk + u]
                    == #[trigger] rows[t][cols@[u] as int] by {
                    lemma_cell(t, u, i as int, nk as int);
                }
            }
            j += 1;
        }
        proof {
            assert((i + 1) * nk == i * nk + nk) by (nonlinear_arith);
        }
        i += 1;
    }
    proof {
        let got = to_rows(out@, m as nat, cols@.len());
        let want = pick_cols(rows, cols@.map_values(|c: usize| c as int));
        assert forall|t: int| 0 <= t < m implies got[t] == want[t] by {
            assert(got[t] =~= want[t]);
        }
        assert(got =~= want);
    }
    out
}

/// Drop the columns that are zero in every row from the `m` by `k` matrix at the
/// start of `buf`.
/// Returns `None` where there are none to drop.
pub fn collapse_zero_cols(buf: &Vec<u8>, m: usize, k: usize) -> (r: Option<(Vec<u8>, usize)>)
    requires
        buf@.len() >= m * k,
    ensures
        r is None == (m == 0 || live_cols(to_rows(buf@, m as nat, k as nat), k as nat).len() == k),
        r matches Some(p) ==> {
            let rows = to_rows(buf@, m as nat, k as nat);
            &&& p.1 == live_cols(rows, k as nat).len()
            &&& p.0@.len() == m * p.1
            &&& to_rows(p.0@, m as nat, p.1 as nat) == collapsed(rows, k as nat)
        },
{
    if k == 0 || m == 0 {
        proof {
            lemma_filter(Seq::new(k as nat, |j: int| j), |j: int| live_col(to_rows(buf@, m as nat, k as nat), j));
        }
        return None;
    }
    let cols = live_columns(buf, m, k);
    let new_k: usize = cols.len();
    proof {
        assert(cols@.map_values(|c: usize| c as int).len() == new_k);
    }
    if new_k == k {
        return None;
    }
    Some((copy_columns(buf, m, k, &cols), new_k))
}

/// What is fed to the hasher for a byte slice: its length, then its bytes.
pub open spec fn byte_feed(data: Seq<u8>) -> Seq<Seq<u8>> {
    seq![spec_u64_to_le_bytes(data.len() as u64), data]
}

/// The 128-bit hash of a byte sequence: a first hash of the bytes in the lower
/// half, and in the upper half a second one that starts from the first.
pub open spec fn hash_of(data: Seq<u8>) -> u128 {
    let h1 = DefaultHasher::spec_finish(byte_feed(data));
    let h2 = DefaultHasher::spec_finish(seq![spec_u64_to_le_bytes(h1)] + byte_feed(data));
    (h1 as u128) | ((h2 as u128) << 64u128)
}

pub(crate) fn hash_flat(data: &Vec<u8>) -> (r: u128)
    ensures
        r == hash_of(data@),
{
    let len = u64_to_le_bytes(data.len() as u64);
    let mut hasher = DefaultHasher::new();
    hasher.write(len.as_slice());
    hasher.write(data.as_slice());
    assert(hasher@ =~= byte_feed(data@));
    let h1: u64 = hasher.finish();
    let seed = u64_to_le_bytes(h1);
    let mut hasher2 = DefaultHasher::new();
    hasher2.write(seed.as_slice());
    hasher2.write(len.as_slice());
    hasher2.write(data.as_slice());
    assert(hasher2@ =~= seq![spec_u64_to_le_bytes(h1)] + byte_feed(data@));
    let h2: u64 = hasher2.finish();
    (h1 as u128) | ((h2 as u128) << 64u128)
}

/// Each row comes before the next or equals it.
pub open spec fn lex_sorted(rows: Seq<Seq<u8>>) -> bool {
    forall|i: int| 0 < i < rows.len() ==> lex_le(rows[i - 1], #[trigger] rows[i])
}

/// The canonical form of sorted rows of length `k`, laid end to end: dead
/// columns dropped, letters renamed by first appearance, and, where that upset
/// the order of the rows, sorted and renamed once more.
pub open spec fn canon_flat(rows: Seq<Seq<u8>>, k: nat) -> Seq<u8> {
    let k2 = live_cols(rows, k).len();
    let first = relabeled(flat(collapsed(rows, k), k2));
    let again = to_rows(first, rows.len(), k2);
    if lex_sorted(again) {
        first
    } else {
        relabeled(flat(sorted_rows(again, k2), k2))
    }
}

/// The canonical form of sorted rows of length `k` as bytes: the number of live columns,
/// then the rows end to end. Without the number, matrices of different shapes could
/// share their bytes. No bytes at all where nothing is left to tell apart.
pub open spec fn form_bytes(rows: Seq<Seq<u8>>, k: nat) -> Seq<u8> {
    if rows.len() <= 1 || live_cols(rows, k).len() == 0 {
        Seq::empty()
    } else {
        spec_u64_to_le_bytes(live_cols(rows, k).len() as u64) + canon_flat(rows, k)
    }
}

/// The key of a canonical form; zero for the one without bytes.
pub open spec fn form_key(form: Seq<u8>) -> u128 {
    if form.len() == 0 {
        0
    } else {
        hash_of(form)
    }
}

/// The key of sorted rows of length `k`: that of their canonical form.
pub open spec fn canon_key(rows: Seq<Seq<u8>>, k: nat) -> u128 {
    form_key(form_bytes(rows, k))
}

/// The key of a canonical form.
pub(crate) fn key_of_form(form: &Vec<u8>) -> (r: u128)
    ensures
        r == form_key(form@),
{
    if form.len() == 0 {
        0
    } else {
        hash_flat(form)
    }
}

proof fn lemma_all_live(rows: Seq<Seq<u8>>, k: nat)
    requires
        all_len(rows, k),
        live_cols(rows, k).len() == k,
    ensures
        collapsed(rows, k) == rows,
{
    let all = Seq::new(k, |j: int| j);
    lemma_filter_full(all, |j: int| live_col(rows, j));
    assert forall|i: int| 0 <= i < rows.len() implies collapsed(rows, k)[i] == rows[i] by {
        assert(collapsed(rows, k)[i] =~= rows[i]);
    }
    assert(collapsed(rows, k) =~= rows);
}

/// Canonicalize a matrix whose rows are sorted, and hash the result.
pub(crate) fn canonicalize_sorted_rows(buf: &Vec<u8>, m: usize, k: usize) -> (r: u128)
    requires
        buf@.len() >= m * k,
    ensures
        r == canon_key(to_rows(buf@, m as nat, k as nat), k as nat),
{
    let form = form_of_sorted_rows(buf, m, k);
    key_of_form(&form)
}

/// The canonical form of a matrix whose rows are sorted.
pub(crate) fn form_of_sorted_rows(buf: &Vec<u8>, m: usize, k: usize) -> (r: Vec<u8>)
    requires
        buf@.len() >= m * k,
    ensures
        r@ == form_bytes(to_rows(buf@, m as nat, k as nat), k as nat),
{
    let ghost rows = to_rows(buf@, m as nat, k as nat);
    let len: usize = buf.len();
    proof {
        assert(0 <= m * k) by (nonlinear_arith);
        assert(m * k <= len);
        lemma_rows_take(buf@.take((m * k) as int), buf@, m as nat, k as nat);
        lemma_flat_rows(buf@.take((m * k) as int), m as nat, k as nat);
        lemma_filter(Seq::new(k as nat, |j: int| j), |j: int| live_col(rows, j));
    }
    if m <= 1 || k == 0 {
        return Vec::new();
    }
    let (mut work, k2): (Vec<u8>, usize) = match collapse_zero_cols(buf, m, k) {
        Some(p) => p,
        None => {
            proof {
                lemma_all_live(rows, k as nat);
            }
            (head(buf, m * k), k)
        },
    };
    proof {
        assert(work@.len() == m * k2);
        assert(to_rows(work@, m as nat, k2 as nat) == collapsed(rows, k as nat)) by {
            if live_cols(rows, k as nat).len() == k {
                assert(work@ =~= buf@.take((m * k) as int));
            }
        }
        lemma_flat_rows(work@, m as nat, k2 as nat);
    }
    if k2 == 0 {
        return Vec::new();
    }
    relabel_flat(&mut work);
    let ghost again = to_rows(work@, m as nat, k2 as nat);
    let mut needs_resort: bool = false;
    let mut i: usize = 1;
    while i < m && !needs_resort
        invariant
            1 <= i <= m,
            work@.len() == m * k2,
            again == to_rows(work@, m as nat, k2 as nat),
            needs_resort ==> !lex_sorted(again),
            !needs_resort ==> forall|t: int| 0 < t < i ==> lex_le(again[t - 1], #[trigger] again[t]),
        decreases m - i,
    {
        if !row_at_le(&work, i - 1, i, Ghost(m as nat), k2) {
            needs_resort = true;
            assert(!lex_le(again[i - 1], again[i as int]));
        }
        i += 1;
    }
    if needs_resort {
        sort_flat_rows(&mut work, m, k2);
        proof {
            lemma_flat_rows(work@, m as nat, k2 as nat);
        }
        relabel_flat(&mut work);
    }
    let mut data = u64_to_le_bytes(k2 as u64);
    data.append(&mut work);
    assert(data@ =~= form_bytes(rows, k as nat));
    data
}

} // verus!
