//! A stable sort that hands back the sorted order as a permutation.
use vstd::prelude::*;

verus! {

/// `p` lists each of the numbers from `lo` to `hi - 1` once.
pub open spec fn perm_of(p: Seq<usize>, lo: int, hi: int) -> bool {
    &&& p.len() == hi - lo
    &&& forall|t: int| 0 <= t < p.len() ==> lo <= #[trigger] p[t] < hi
    &&& forall|t: int, u: int| 0 <= t < u < p.len() ==> #[trigger] p[t] != #[trigger] p[u]
    &&& forall|i: usize| lo <= i < hi ==> #[trigger] p.contains(i)
}

/// `leq` is a total preorder on the numbers below `n`.
pub open spec fn preorder(leq: spec_fn(int, int) -> bool, n: int) -> bool {
    &&& forall|x: int, y: int|
        0 <= x < n && 0 <= y < n ==> #[trigger] leq(x, y) || leq(y, x)
    &&& forall|x: int, y: int, z: int|
        0 <= x < n && 0 <= y < n && 0 <= z < n && #[trigger] leq(x, y) && #[trigger] leq(y, z)
            ==> leq(x, z)
}

/// `x` comes strictly before `y`: it is smaller, or it is equal and stood
/// earlier.
pub open spec fn before(leq: spec_fn(int, int) -> bool, x: int, y: int) -> bool {
    leq(x, y) && (leq(y, x) ==> x < y)
}

/// `p` is in order, equal items in their original order.
pub open spec fn in_order(leq: spec_fn(int, int) -> bool, p: Seq<usize>) -> bool {
    forall|t: int, u: int|
        0 <= t < u < p.len() ==> before(leq, #[trigger] p[t] as int, #[trigger] p[u] as int)
}

fn merge<F: Fn(usize, usize) -> bool>(
    a: &Vec<usize>,
    b: &Vec<usize>,
    le: &F,
    Ghost(leq): Ghost<spec_fn(int, int) -> bool>,
    Ghost(n): Ghost<int>,
    Ghost(lo): Ghost<int>,
    Ghost(mid): Ghost<int>,
    Ghost(hi): Ghost<int>,
) -> (out: Vec<usize>)
    requires
        0 <= lo <= mid <= hi <= n,
        n <= usize::MAX,
        preorder(leq, n),
        forall|x: usize, y: usize| x < n && y < n ==> #[trigger] le.requires((x, y)),
        forall|x: usize, y: usize, r: bool|
            x < n && y < n && #[trigger] le.ensures((x, y), r) ==> r == leq(x as int, y as int),
        perm_of(a@, lo, mid),
        perm_of(b@, mid, hi),
        in_order(leq, a@),
        in_order(leq, b@),
    ensures
        perm_of(out@, lo, hi),
        in_order(leq, out@),
{
    let mut out: Vec<usize> = Vec::new();
    let mut i: usize = 0;
    let mut j: usize = 0;
    while i < a.len() || j < b.len()
        invariant
            0 <= lo <= mid <= hi <= n,
            n <= usize::MAX,
            preorder(leq, n),
            forall|x: usize, y: usize| x < n && y < n ==> #[trigger] le.requires((x, y)),
            forall|x: usize, y: usize, r: bool|
                x < n && y < n && #[trigger] le.ensures((x, y), r) ==> r == leq(x as int, y as int),
            perm_of(a@, lo, mid),
            perm_of(b@, mid, hi),
            in_order(leq, a@),
            in_order(leq, b@),
            i <= a@.len(),
            j <= b@.len(),
            out@.len() == i + j,
            in_order(leq, out@),
            forall|t: int| 0 <= t < out@.len() ==> lo <= #[trigger] out@[t] < hi,
            forall|t: int, u: int| 0 <= t < u < out@.len() ==> #[trigger] out@[t] != #[trigger] out@[u],
            forall|t: int, u: int|
                0 <= t < out@.len() && i <= u < a@.len() ==> before(
                    leq,
                    #[trigger] out@[t] as int,
                    #[trigger] a@[u] as int,
                ) && out@[t] != a@[u],
            forall|t: int, u: int|
                0 <= t < out@.len() && j <= u < b@.len() ==> before(
                    leq,
                    #[trigger] out@[t] as int,
                    #[trigger] b@[u] as int,
                ) && out@[t] != b@[u],
            forall|u: int| 0 <= u < i ==> out@.contains(#[trigger] a@[u]),
            forall|u: int| 0 <= u < j ==> out@.contains(#[trigger] b@[u]),
        decreases a@.len() - i + b@.len() - j,
    {
        let from_a: bool = if i == a.len() {
            false
        } else if j == b.len() {
            true
        } else {
            le(a[i], b[j])
        };
        let ghost before_push = out@;
        if from_a {
            out.push(a[i]);
            proof {
                assert forall|u: int| j <= u < b@.len() implies before(
                    leq,
                    a@[i as int] as int,
                    #[trigger] b@[u] as int,
                ) by {
                    assert(leq(a@[i as int] as int, b@[j as int] as int));
                    if u > j {
                        assert(before(leq, b@[j as int] as int, b@[u] as int));
                    }
                }
            }
            i += 1;
        } else {
            out.push(b[j]);
            proof {
                assert forall|u: int| i <= u < a@.len() implies before(
                    leq,
                    b@[j as int] as int,
                    #[trigger] a@[u] as int,
                ) by {
                    assert(!leq(a@[i as int] as int, b@[j as int] as int));
                    assert(leq(b@[j as int] as int, a@[i as int] as int));
                    if u > i {
                        assert(before(leq, a@[i as int] as int, a@[u] as int));
                    }
                }
            }
            j += 1;
        }
        proof {
            let last = out@[out@.len() - 1];
            assert(out@ == before_push.push(last));
            assert forall|x: usize| before_push.contains(x) implies out@.contains(x) by {
                let t = choose|t: int| 0 <= t < before_push.len() && before_push[t] == x;
                assert(out@[t] == x);
            }
            assert(out@.contains(last)) by {
                assert(out@[out@.len() - 1] == last);
            }
        }
    }
    proof {
        assert forall|x: usize| lo <= x < hi implies #[trigger] out@.contains(x) by {
            if x < mid {
                assert(a@.contains(x));
                let u = choose|u: int| 0 <= u < a@.len() && a@[u] == x;
                assert(out@.contains(a@[u]));
            } else {
                assert(b@.contains(x));
                let u = choose|u: int| 0 <= u < b@.len() && b@[u] == x;
                assert(out@.contains(b@[u]));
            }
        }
    }
    out
}

fn sort_range<F: Fn(usize, usize) -> bool>(
    lo: usize,
    hi: usize,
    le: &F,
    Ghost(leq): Ghost<spec_fn(int, int) -> bool>,
    Ghost(n): Ghost<int>,
) -> (out: Vec<usize>)
    requires
        lo <= hi <= n,
        n <= usize::MAX,
        preorder(leq, n),
        forall|x: usize, y: usize| x < n && y < n ==> #[trigger] le.requires((x, y)),
        forall|x: usize, y: usize, r: bool|
            x < n && y < n && #[trigger] le.ensures((x, y), r) ==> r == leq(x as int, y as int),
    ensures
        perm_of(out@, lo as int, hi as int),
        in_order(leq, out@),
    decreases hi - lo,
{
    if hi - lo <= 1 {
        let mut out: Vec<usize> = Vec::new();
        if lo < hi {
            out.push(lo);
            proof {
                assert(out@[0] == lo);
                assert forall|i: usize| lo <= i < hi implies #[trigger] out@.contains(i) by {
                    assert(out@[0] == i);
                }
            }
        }
        out
    } else {
        let mid: usize = lo + (hi - lo) / 2;
        let a = sort_range(lo, mid, le, Ghost(leq), Ghost(n));
        let b = sort_range(mid, hi, le, Ghost(leq), Ghost(n));
        merge(&a, &b, le, Ghost(leq), Ghost(n), Ghost(lo as int), Ghost(mid as int), Ghost(hi as int))
    }
}

/// The order in which the items `0` to `n - 1` stand when sorted by `le`,
/// equal items in their original order.
pub fn sorted_order<F: Fn(usize, usize) -> bool>(
    n: usize,
    le: &F,
    Ghost(leq): Ghost<spec_fn(int, int) -> bool>,
) -> (out: Vec<usize>)
    requires
        preorder(leq, n as int),
        forall|x: usize, y: usize| x < n && y < n ==> #[trigger] le.requires((x, y)),
        forall|x: usize, y: usize, r: bool|
            x < n && y < n && #[trigger] le.ensures((x, y), r) ==> r == leq(x as int, y as int),
    ensures
        perm_of(out@, 0, n as int),
        in_order(leq, out@),
{
    sort_range(0, n, le, Ghost(leq), Ghost(n as int))
}

/// Byte sequence `a` comes before `b` or equals it in dictionary order.
pub open spec fn lex_le(a: Seq<u8>, b: Seq<u8>) -> bool
    decreases a.len(),
{
    if a.len() == 0 {
        true
    } else if b.len() == 0 {
        false
    } else if a[0] != b[0] {
        a[0] < b[0]
    } else {
        lex_le(a.drop_first(), b.drop_first())
    }
}

/// `lex_le` from place `i` on, where both agree before it.
proof fn lemma_lex_from(a: Seq<u8>, b: Seq<u8>, i: nat)
    requires
        i <= a.len(),
        i <= b.len(),
        forall|j: int| 0 <= j < i ==> a[j] == b[j],
    ensures
        lex_le(a, b) == lex_le(a.skip(i as int), b.skip(i as int)),
    decreases i,
{
    if i == 0 {
        assert(a.skip(0) =~= a);
        assert(b.skip(0) =~= b);
    } else {
        assert forall|j: int| 0 <= j < i - 1 implies a.drop_first()[j] == b.drop_first()[j] by {
            assert(a[j + 1] == b[j + 1]);
        }
        lemma_lex_from(a.drop_first(), b.drop_first(), (i - 1) as nat);
        assert(a.drop_first().skip(i - 1) =~= a.skip(i as int));
        assert(b.drop_first().skip(i - 1) =~= b.skip(i as int));
    }
}

/// The first place at which two sequences differ decides.
pub proof fn lemma_lex_at(a: Seq<u8>, b: Seq<u8>, i: int)
    requires
        0 <= i < a.len(),
        i < b.len(),
        forall|j: int| 0 <= j < i ==> a[j] == b[j],
        a[i] != b[i],
    ensures
        lex_le(a, b) == (a[i] < b[i]),
{
    lemma_lex_from(a, b, i as nat);
}

pub proof fn lemma_lex_refl(a: Seq<u8>)
    ensures
        lex_le(a, a),
    decreases a.len(),
{
    if a.len() > 0 {
        lemma_lex_refl(a.drop_first());
    }
}

pub proof fn lemma_lex_total(a: Seq<u8>, b: Seq<u8>)
    ensures
        lex_le(a, b) || lex_le(b, a),
        lex_le(a, b) && lex_le(b, a) ==> a == b,
    decreases a.len(),
{
    if a.len() > 0 && b.len() > 0 {
        lemma_lex_total(a.drop_first(), b.drop_first());
        if a[0] == b[0] && lex_le(a, b) && lex_le(b, a) {
            assert(a.drop_first() == b.drop_first());
            assert(a =~= seq![a[0]] + a.drop_first());
            assert(b =~= seq![b[0]] + b.drop_first());
        }
    } else if lex_le(a, b) && lex_le(b, a) {
        assert(a =~= b);
    }
}

pub proof fn lemma_lex_trans(a: Seq<u8>, b: Seq<u8>, c: Seq<u8>)
    requires
        lex_le(a, b),
        lex_le(b, c),
    ensures
        lex_le(a, c),
    decreases a.len(),
{
    if a.len() > 0 && b.len() > 0 && c.len() > 0 && a[0] == b[0] && b[0] == c[0] {
        lemma_lex_trans(a.drop_first(), b.drop_first(), c.drop_first());
    }
}

/// Dictionary order on bytes.
pub fn bytes_le(a: &[u8], b: &[u8]) -> (r: bool)
    ensures
        r == lex_le(a@, b@),
{
    let mut i: usize = 0;
    while i < a.len() && i < b.len()
        invariant
            i <= a@.len(),
            i <= b@.len(),
            forall|j: int| 0 <= j < i ==> a@[j] == b@[j],
        decreases a@.len() - i,
    {
        if a[i] != b[i] {
            proof {
                lemma_lex_at(a@, b@, i as int);
            }
            return a[i] < b[i];
        }
        i += 1;
    }
    proof {
        lemma_lex_from(a@, b@, i as nat);
    }
    i == a.len()
}

/// Two byte slices hold the same bytes.
pub fn bytes_eq(a: &[u8], b: &[u8]) -> (r: bool)
    ensures
        r == (a@ == b@),
{
    if a.len() != b.len() {
        return false;
    }
    let mut i: usize = 0;
    while i < a.len()
        invariant
            i <= a@.len(),
            a@.len() == b@.len(),
            forall|j: int| 0 <= j < i ==> a@[j] == b@[j],
        decreases a@.len() - i,
    {
        if a[i] != b[i] {
            return false;
        }
        i += 1;
    }
    assert(a@ =~= b@);
    true
}

/// The sequences come in strictly increasing dictionary order.
pub open spec fn strictly_sorted(q: Seq<Seq<u8>>) -> bool {
    forall|i: int, j: int|
        0 <= i < j < q.len() ==> lex_le(#[trigger] q[i], #[trigger] q[j]) && q[i] != q[j]
}

/// Strictly increasing sequences with the same members are equal.
pub proof fn lemma_sorted_unique(p: Seq<Seq<u8>>, q: Seq<Seq<u8>>)
    requires
        strictly_sorted(p),
        strictly_sorted(q),
        forall|x: Seq<u8>|
            #![trigger p.contains(x)]
            #![trigger q.contains(x)]
            p.contains(x) == q.contains(x),
    ensures
        p == q,
    decreases p.len(),
{
    if p.len() == 0 {
        if q.len() > 0 {
            assert(q.contains(q[0]));
        }
        assert(p =~= q);
    } else {
        assert(p.contains(p.last()));
        let i = choose|i: int| 0 <= i < q.len() && q[i] == p.last();
        assert(q.contains(q.last()));
        let j = choose|j: int| 0 <= j < p.len() && p[j] == q.last();
        lemma_lex_total(p.last(), q.last());
        if i < q.len() - 1 {
            assert(lex_le(q[i], q[q.len() - 1]) && q[i] != q.last());
        }
        if j < p.len() - 1 {
            assert(lex_le(p[j], p[p.len() - 1]) && p[j] != p.last());
        }
        assert(p.last() == q.last());
        let p2 = p.drop_last();
        let q2 = q.drop_last();
        assert forall|x: Seq<u8>|
            #![trigger p2.contains(x)]
            #![trigger q2.contains(x)]
            p2.contains(x) == q2.contains(x) by {
            if p2.contains(x) {
                let t = choose|t: int| 0 <= t < p2.len() && p2[t] == x;
                assert(p[t] == x && p.contains(x));
                let u = choose|u: int| 0 <= u < q.len() && q[u] == x;
                assert(u != q.len() - 1);
                assert(q2[u] == x);
            }
            if q2.contains(x) {
                let t = choose|t: int| 0 <= t < q2.len() && q2[t] == x;
                assert(q[t] == x && q.contains(x));
                let u = choose|u: int| 0 <= u < p.len() && p[u] == x;
                assert(u != p.len() - 1);
                assert(p2[u] == x);
            }
        }
        lemma_sorted_unique(p2, q2);
        assert(p =~= p2.push(p.last()));
        assert(q =~= q2.push(q.last()));
    }
}

} // verus!
