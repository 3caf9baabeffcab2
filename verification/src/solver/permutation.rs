//! Permutations in lexicographic order.
use vstd::prelude::*;

use crate::seqs::lemma_perm_multiset;
use crate::sorting::perm_of;

verus! {

/// Lexicographic order of number sequences.
pub open spec fn seq_le(a: Seq<usize>, b: Seq<usize>) -> bool
    decreases a.len(),
{
    if a.len() == 0 {
        true
    } else if b.len() == 0 {
        false
    } else if a[0] != b[0] {
        a[0] < b[0]
    } else {
        seq_le(a.drop_first(), b.drop_first())
    }
}

/// `b` comes strictly after `a`.
pub open spec fn seq_lt(a: Seq<usize>, b: Seq<usize>) -> bool {
    seq_le(a, b) && a != b
}

/// The numbers never rise.
pub open spec fn falling(s: Seq<usize>) -> bool {
    forall|i: int, j: int| 0 <= i < j < s.len() ==> #[trigger] s[i] >= #[trigger] s[j]
}

/// The numbers never fall.
pub open spec fn rising(s: Seq<usize>) -> bool {
    forall|i: int, j: int| 0 <= i < j < s.len() ==> #[trigger] s[i] <= #[trigger] s[j]
}

/// The same numbers, in some order.
pub open spec fn same_numbers(a: Seq<usize>, b: Seq<usize>) -> bool {
    a.to_multiset() == b.to_multiset()
}

pub proof fn lemma_seq_order(a: Seq<usize>, b: Seq<usize>)
    ensures
        seq_le(a, a),
        seq_le(a, b) || seq_le(b, a),
        seq_le(a, b) && seq_le(b, a) ==> a == b,
    decreases a.len(),
{
    if a.len() > 0 {
        lemma_seq_order(a.drop_first(), if b.len() > 0 { b.drop_first() } else { b });
        if b.len() > 0 && a[0] == b[0] && seq_le(a, b) && seq_le(b, a) {
            assert(a =~= seq![a[0]] + a.drop_first());
            assert(b =~= seq![b[0]] + b.drop_first());
        }
    } else if seq_le(b, a) {
        assert(a =~= b);
    }
}

pub proof fn lemma_seq_trans(a: Seq<usize>, b: Seq<usize>, c: Seq<usize>)
    requires
        seq_le(a, b),
        seq_le(b, c),
    ensures
        seq_le(a, c),
    decreases a.len(),
{
    if a.len() > 0 && b.len() > 0 && c.len() > 0 && a[0] == b[0] && b[0] == c[0] {
        lemma_seq_trans(a.drop_first(), b.drop_first(), c.drop_first());
    }
}

/// Sequences with the same numbers have the same length and members.
pub proof fn lemma_same_numbers(a: Seq<usize>, b: Seq<usize>)
    requires
        same_numbers(a, b),
    ensures
        a.len() == b.len(),
        forall|x: usize| #[trigger] a.contains(x) == b.contains(x),
{
    broadcast use vstd::seq_lib::group_to_multiset_ensures;

    assert(a.to_multiset().len() == b.to_multiset().len());
    assert forall|x: usize| #[trigger] a.contains(x) == b.contains(x) by {
        assert(a.to_multiset().count(x) == b.to_multiset().count(x));
    }
}

/// Dropping an equal first number leaves the same numbers.
proof fn lemma_same_tails(a: Seq<usize>, b: Seq<usize>)
    requires
        same_numbers(a, b),
        a.len() > 0,
        b.len() > 0,
        a[0] == b[0],
    ensures
        same_numbers(a.drop_first(), b.drop_first()),
{
    vstd::seq_lib::to_multiset_remove(a, 0);
    vstd::seq_lib::to_multiset_remove(b, 0);
    assert(a.remove(0) =~= a.drop_first());
    assert(b.remove(0) =~= b.drop_first());
}

/// Rising order comes first among all orders of the same numbers.
pub proof fn lemma_rising_first(a: Seq<usize>, q: Seq<usize>)
    requires
        rising(a),
        same_numbers(a, q),
    ensures
        seq_le(a, q),
    decreases a.len(),
{
    lemma_same_numbers(a, q);
    if a.len() > 0 {
        assert(q.contains(q[0]));
        assert(a.contains(q[0]));
        let t = choose|t: int| 0 <= t < a.len() && a[t] == q[0];
        if t > 0 {
            assert(a[0] <= a[t]);
        }
        if a[0] == q[0] {
            lemma_same_tails(a, q);
            assert forall|i: int, j: int| 0 <= i < j < a.drop_first().len() implies #[trigger] a.drop_first()[i] <= #[trigger] a.drop_first()[j] by {
                assert(a[i + 1] <= a[j + 1]);
            }
            lemma_rising_first(a.drop_first(), q.drop_first());
        }
    }
}

/// Falling order comes last.
pub proof fn lemma_falling_last(a: Seq<usize>, q: Seq<usize>)
    requires
        falling(a),
        same_numbers(a, q),
    ensures
        seq_le(q, a),
    decreases a.len(),
{
    lemma_same_numbers(a, q);
    if a.len() > 0 {
        assert(q.contains(q[0]));
        assert(a.contains(q[0]));
        let t = choose|t: int| 0 <= t < a.len() && a[t] == q[0];
        if t > 0 {
            assert(a[0] >= a[t]);
        }
        if a[0] == q[0] {
            lemma_same_tails(a, q);
            assert forall|i: int, j: int| 0 <= i < j < a.drop_first().len() implies #[trigger] a.drop_first()[i] >= #[trigger] a.drop_first()[j] by {
                assert(a[i + 1] >= a[j + 1]);
            }
            lemma_falling_last(a.drop_first(), q.drop_first());
        }
    }
}

/// Where a permutation takes its numbers from: place `pivot` takes the number at
/// `j`, and the numbers behind the pivot come in reverse.
spec fn step_source(n: int, pivot: int, j: int, t: int) -> int {
    if t < pivot {
        t
    } else if t == pivot {
        j
    } else {
        let u = n - 1 - (t - pivot - 1);
        if u == j {
            pivot
        } else {
            u
        }
    }
}

spec fn step_sources(n: nat, pivot: int, j: int) -> Seq<usize> {
    Seq::new(n, |t: int| step_source(n as int, pivot, j, t) as usize)
}

/// The sequence after a step.
spec fn stepped(a: Seq<usize>, pivot: int, j: int) -> Seq<usize> {
    Seq::new(a.len(), |t: int| a[step_source(a.len() as int, pivot, j, t)])
}

proof fn lemma_stepped_numbers(a: Seq<usize>, pivot: int, j: int)
    requires
        0 <= pivot < j < a.len(),
        a.len() <= usize::MAX,
    ensures
        same_numbers(a, stepped(a, pivot, j)),
{
    let n = a.len();
    let p = step_sources(n, pivot, j);
    assert forall|t: int| 0 <= t < n implies 0 <= #[trigger] step_source(n as int, pivot, j, t) < n by {}
    assert forall|t: int, u: int| 0 <= t < u < p.len() implies #[trigger] p[t] != #[trigger] p[u] by {
        assert(step_source(n as int, pivot, j, t) != step_source(n as int, pivot, j, u));
    }
    assert forall|i: usize| 0 <= i < n implies #[trigger] p.contains(i) by {
        let t = if i < pivot {
            i as int
        } else if i == j {
            pivot
        } else if i == pivot {
            n - 1 - j + pivot + 1
        } else {
            n - 1 - i + pivot + 1
        };
        assert(step_source(n as int, pivot, j, t) == i);
        assert(p[t] == i);
    }
    lemma_perm_multiset(a, p);
    assert(Seq::new(n, |t: int| a[p[t] as int]) =~= stepped(a, pivot, j));
}

/// The step leads to the next order: nothing with the same numbers lies between.
proof fn lemma_step_next(a: Seq<usize>, pivot: int, j: int, q: Seq<usize>)
    requires
        0 <= pivot < j < a.len(),
        a.len() <= usize::MAX,
        falling(a.skip(pivot + 1)),
        a[pivot] < a[j],
        forall|t: int| j < t < a.len() ==> a[t] <= a[pivot],
        same_numbers(a, q),
        seq_lt(a, q),
    ensures
        seq_le(stepped(a, pivot, j), q),
    decreases pivot,
{
    let f = stepped(a, pivot, j);
    lemma_same_numbers(a, q);
    if pivot > 0 {
        if q[0] == a[0] {
            let a1 = a.drop_first();
            let q1 = q.drop_first();
            lemma_same_tails(a, q);
            assert(a1.skip(pivot) =~= a.skip(pivot + 1));
            if a1 == q1 {
                assert(a =~= seq![a[0]] + a1);
                assert(q =~= seq![q[0]] + q1);
            }
            lemma_step_next(a1, pivot - 1, j - 1, q1);
            assert(f.drop_first() =~= stepped(a1, pivot - 1, j - 1)) by {
                assert forall|t: int| 0 <= t < a1.len() implies f.drop_first()[t] == stepped(a1, pivot - 1, j - 1)[t] by {
                    let n = a.len() as int;
                    assert(step_source(n, pivot, j, t + 1) == step_source(n - 1, pivot - 1, j - 1, t) + 1);
                }
            }
        }
    } else {
        let rest = a.skip(1);
        assert(rest =~= a.drop_first());
        assert forall|x: int, y: int| 1 <= x < y < a.len() implies #[trigger] a[x] >= #[trigger] a[y] by {
            assert(rest[x - 1] >= rest[y - 1]);
        }
        if q[0] == a[0] {
            lemma_same_tails(a, q);
            lemma_falling_last(a.drop_first(), q.drop_first());
            lemma_seq_order(a.drop_first(), q.drop_first());
            assert(a =~= seq![a[0]] + a.drop_first());
            assert(q =~= seq![q[0]] + q.drop_first());
        } else {
            assert(q[0] > a[0]);
            assert(q.contains(q[0]));
            assert(a.contains(q[0]));
            let t = choose|t: int| 0 <= t < a.len() && a[t] == q[0];
            assert(1 <= t <= j);
            if t < j {
                assert(a[t] >= a[j]);
            }
            assert(q[0] >= a[j]);
            assert(f[0] == a[j]);
            if q[0] == a[j] {
                lemma_stepped_numbers(a, 0, j);
                lemma_same_tails(f, q);
                let f1 = f.drop_first();
                assert forall|x: int, y: int| 0 <= x < y < f1.len() implies #[trigger] f1[x] <= #[trigger] f1[y] by {
                    let n = a.len() as int;
                    let u = n - 1 - x;
                    let v = n - 1 - y;
                    assert(f1[x] == if u == j { a[0] } else { a[u] });
                    assert(f1[y] == if v == j { a[0] } else { a[v] });
                    assert(1 <= v < u);
                    assert(a[v] >= a[u]);
                    if u == j {
                        if v < j {
                            assert(a[v] >= a[j]);
                        }
                    } else if v == j {
                        assert(a[u] <= a[0]);
                    }
                }
                lemma_rising_first(f1, q.drop_first());
            }
        }
    }
}

/// A step goes forward.
proof fn lemma_step_forward(a: Seq<usize>, pivot: int, j: int)
    requires
        0 <= pivot < j < a.len(),
        a[pivot] < a[j],
    ensures
        seq_lt(a, stepped(a, pivot, j)),
    decreases pivot,
{
    let f = stepped(a, pivot, j);
    if pivot > 0 {
        let a1 = a.drop_first();
        lemma_step_forward(a1, pivot - 1, j - 1);
        assert(f.drop_first() =~= stepped(a1, pivot - 1, j - 1)) by {
            assert forall|t: int| 0 <= t < a1.len() implies f.drop_first()[t] == stepped(a1, pivot - 1, j - 1)[t] by {
                let n = a.len() as int;
                assert(step_source(n, pivot, j, t + 1) == step_source(n - 1, pivot - 1, j - 1, t) + 1);
            }
        }
        assert(f[0] == a[0]);
        if a == f {
            assert(a1 == f.drop_first());
        }
    } else {
        assert(f[0] == a[j]);
    }
}

/// Advance to the next permutation in lexicographic order. Returns false, and
/// changes nothing, at the last one.
pub fn next_permutation(arr: &mut Vec<usize>) -> (r: bool)
    ensures
        r == !falling(old(arr)@),
        !r ==> final(arr)@ == old(arr)@,
        same_numbers(old(arr)@, final(arr)@),
        final(arr)@.len() == old(arr)@.len(),
        r ==> seq_lt(old(arr)@, final(arr)@),
        r ==> forall|q: Seq<usize>| #[trigger]
            same_numbers(old(arr)@, q) && seq_lt(old(arr)@, q) ==> seq_le(final(arr)@, q),
        !r ==> forall|q: Seq<usize>| #[trigger] same_numbers(old(arr)@, q) ==> seq_le(q, old(arr)@),
{
    let ghost a = arr@;
    let n: usize = arr.len();
    if n <= 1 {
        proof {
            assert forall|q: Seq<usize>| #[trigger] same_numbers(a, q) implies seq_le(q, a) by {
                lemma_falling_last(a, q);
            }
        }
        return false;
    }
    let mut i: usize = n - 1;
    while i > 0 && arr[i - 1] >= arr[i]
        invariant
            0 <= i < n,
            n == arr@.len(),
            arr@ == a,
            falling(a.skip(i as int)),
        decreases i,
    {
        proof {
            let s = a.skip(i - 1);
            let t = a.skip(i as int);
            assert forall|x: int, y: int| 0 <= x < y < s.len() implies #[trigger] s[x] >= #[trigger] s[y] by {
                if x == 0 {
                    assert(s[0] >= t[0]);
                    if y > 1 {
                        assert(t[0] >= t[y - 1]);
                    }
                } else {
                    assert(t[x - 1] >= t[y - 1]);
                }
            }
        }
        i -= 1;
    }
    if i == 0 {
        proof {
            assert(a.skip(0) =~= a);
            assert forall|q: Seq<usize>| #[trigger] same_numbers(a, q) implies seq_le(q, a) by {
                lemma_falling_last(a, q);
            }
        }
        return false;
    }
    let pivot: usize = i - 1;
    let mut j: usize = n - 1;
    while arr[j] <= arr[pivot]
        invariant
            pivot < j < n,
            i == pivot + 1,
            n == arr@.len(),
            arr@ == a,
            a[pivot as int] < a[i as int],
            forall|t: int| j < t < n ==> a[t] <= a[pivot as int],
        decreases j,
    {
        j -= 1;
    }
    let mut out: Vec<usize> = Vec::new();
    let mut t: usize = 0;
    while t < n
        invariant
            t <= n,
            n == arr@.len(),
            arr@ == a,
            0 <= pivot < j < n,
            out@.len() == t,
            forall|u: int| 0 <= u < t ==> #[trigger] out@[u] == stepped(a, pivot as int, j as int)[u],
        decreases n - t,
    {
        let source: usize = if t < pivot {
            t
        } else if t == pivot {
            j
        } else {
            let u: usize = n - 1 - (t - pivot - 1);
            if u == j {
                pivot
            } else {
                u
            }
        };
        out.push(arr[source]);
        t += 1;
    }
    proof {
        let f = stepped(a, pivot as int, j as int);
        assert(out@ =~= f);
        lemma_stepped_numbers(a, pivot as int, j as int);
        lemma_step_forward(a, pivot as int, j as int);
        assert forall|q: Seq<usize>| #[trigger] same_numbers(a, q) && seq_lt(a, q) implies seq_le(f, q) by {
            lemma_step_next(a, pivot as int, j as int, q);
        }
        assert(!falling(a)) by {
            assert(a[pivot as int] < a[i as int]);
        }
    }
    *arr = out;
    true
}

/// A sequence of numbers below `base`, read as one number.
pub open spec fn code(s: Seq<usize>, base: nat) -> nat
    decreases s.len(),
{
    if s.len() == 0 {
        0
    } else {
        code(s.drop_last(), base) * base + s.last() as nat
    }
}

/// The least number above every code of length `n`.
pub open spec fn code_limit(n: nat, base: nat) -> nat
    decreases n,
{
    if n == 0 {
        1
    } else {
        code_limit((n - 1) as nat, base) * base
    }
}

pub proof fn lemma_code_limit(s: Seq<usize>, base: nat)
    requires
        forall|i: int| 0 <= i < s.len() ==> (#[trigger] s[i]) < base,
    ensures
        code(s, base) < code_limit(s.len(), base),
    decreases s.len(),
{
    if s.len() > 0 {
        let t = s.drop_last();
        assert forall|i: int| 0 <= i < t.len() implies (#[trigger] t[i]) < base by {
            assert(t[i] == s[i]);
        }
        lemma_code_limit(t, base);
        assert(s[s.len() - 1] < base);
        let c = code(t, base) as int;
        let l = code_limit(t.len(), base) as int;
        assert(c * base + base <= l * base) by (nonlinear_arith)
            requires
                c + 1 <= l,
                base >= 0,
        ;
    }
}

/// Lexicographic order of two sequences in terms of all but their last numbers.
proof fn lemma_seq_snoc(a: Seq<usize>, b: Seq<usize>)
    requires
        a.len() == b.len(),
        a.len() > 0,
    ensures
        seq_le(a, b) == if a.drop_last() == b.drop_last() {
            a.last() <= b.last()
        } else {
            seq_le(a.drop_last(), b.drop_last())
        },
    decreases a.len(),
{
    let a1 = a.drop_last();
    let b1 = b.drop_last();
    if a.len() == 1 {
        assert(a1 =~= b1);
        assert(seq_le(a.drop_first(), b.drop_first()));
    } else {
        lemma_seq_snoc(a.drop_first(), b.drop_first());
        assert(a.drop_first().drop_last() =~= a1.drop_first());
        assert(b.drop_first().drop_last() =~= b1.drop_first());
        if a1 == b1 {
            assert(a[0] == a1[0] && b[0] == b1[0]);
        } else if a[0] == b[0] {
            if a1.drop_first() == b1.drop_first() {
                assert(a1 =~= seq![a[0]] + a1.drop_first());
                assert(b1 =~= seq![b[0]] + b1.drop_first());
            }
        }
    }
}

/// Codes rise with lexicographic order.
pub proof fn lemma_code_rises(a: Seq<usize>, b: Seq<usize>, base: nat)
    requires
        a.len() == b.len(),
        forall|i: int| 0 <= i < a.len() ==> (#[trigger] a[i]) < base,
        forall|i: int| 0 <= i < b.len() ==> (#[trigger] b[i]) < base,
        seq_lt(a, b),
    ensures
        code(a, base) < code(b, base),
    decreases a.len(),
{
    if a.len() == 0 {
        assert(a =~= b);
    } else {
        lemma_seq_snoc(a, b);
        let a1 = a.drop_last();
        let b1 = b.drop_last();
        assert forall|i: int| 0 <= i < a1.len() implies (#[trigger] a1[i]) < base by {
            assert(a1[i] == a[i]);
        }
        assert forall|i: int| 0 <= i < b1.len() implies (#[trigger] b1[i]) < base by {
            assert(b1[i] == b[i]);
        }
        assert(a[a.len() - 1] < base && b[b.len() - 1] < base);
        if a1 == b1 {
            if a.last() == b.last() {
                assert(a =~= a1.push(a.last()));
                assert(b =~= b1.push(b.last()));
            }
        } else {
            lemma_code_rises(a1, b1, base);
            let x = code(a1, base) as int;
            let y = code(b1, base) as int;
            assert(x * base + base <= y * base) by (nonlinear_arith)
                requires
                    x + 1 <= y,
                    base >= 0,
            ;
        }
    }
}

/// A sequence with the numbers of `0` to `n - 1` lists each of them once.
pub proof fn lemma_numbers_perm(p: Seq<usize>, q: Seq<usize>, n: int)
    requires
        perm_of(p, 0, n),
        same_numbers(p, q),
    ensures
        perm_of(q, 0, n),
{
    lemma_same_numbers(p, q);
    assert forall|t: int| 0 <= t < q.len() implies 0 <= #[trigger] q[t] < n by {
        assert(q.contains(q[t]));
        assert(p.contains(q[t]));
    }
    assert(p.no_duplicates());
    p.lemma_multiset_has_no_duplicates();
    assert(q.no_duplicates()) by {
        q.lemma_multiset_has_no_duplicates_conv();
    }
    assert forall|i: usize| 0 <= i < n implies #[trigger] q.contains(i) by {
        assert(p.contains(i));
    }
}

/// Two lists of the numbers `0` to `n - 1` have the same numbers.
pub proof fn lemma_perm_numbers(p: Seq<usize>, q: Seq<usize>, n: int)
    requires
        perm_of(p, 0, n),
        perm_of(q, 0, n),
        n <= usize::MAX,
    ensures
        same_numbers(p, q),
{
    let id = Seq::new(n as nat, |i: int| i as usize);
    lemma_perm_multiset(id, p);
    lemma_perm_multiset(id, q);
    assert(Seq::new(n as nat, |t: int| id[p[t] as int]) =~= p);
    assert(Seq::new(n as nat, |t: int| id[q[t] as int]) =~= q);
}

} // verus!
