//! Facts about sequences that several modules share.
use vstd::prelude::*;

use crate::sorting::perm_of;

verus! {

/// A filtered sequence holds exactly the members that pass.
pub proof fn lemma_filter<A>(s: Seq<A>, pred: spec_fn(A) -> bool)
    ensures
        forall|x: A|
            #![trigger s.filter(pred).contains(x)]
            s.filter(pred).contains(x) == (s.contains(x) && pred(x)),
        forall|i: int| 0 <= i < s.filter(pred).len() ==> pred(#[trigger] s.filter(pred)[i]) && s.contains(s.filter(pred)[i]),
        forall|i: int| 0 <= i < s.len() && pred(#[trigger] s[i]) ==> s.filter(pred).contains(s[i]),
        s.filter(pred).len() <= s.len(),
        s.no_duplicates() ==> s.filter(pred).no_duplicates(),
    decreases s.len(),
{
    reveal(Seq::filter);
    let f = s.filter(pred);
    if s.len() > 0 {
        let t = s.drop_last();
        let ft = t.filter(pred);
        lemma_filter(t, pred);
        assert forall|x: A| f.contains(x) == (s.contains(x) && pred(x)) by {
            if s.contains(x) && pred(x) {
                let i = choose|i: int| 0 <= i < s.len() && s[i] == x;
                if i < s.len() - 1 {
                    assert(t[i] == x);
                    assert(ft.contains(x));
                    let j = choose|j: int| 0 <= j < ft.len() && ft[j] == x;
                    assert(f[j] == x);
                } else {
                    assert(f[f.len() - 1] == x);
                }
            }
            if f.contains(x) {
                let j = choose|j: int| 0 <= j < f.len() && f[j] == x;
                if j < ft.len() {
                    assert(ft[j] == x);
                    assert(ft.contains(x));
                    let i = choose|i: int| 0 <= i < t.len() && t[i] == x;
                    assert(s[i] == x);
                } else {
                    assert(s[s.len() - 1] == x);
                }
            }
        }
        assert forall|i: int| 0 <= i < f.len() implies pred(#[trigger] f[i]) && s.contains(f[i]) by {
            assert(f.contains(f[i]));
        }
        if s.no_duplicates() {
            assert(t.no_duplicates());
            assert forall|i: int, j: int| 0 <= i < f.len() && 0 <= j < f.len() && i != j implies f[i] != f[j] by {
                if i < ft.len() && j < ft.len() {
                    assert(ft[i] != ft[j]);
                } else {
                    let k = if i < ft.len() { i } else { j };
                    assert(ft.contains(ft[k]));
                    let u = choose|u: int| 0 <= u < t.len() && t[u] == ft[k];
                    assert(s[u] != s[s.len() - 1]);
                }
            }
        }
    }
}

/// A filter that drops nothing changes nothing.
pub proof fn lemma_filter_full<A>(s: Seq<A>, pred: spec_fn(A) -> bool)
    requires
        s.filter(pred).len() == s.len(),
    ensures
        s.filter(pred) == s,
    decreases s.len(),
{
    reveal(Seq::filter);
    if s.len() > 0 {
        lemma_filter(s.drop_last(), pred);
        lemma_filter_full(s.drop_last(), pred);
        assert(s =~= s.drop_last().push(s.last()));
    } else {
        assert(s.filter(pred) =~= s);
    }
}

/// Filtering twice is filtering by both.
pub proof fn lemma_filter_filter<A>(s: Seq<A>, f: spec_fn(A) -> bool, g: spec_fn(A) -> bool, h: spec_fn(A) -> bool)
    requires
        forall|i: int| 0 <= i < s.len() ==> h(#[trigger] s[i]) == (f(s[i]) && g(s[i])),
    ensures
        s.filter(h) == s.filter(f).filter(g),
    decreases s.len(),
{
    reveal(Seq::filter);
    if s.len() > 0 {
        let t = s.drop_last();
        assert forall|i: int| 0 <= i < t.len() implies h(#[trigger] t[i]) == (f(t[i]) && g(t[i])) by {
            assert(t[i] == s[i]);
        }
        lemma_filter_filter(t, f, g, h);
        assert(h(s[s.len() - 1]) == (f(s[s.len() - 1]) && g(s[s.len() - 1])));
        if f(s.last()) {
            let u = t.filter(f).push(s.last());
            assert(u.drop_last() =~= t.filter(f));
        }
    }
}

/// A filter that everything passes changes nothing.
pub proof fn lemma_filter_all<A>(s: Seq<A>, f: spec_fn(A) -> bool)
    requires
        forall|i: int| 0 <= i < s.len() ==> f(#[trigger] s[i]),
    ensures
        s.filter(f) == s,
    decreases s.len(),
{
    reveal(Seq::filter);
    if s.len() > 0 {
        let t = s.drop_last();
        assert forall|i: int| 0 <= i < t.len() implies f(#[trigger] t[i]) by {
            assert(t[i] == s[i]);
        }
        lemma_filter_all(t, f);
        assert(f(s[s.len() - 1]));
        assert(s =~= t.push(s.last()));
    } else {
        assert(s.filter(f) =~= s);
    }
}

/// Filtering one more item.
pub proof fn lemma_filter_take<A>(s: Seq<A>, pred: spec_fn(A) -> bool, i: int)
    requires
        0 <= i < s.len(),
    ensures
        s.take(i + 1).filter(pred) == if pred(s[i]) {
            s.take(i).filter(pred).push(s[i])
        } else {
            s.take(i).filter(pred)
        },
{
    reveal(Seq::filter);
    assert(s.take(i + 1).drop_last() =~= s.take(i));
}

/// Reordering a sequence keeps its members with their counts.
pub proof fn lemma_perm_multiset<A>(s: Seq<A>, p: Seq<usize>)
    requires
        perm_of(p, 0, s.len() as int),
        s.len() <= usize::MAX,
    ensures
        Seq::new(s.len(), |t: int| s[p[t] as int]).to_multiset() == s.to_multiset(),
    decreases s.len(),
{
    let out = Seq::new(s.len(), |t: int| s[p[t] as int]);
    if s.len() == 0 {
        assert(out =~= s);
    } else {
        let n = (s.len() - 1) as usize;
        assert(p[0] < s.len());
        assert(p.contains(n));
        let t = choose|t: int| 0 <= t < p.len() && p[t] == n;
        let p2 = p.remove(t);
        let s2 = s.drop_last();
        assert forall|u: int| 0 <= u < p2.len() implies 0 <= #[trigger] p2[u] < n by {
            let v = if u < t { u } else { u + 1 };
            assert(p2[u] == p[v]);
            assert(p[v] != p[t]);
        }
        assert forall|u: int, v: int| 0 <= u < v < p2.len() implies #[trigger] p2[u] != #[trigger] p2[v] by {
            let u1 = if u < t { u } else { u + 1 };
            let v1 = if v < t { v } else { v + 1 };
            assert(p[u1] != p[v1]);
        }
        assert forall|i: usize| 0 <= i < n implies #[trigger] p2.contains(i) by {
            assert(p.contains(i));
            let u = choose|u: int| 0 <= u < p.len() && p[u] == i;
            let v = if u < t { u } else { u - 1 };
            assert(p2[v] == i);
        }
        lemma_perm_multiset(s2, p2);
        let out2 = Seq::new(s2.len(), |u: int| s2[p2[u] as int]);
        assert(out.remove(t) =~= out2);
        vstd::seq_lib::to_multiset_remove(out, t);
        assert(out[t] == s.last());
        assert(s =~= s2.push(s.last()));
        vstd::seq_lib::to_multiset_build(s2, s.last());
        broadcast use vstd::seq_lib::group_to_multiset_ensures;
        assert(out.contains(out[t]));
        assert(out.to_multiset().count(out[t]) > 0);
        assert(out.to_multiset() =~= out2.to_multiset().insert(s.last()));
    }
}

} // verus!
