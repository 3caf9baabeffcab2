//! The mathematical game: what it means for the guesser to finish within a
//! budget of misses, and the laws of that notion.
//!
//! A position is a set of words that are still possible together with the set
//! of letters that have been guessed. Words are byte sequences; the byte zero
//! is a blank and never a letter.
use vstd::prelude::*;

verus! {

/// Letter `l` stands at place `j` of word `w`.
pub open spec fn at(w: Seq<u8>, j: int, l: u8) -> bool {
    0 <= j < w.len() && w[j] == l
}

/// Letter `l` stands somewhere in word `w`.
pub open spec fn occurs(l: u8, w: Seq<u8>) -> bool {
    exists|j: int| #[trigger] at(w, j, l)
}

/// The referee gives the same answer to letter `l` for `a` and for `b`.
pub open spec fn same_places(l: u8, a: Seq<u8>, b: Seq<u8>) -> bool {
    forall|j: int| #![trigger at(a, j, l)] #![trigger at(b, j, l)] at(a, j, l) == at(b, j, l)
}

/// Letter `l` has not been guessed and stands in some possible word.
pub open spec fn is_open(s: Set<Seq<u8>>, g: Set<u8>, l: u8) -> bool {
    l != 0 && !g.contains(l) && exists|w: Seq<u8>| #[trigger] s.contains(w) && occurs(l, w)
}

/// No letter is open: every possible word is fully revealed.
pub open spec fn no_open(s: Set<Seq<u8>>, g: Set<u8>) -> bool {
    forall|l: u8| !#[trigger] is_open(s, g, l)
}

/// The words that remain when the referee answers letter `l` as for word `w`.
pub open spec fn reply(s: Set<Seq<u8>>, l: u8, w: Seq<u8>) -> Set<Seq<u8>> {
    s.filter(|v: Seq<u8>| same_places(l, w, v))
}

/// What guessing `l` costs when the answer is the one for `w`.
pub open spec fn cost(l: u8, w: Seq<u8>) -> int {
    if occurs(l, w) {
        0
    } else {
        1
    }
}

/// How many byte values below `n` have not been guessed.
pub open spec fn unguessed(g: Set<u8>, n: nat) -> nat
    decreases n,
{
    if n == 0 {
        0
    } else {
        unguessed(g, (n - 1) as nat) + if g.contains((n - 1) as u8) {
            0nat
        } else {
            1nat
        }
    }
}

/// The guesser can learn the word with at most `b` misses, whatever the
/// referee answers: either nothing is left to reveal, or some open letter
/// leads, for every answer, to a position that the guesser can finish within
/// what remains of the budget.
pub open spec fn wins(s: Set<Seq<u8>>, g: Set<u8>, b: int) -> bool
    decreases unguessed(g, 256),
    via wins_decreases
{
    b >= 0 && (no_open(s, g) || exists|l: u8| #[trigger]
        is_open(s, g, l) && forall|w: Seq<u8>| #[trigger]
            s.contains(w) ==> wins(reply(s, l, w), g.insert(l), b - cost(l, w)))
}

#[via_fn]
proof fn wins_decreases(s: Set<Seq<u8>>, g: Set<u8>, b: int) {
    assert forall|l: u8| #[trigger] is_open(s, g, l) implies unguessed(g.insert(l), 256)
        < unguessed(g, 256) by {
        lemma_unguessed_insert(g, l, 256);
    }
}

/// The guesser finishes within `b` misses by guessing `l` now.
pub open spec fn guess_wins(s: Set<Seq<u8>>, g: Set<u8>, l: u8, b: int) -> bool {
    forall|w: Seq<u8>| #[trigger]
        s.contains(w) ==> wins(reply(s, l, w), g.insert(l), b - cost(l, w))
}

/// The least budget up to `n` within which the guesser finishes.
pub open spec fn least_budget(s: Set<Seq<u8>>, g: Set<u8>, n: nat) -> nat
    decreases n,
{
    if n == 0 || !wins(s, g, n - 1) {
        n
    } else {
        least_budget(s, g, (n - 1) as nat)
    }
}

/// The minimax value of a position: the number of misses under best play by
/// both sides.
pub open spec fn value(s: Set<Seq<u8>>, g: Set<u8>) -> nat {
    least_budget(s, g, 256)
}

/// The number of misses that guessing `l` now leads to under best play.
pub open spec fn is_guess_value(s: Set<Seq<u8>>, g: Set<u8>, l: u8, v: int) -> bool {
    guess_wins(s, g, l, v) && !guess_wins(s, g, l, v - 1)
}

/// Letter `l` stands in every possible word.
pub open spec fn required(s: Set<Seq<u8>>, l: u8) -> bool {
    forall|w: Seq<u8>| #[trigger] s.contains(w) ==> occurs(l, w)
}

/// The referee has only one answer to letter `l`.
pub open spec fn uniform(s: Set<Seq<u8>>, l: u8) -> bool {
    forall|v: Seq<u8>, w: Seq<u8>| #[trigger]
        s.contains(v) && #[trigger] s.contains(w) ==> same_places(l, v, w)
}

/// The possible words that do not hold letter `l`.
pub open spec fn without(s: Set<Seq<u8>>, l: u8) -> Set<Seq<u8>> {
    s.filter(|v: Seq<u8>| !occurs(l, v))
}

/// How many byte values below `n` are open but not required.
pub open spec fn risky(s: Set<Seq<u8>>, g: Set<u8>, n: nat) -> nat
    decreases n,
{
    if n == 0 {
        0
    } else {
        risky(s, g, (n - 1) as nat) + if is_open(s, g, (n - 1) as u8) && !required(
            s,
            (n - 1) as u8,
        ) {
            1nat
        } else {
            0nat
        }
    }
}

/// How many byte values below `n` are open.
pub open spec fn open_count(s: Set<Seq<u8>>, g: Set<u8>, n: nat) -> nat
    decreases n,
{
    if n == 0 {
        0
    } else {
        open_count(s, g, (n - 1) as nat) + if is_open(s, g, (n - 1) as u8) {
            1nat
        } else {
            0nat
        }
    }
}

proof fn lemma_unguessed_insert(g: Set<u8>, l: u8, n: nat)
    requires
        !g.contains(l),
        n <= 256,
    ensures
        l < n ==> unguessed(g.insert(l), n) == unguessed(g, n) - 1,
        l >= n ==> unguessed(g.insert(l), n) == unguessed(g, n),
    decreases n,
{
    if n > 0 {
        lemma_unguessed_insert(g, l, (n - 1) as nat);
    }
}

pub proof fn lemma_unguessed_less(g: Set<u8>, l: u8)
    requires
        !g.contains(l),
    ensures
        unguessed(g.insert(l), 256) < unguessed(g, 256),
{
    lemma_unguessed_insert(g, l, 256);
}

/// A winning guess makes a winning position.
pub proof fn lemma_guess_to_wins(s: Set<Seq<u8>>, g: Set<u8>, l: u8, b: int)
    requires
        is_open(s, g, l),
        guess_wins(s, g, l, b),
    ensures
        wins(s, g, b),
{
    let w = choose|w: Seq<u8>| #[trigger] s.contains(w) && occurs(l, w);
    assert(wins(reply(s, l, w), g.insert(l), b - cost(l, w)));
}

/// A larger budget never hurts the guesser. Guessing a letter that no possible
/// word holds only spends a miss, so it never helps either.
pub proof fn lemma_more_budget(s: Set<Seq<u8>>, g: Set<u8>, b: int, c: int)
    requires
        wins(s, g, b),
        b <= c,
    ensures
        wins(s, g, c),
    decreases unguessed(g, 256),
{
    if !no_open(s, g) {
        let l = choose|l: u8| #[trigger] is_open(s, g, l) && guess_wins(s, g, l, b);
        lemma_guess_more_budget(s, g, l, b, c);
        lemma_guess_to_wins(s, g, l, c);
    }
}

pub proof fn lemma_guess_more_budget(s: Set<Seq<u8>>, g: Set<u8>, l: u8, b: int, c: int)
    requires
        !g.contains(l),
        guess_wins(s, g, l, b),
        b <= c,
    ensures
        guess_wins(s, g, l, c),
    decreases unguessed(g, 256), 0int,
{
    lemma_unguessed_less(g, l);
    assert forall|w: Seq<u8>| #[trigger] s.contains(w) implies wins(
        reply(s, l, w),
        g.insert(l),
        c - cost(l, w),
    ) by {
        lemma_more_budget(reply(s, l, w), g.insert(l), b - cost(l, w), c - cost(l, w));
    }
}

/// Some word of `t` is paired with `w`.
#[verifier::opaque]
pub open spec fn paired_left(t: Set<Seq<u8>>, r: spec_fn(Seq<u8>, Seq<u8>) -> bool, w: Seq<u8>) -> bool {
    exists|v: Seq<u8>| #[trigger] t.contains(v) && r(w, v)
}

/// Some word of `s` is paired with `v`.
#[verifier::opaque]
pub open spec fn paired_right(s: Set<Seq<u8>>, r: spec_fn(Seq<u8>, Seq<u8>) -> bool, v: Seq<u8>) -> bool {
    exists|w: Seq<u8>| #[trigger] s.contains(w) && r(w, v)
}

/// Some open letter is renamed to `m`.
#[verifier::opaque]
pub open spec fn renamed_to(s: Set<Seq<u8>>, g: Set<u8>, f: spec_fn(u8) -> u8, m: u8) -> bool {
    exists|l: u8| #[trigger] is_open(s, g, l) && f(l) == m
}

/// Paired words hold corresponding letters.
#[verifier::opaque]
pub open spec fn hits_match(
    s: Set<Seq<u8>>,
    g: Set<u8>,
    t: Set<Seq<u8>>,
    r: spec_fn(Seq<u8>, Seq<u8>) -> bool,
    f: spec_fn(u8) -> u8,
) -> bool {
    forall|w: Seq<u8>, v: Seq<u8>, l: u8|
        #![trigger r(w, v), is_open(s, g, l)]
        s.contains(w) && t.contains(v) && r(w, v) && is_open(s, g, l) ==> occurs(l, w) == occurs(
            f(l),
            v,
        )
}

/// The referee answers alike for two words exactly when it does for the words
/// paired with them.
#[verifier::opaque]
pub open spec fn answers_match(
    s: Set<Seq<u8>>,
    g: Set<u8>,
    t: Set<Seq<u8>>,
    r: spec_fn(Seq<u8>, Seq<u8>) -> bool,
    f: spec_fn(u8) -> u8,
) -> bool {
    forall|w: Seq<u8>, v: Seq<u8>, w2: Seq<u8>, v2: Seq<u8>, l: u8|
        #![trigger r(w, v), r(w2, v2), is_open(s, g, l)]
        s.contains(w) && t.contains(v) && r(w, v) && s.contains(w2) && t.contains(v2) && r(w2, v2)
            && is_open(s, g, l) ==> same_places(l, w, w2) == same_places(f(l), v, v2)
}

/// Two positions play alike: `r` pairs their words, `f` renames the open
/// letters of the first to those of the second, and the referee's answers
/// correspond.
pub open spec fn alike(
    s: Set<Seq<u8>>,
    g: Set<u8>,
    t: Set<Seq<u8>>,
    h: Set<u8>,
    r: spec_fn(Seq<u8>, Seq<u8>) -> bool,
    f: spec_fn(u8) -> u8,
) -> bool {
    &&& forall|w: Seq<u8>| #[trigger] s.contains(w) ==> paired_left(t, r, w)
    &&& forall|v: Seq<u8>| #[trigger] t.contains(v) ==> paired_right(s, r, v)
    &&& forall|l: u8| #[trigger] is_open(s, g, l) ==> is_open(t, h, f(l))
    &&& forall|m: u8| #[trigger] is_open(t, h, m) ==> renamed_to(s, g, f, m)
    &&& forall|l: u8, m: u8| #[trigger]
        is_open(s, g, l) && #[trigger] is_open(s, g, m) && f(l) == f(m) ==> l == m
    &&& hits_match(s, g, t, r, f)
    &&& answers_match(s, g, t, r, f)
}

proof fn lemma_hit_matches(
    s: Set<Seq<u8>>,
    g: Set<u8>,
    t: Set<Seq<u8>>,
    r: spec_fn(Seq<u8>, Seq<u8>) -> bool,
    f: spec_fn(u8) -> u8,
    l: u8,
    w: Seq<u8>,
    v: Seq<u8>,
)
    requires
        hits_match(s, g, t, r, f),
        is_open(s, g, l),
        s.contains(w),
        t.contains(v),
        r(w, v),
    ensures
        occurs(l, w) == occurs(f(l), v),
{
    reveal(hits_match);
}

proof fn lemma_answer_matches(
    s: Set<Seq<u8>>,
    g: Set<u8>,
    t: Set<Seq<u8>>,
    r: spec_fn(Seq<u8>, Seq<u8>) -> bool,
    f: spec_fn(u8) -> u8,
    l: u8,
    w: Seq<u8>,
    v: Seq<u8>,
    w2: Seq<u8>,
    v2: Seq<u8>,
)
    requires
        answers_match(s, g, t, r, f),
        is_open(s, g, l),
        s.contains(w),
        t.contains(v),
        r(w, v),
        s.contains(w2),
        t.contains(v2),
        r(w2, v2),
    ensures
        same_places(l, w, w2) == same_places(f(l), v, v2),
{
    reveal(answers_match);
}

/// Letters open after an answer were open before.
pub proof fn lemma_open_before(s: Set<Seq<u8>>, g: Set<u8>, t: Set<Seq<u8>>, h: Set<u8>, m: u8)
    requires
        is_open(t, h, m),
        t.subset_of(s),
        g.subset_of(h),
    ensures
        is_open(s, g, m),
        !h.contains(m),
{
    let a = choose|a: Seq<u8>| #[trigger] t.contains(a) && occurs(m, a);
    assert(s.contains(a));
}

/// Positions that play alike still do after corresponding answers.
proof fn lemma_alike_reply(
    s: Set<Seq<u8>>,
    g: Set<u8>,
    t: Set<Seq<u8>>,
    h: Set<u8>,
    r: spec_fn(Seq<u8>, Seq<u8>) -> bool,
    f: spec_fn(u8) -> u8,
    l: u8,
    w: Seq<u8>,
    v: Seq<u8>,
)
    requires
        alike(s, g, t, h, r, f),
        is_open(s, g, l),
        s.contains(w),
        t.contains(v),
        r(w, v),
    ensures
        alike(reply(s, l, w), g.insert(l), reply(t, f(l), v), h.insert(f(l)), r, f),
{
    let s2 = reply(s, l, w);
    let t2 = reply(t, f(l), v);
    let g2 = g.insert(l);
    let h2 = h.insert(f(l));
    assert forall|a: Seq<u8>| #[trigger] s2.contains(a) implies paired_left(t2, r, a) by {
        reveal(paired_left);
        assert(s.contains(a));
        let b = choose|b: Seq<u8>| #[trigger] t.contains(b) && r(a, b);
        lemma_answer_matches(s, g, t, r, f, l, w, v, a, b);
        assert(t2.contains(b));
    }
    assert forall|b: Seq<u8>| #[trigger] t2.contains(b) implies paired_right(s2, r, b) by {
        reveal(paired_right);
        assert(t.contains(b));
        let a = choose|a: Seq<u8>| #[trigger] s.contains(a) && r(a, b);
        lemma_answer_matches(s, g, t, r, f, l, w, v, a, b);
        assert(s2.contains(a));
    }
    assert forall|m: u8| #[trigger] is_open(s2, g2, m) implies is_open(s, g, m) && is_open(
        t2,
        h2,
        f(m),
    ) by {
        reveal(paired_left);
        let a = choose|a: Seq<u8>| #[trigger] s2.contains(a) && occurs(m, a);
        lemma_open_before(s, g, s2, g2, m);
        assert(is_open(t, h, f(m)));
        assert(f(m) != f(l));
        let b = choose|b: Seq<u8>| #[trigger] t2.contains(b) && r(a, b);
        assert(paired_left(t2, r, a));
        assert(t.contains(b) && s.contains(a));
        lemma_hit_matches(s, g, t, r, f, m, a, b);
    }
    assert forall|m2: u8| #[trigger] is_open(t2, h2, m2) implies renamed_to(s2, g2, f, m2) by {
        reveal(paired_right);
        reveal(renamed_to);
        let b = choose|b: Seq<u8>| #[trigger] t2.contains(b) && occurs(m2, b);
        lemma_open_before(t, h, t2, h2, m2);
        let m = choose|m: u8| #[trigger] is_open(s, g, m) && f(m) == m2;
        assert(paired_right(s2, r, b));
        let a = choose|a: Seq<u8>| #[trigger] s2.contains(a) && r(a, b);
        assert(s.contains(a) && t.contains(b));
        lemma_hit_matches(s, g, t, r, f, m, a, b);
        assert(m != l);
        assert(is_open(s2, g2, m));
    }
    assert(hits_match(s2, g2, t2, r, f)) by {
        reveal(hits_match);
    }
    assert(answers_match(s2, g2, t2, r, f)) by {
        reveal(answers_match);
    }
}

/// Positions that play alike have the same winning budgets.
pub proof fn lemma_alike_wins(
    s: Set<Seq<u8>>,
    g: Set<u8>,
    t: Set<Seq<u8>>,
    h: Set<u8>,
    r: spec_fn(Seq<u8>, Seq<u8>) -> bool,
    f: spec_fn(u8) -> u8,
    b: int,
)
    requires
        alike(s, g, t, h, r, f),
    ensures
        wins(s, g, b) == wins(t, h, b),
    decreases unguessed(g, 256),
{
    assert(no_open(s, g) == no_open(t, h)) by {
        reveal(renamed_to);
        if no_open(s, g) && !no_open(t, h) {
            let m = choose|m: u8| #[trigger] is_open(t, h, m);
            assert(renamed_to(s, g, f, m));
        }
        if no_open(t, h) && !no_open(s, g) {
            let l = choose|l: u8| #[trigger] is_open(s, g, l);
            assert(is_open(t, h, f(l)));
        }
    }
    if wins(s, g, b) && !no_open(s, g) {
        let l = choose|l: u8| #[trigger] is_open(s, g, l) && guess_wins(s, g, l, b);
        lemma_unguessed_less(g, l);
        assert forall|v: Seq<u8>| #[trigger] t.contains(v) implies wins(
            reply(t, f(l), v),
            h.insert(f(l)),
            b - cost(f(l), v),
        ) by {
            reveal(paired_right);
            let w = choose|w: Seq<u8>| #[trigger] s.contains(w) && r(w, v);
            lemma_alike_reply(s, g, t, h, r, f, l, w, v);
            lemma_alike_wins(
                reply(s, l, w),
                g.insert(l),
                reply(t, f(l), v),
                h.insert(f(l)),
                r,
                f,
                b - cost(l, w),
            );
            lemma_hit_matches(s, g, t, r, f, l, w, v);
        }
        assert(guess_wins(t, h, f(l), b));
        lemma_guess_to_wins(t, h, f(l), b);
    }
    if wins(t, h, b) && !no_open(t, h) {
        let m = choose|m: u8| #[trigger] is_open(t, h, m) && guess_wins(t, h, m, b);
        let l = choose|l: u8| #[trigger] is_open(s, g, l) && f(l) == m;
        assert(is_open(s, g, l) && f(l) == m) by {
            reveal(renamed_to);
        }
        lemma_unguessed_less(g, l);
        assert forall|w: Seq<u8>| #[trigger] s.contains(w) implies wins(
            reply(s, l, w),
            g.insert(l),
            b - cost(l, w),
        ) by {
            reveal(paired_left);
            let v = choose|v: Seq<u8>| #[trigger] t.contains(v) && r(w, v);
            lemma_alike_reply(s, g, t, h, r, f, l, w, v);
            lemma_alike_wins(
                reply(s, l, w),
                g.insert(l),
                reply(t, f(l), v),
                h.insert(f(l)),
                r,
                f,
                b - cost(l, w),
            );
            lemma_hit_matches(s, g, t, r, f, l, w, v);
        }
        assert(guess_wins(s, g, l, b));
        lemma_guess_to_wins(s, g, l, b);
    }
}

/// What has been guessed matters only for letters that stand in a possible
/// word.
pub proof fn lemma_same_open(s: Set<Seq<u8>>, g: Set<u8>, h: Set<u8>, b: int)
    requires
        forall|l: u8| #[trigger] is_open(s, g, l) == is_open(s, h, l),
    ensures
        wins(s, g, b) == wins(s, h, b),
{
    reveal(paired_left);
    reveal(paired_right);
    reveal(renamed_to);
    reveal(hits_match);
    reveal(answers_match);
    let r = |w: Seq<u8>, v: Seq<u8>| w == v;
    let f = |l: u8| l;
    assert forall|l: u8| #[trigger] is_open(s, h, l) implies renamed_to(s, g, f, l) by {
        assert(is_open(s, g, l) && f(l) == l);
    }
    lemma_alike_wins(s, g, s, h, r, f, b);
}

/// Fewer possible words never make the position harder.
pub proof fn lemma_fewer_words(s: Set<Seq<u8>>, t: Set<Seq<u8>>, g: Set<u8>, b: int)
    requires
        t.subset_of(s),
        wins(s, g, b),
    ensures
        wins(t, g, b),
    decreases unguessed(g, 256),
{
    if !no_open(t, g) {
        let o = choose|o: u8| #[trigger] is_open(t, g, o);
        let x = choose|x: Seq<u8>| #[trigger] t.contains(x) && occurs(o, x);
        assert(is_open(s, g, o));
        let l = choose|l: u8| #[trigger] is_open(s, g, l) && guess_wins(s, g, l, b);
        lemma_unguessed_less(g, l);
        assert forall|w: Seq<u8>| #[trigger] t.contains(w) implies wins(
            reply(t, l, w),
            g.insert(l),
            b - cost(l, w),
        ) by {
            assert(s.contains(w));
            lemma_fewer_words(reply(s, l, w), reply(t, l, w), g.insert(l), b - cost(l, w));
        }
        if is_open(t, g, l) {
            lemma_guess_to_wins(t, g, l, b);
        } else {
            assert(!occurs(l, x));
            assert(reply(t, l, x) =~= t) by {
                assert forall|v: Seq<u8>| t.contains(v) implies #[trigger] same_places(l, x, v) by {
                    assert(!occurs(l, v));
                }
            }
            lemma_same_open(t, g, g.insert(l), b - 1);
            lemma_more_budget(t, g, b - 1, b);
        }
    }
}

/// Guessing a letter to which the referee has only one answer changes nothing:
/// it may be counted as guessed for free.
pub proof fn lemma_uniform_letter(s: Set<Seq<u8>>, g: Set<u8>, l: u8, b: int)
    requires
        uniform(s, l),
    ensures
        wins(s, g, b) == wins(s, g.insert(l), b),
    decreases unguessed(g, 256),
{
    if !is_open(s, g, l) {
        lemma_same_open(s, g, g.insert(l), b);
    } else {
        let x = choose|x: Seq<u8>| #[trigger] s.contains(x) && occurs(l, x);
        assert(reply(s, l, x) =~= s);
        if wins(s, g.insert(l), b) {
            assert forall|w: Seq<u8>| #[trigger] s.contains(w) implies wins(
                reply(s, l, w),
                g.insert(l),
                b - cost(l, w),
            ) by {
                assert(reply(s, l, w) =~= s);
                let j = choose|j: int| #[trigger] at(x, j, l);
                assert(at(w, j, l));
                assert(occurs(l, w));
            }
            lemma_guess_to_wins(s, g, l, b);
        }
        if wins(s, g, b) {
            let m = choose|m: u8| #[trigger] is_open(s, g, m) && guess_wins(s, g, m, b);
            if m == l {
                assert(wins(reply(s, l, x), g.insert(l), b - cost(l, x)));
            } else {
                lemma_unguessed_less(g, m);
                assert(is_open(s, g.insert(l), m));
                assert(g.insert(m).insert(l) =~= g.insert(l).insert(m));
                assert forall|w: Seq<u8>| #[trigger] s.contains(w) implies wins(
                    reply(s, m, w),
                    g.insert(l).insert(m),
                    b - cost(m, w),
                ) by {
                    lemma_uniform_letter(reply(s, m, w), g.insert(m), l, b - cost(m, w));
                }
                lemma_guess_to_wins(s, g.insert(l), m, b);
            }
        }
    }
}

/// A letter that every possible word holds is a best guess: it can not miss,
/// and its answer only narrows the words down.
pub proof fn lemma_required_letter(s: Set<Seq<u8>>, g: Set<u8>, l: u8, b: int)
    requires
        is_open(s, g, l),
        required(s, l),
    ensures
        wins(s, g, b) == guess_wins(s, g, l, b),
{
    if wins(s, g, b) {
        assert forall|w: Seq<u8>| #[trigger] s.contains(w) implies wins(
            reply(s, l, w),
            g.insert(l),
            b - cost(l, w),
        ) by {
            let t = reply(s, l, w);
            lemma_fewer_words(s, t, g, b);
            assert forall|v: Seq<u8>, v2: Seq<u8>| #[trigger] t.contains(v) && #[trigger] t.contains(v2) implies same_places(l, v, v2) by {
                assert(same_places(l, w, v) && same_places(l, w, v2));
            }
            lemma_uniform_letter(t, g, l, b);
        }
    }
    if guess_wins(s, g, l, b) {
        lemma_guess_to_wins(s, g, l, b);
    }
}

/// Where the referee can not tell the words apart by any letter that is left,
/// no miss is needed.
pub proof fn lemma_indistinct(s: Set<Seq<u8>>, g: Set<u8>)
    requires
        forall|l: u8| l != 0 && !g.contains(l) ==> #[trigger] uniform(s, l),
    ensures
        wins(s, g, 0),
    decreases unguessed(g, 256),
{
    if !no_open(s, g) {
        let l = choose|l: u8| #[trigger] is_open(s, g, l);
        lemma_unguessed_less(g, l);
        lemma_indistinct(s, g.insert(l));
        lemma_uniform_letter(s, g, l, 0);
    }
}

/// Where some letter is open and none is required, the referee can force a
/// miss.
pub proof fn lemma_forced_miss(s: Set<Seq<u8>>, g: Set<u8>)
    requires
        !no_open(s, g),
        forall|l: u8| #[trigger] is_open(s, g, l) ==> !required(s, l),
    ensures
        !wins(s, g, 0),
{
    if wins(s, g, 0) {
        let l = choose|l: u8| #[trigger] is_open(s, g, l) && guess_wins(s, g, l, 0);
        let w = choose|w: Seq<u8>| #[trigger] s.contains(w) && !occurs(l, w);
        assert(wins(reply(s, l, w), g.insert(l), -1));
    }
}

/// The words without `l` are what a miss on `l` leaves.
pub proof fn lemma_without_is_reply(s: Set<Seq<u8>>, l: u8, w: Seq<u8>)
    requires
        s.contains(w),
        !occurs(l, w),
    ensures
        reply(s, l, w) == without(s, l),
{
    assert forall|v: Seq<u8>| s.contains(v) implies same_places(l, w, v) == !occurs(l, v) by {
        if same_places(l, w, v) && occurs(l, v) {
            let j = choose|j: int| #[trigger] at(v, j, l);
            assert(at(w, j, l));
        }
    }
    assert(reply(s, l, w) =~= without(s, l));
}

/// The miss chain: where every open letter can be missed and the words that
/// the miss leaves need more than `b - 1` misses, the position needs more than
/// `b`.
pub proof fn lemma_miss_chain(s: Set<Seq<u8>>, g: Set<u8>, b: int)
    requires
        !no_open(s, g),
        forall|l: u8| #[trigger]
            is_open(s, g, l) ==> (exists|w: Seq<u8>| #[trigger] s.contains(w) && !occurs(l, w))
                && !wins(without(s, l), g.insert(l), b - 1),
    ensures
        !wins(s, g, b),
{
    if wins(s, g, b) {
        let l = choose|l: u8| #[trigger] is_open(s, g, l) && guess_wins(s, g, l, b);
        let w = choose|w: Seq<u8>| #[trigger] s.contains(w) && !occurs(l, w);
        lemma_without_is_reply(s, l, w);
    }
}

/// Where the letters at risk in one position are at risk in another, there are
/// no more of them.
proof fn lemma_risky_fewer(s: Set<Seq<u8>>, g: Set<u8>, t: Set<Seq<u8>>, h: Set<u8>, n: nat)
    requires
        n <= 256,
        forall|l: u8| #[trigger]
            is_open(t, h, l) && !required(t, l) ==> is_open(s, g, l) && !required(s, l),
    ensures
        risky(t, h, n) <= risky(s, g, n),
        forall|c: u8|
            c < n && is_open(s, g, c) && !required(s, c) && !#[trigger] is_open(t, h, c) ==> risky(
                t,
                h,
                n,
            ) < risky(s, g, n),
    decreases n,
{
    if n > 0 {
        lemma_risky_fewer(s, g, t, h, (n - 1) as nat);
    }
}

/// Only open letters that some word lacks can cost a miss, one each.
pub proof fn lemma_risky_bound(s: Set<Seq<u8>>, g: Set<u8>)
    ensures
        wins(s, g, risky(s, g, 256) as int),
    decreases unguessed(g, 256),
{
    if !no_open(s, g) {
        let l = if exists|l: u8| #[trigger] is_open(s, g, l) && required(s, l) {
            choose|l: u8| #[trigger] is_open(s, g, l) && required(s, l)
        } else {
            choose|l: u8| #[trigger] is_open(s, g, l)
        };
        lemma_unguessed_less(g, l);
        let b = risky(s, g, 256) as int;
        assert forall|w: Seq<u8>| #[trigger] s.contains(w) implies wins(
            reply(s, l, w),
            g.insert(l),
            b - cost(l, w),
        ) by {
            let t = reply(s, l, w);
            let h = g.insert(l);
            lemma_risky_bound(t, h);
            assert forall|m: u8| #[trigger] is_open(t, h, m) && !required(t, m) implies is_open(
                s,
                g,
                m,
            ) && !required(s, m) by {
                lemma_open_before(s, g, t, h, m);
                let x = choose|x: Seq<u8>| #[trigger] t.contains(x) && !occurs(m, x);
                assert(s.contains(x));
            }
            lemma_risky_fewer(s, g, t, h, 256);
            assert(!is_open(t, h, l));
            if !occurs(l, w) {
                assert(!required(s, l));
            }
            lemma_more_budget(t, h, risky(t, h, 256) as int, b - cost(l, w));
        }
        lemma_guess_to_wins(s, g, l, b);
    }
}

proof fn lemma_counts(s: Set<Seq<u8>>, g: Set<u8>, n: nat)
    ensures
        risky(s, g, n) <= open_count(s, g, n) <= n,
    decreases n,
{
    if n > 0 {
        lemma_counts(s, g, (n - 1) as nat);
    }
}

proof fn lemma_least_budget(s: Set<Seq<u8>>, g: Set<u8>, n: nat)
    requires
        wins(s, g, n as int),
    ensures
        least_budget(s, g, n) <= n,
        wins(s, g, least_budget(s, g, n) as int),
        !wins(s, g, least_budget(s, g, n) - 1),
    decreases n,
{
    if n > 0 && wins(s, g, n - 1) {
        lemma_least_budget(s, g, (n - 1) as nat);
    }
}

/// The winning budgets are exactly those from the minimax value on.
pub proof fn lemma_value(s: Set<Seq<u8>>, g: Set<u8>, b: int)
    ensures
        wins(s, g, b) == (value(s, g) <= b),
{
    lemma_risky_bound(s, g);
    lemma_counts(s, g, 256);
    lemma_more_budget(s, g, risky(s, g, 256) as int, 256);
    lemma_least_budget(s, g, 256);
    let v = value(s, g) as int;
    if v <= b {
        lemma_more_budget(s, g, v, b);
    } else if wins(s, g, b) {
        lemma_more_budget(s, g, b, v - 1);
    }
}

/// A value is pinned down by the two budgets around it.
pub proof fn lemma_value_is(s: Set<Seq<u8>>, g: Set<u8>, v: int)
    requires
        wins(s, g, v),
        !wins(s, g, v - 1),
    ensures
        value(s, g) == v,
{
    lemma_value(s, g, v);
    lemma_value(s, g, v - 1);
}

/// The referee never forces more misses than there are letters at risk.
pub proof fn lemma_value_at_most_risky(s: Set<Seq<u8>>, g: Set<u8>)
    ensures
        value(s, g) <= risky(s, g, 256) <= open_count(s, g, 256) <= 256,
{
    lemma_risky_bound(s, g);
    lemma_counts(s, g, 256);
    lemma_value(s, g, risky(s, g, 256) as int);
}

/// With fewer words possible the value does not rise.
pub proof fn lemma_value_fewer_words(s: Set<Seq<u8>>, t: Set<Seq<u8>>, g: Set<u8>)
    requires
        t.subset_of(s),
    ensures
        value(t, g) <= value(s, g),
{
    let v = value(s, g) as int;
    lemma_value(s, g, v);
    lemma_fewer_words(s, t, g, v);
    lemma_value(t, g, v);
}

/// A letter with only one answer may be counted as guessed.
pub proof fn lemma_value_uniform_letter(s: Set<Seq<u8>>, g: Set<u8>, l: u8)
    requires
        uniform(s, l),
    ensures
        value(s, g.insert(l)) == value(s, g),
{
    let v = value(s, g) as int;
    lemma_value(s, g, v);
    lemma_value(s, g, v - 1);
    lemma_uniform_letter(s, g, l, v);
    lemma_uniform_letter(s, g, l, v - 1);
    lemma_value_is(s, g.insert(l), v);
}

/// Positions that play alike have the same value.
pub proof fn lemma_value_alike(
    s: Set<Seq<u8>>,
    g: Set<u8>,
    t: Set<Seq<u8>>,
    h: Set<u8>,
    r: spec_fn(Seq<u8>, Seq<u8>) -> bool,
    f: spec_fn(u8) -> u8,
)
    requires
        alike(s, g, t, h, r, f),
    ensures
        value(t, h) == value(s, g),
{
    let v = value(s, g) as int;
    lemma_value(s, g, v);
    lemma_value(s, g, v - 1);
    lemma_alike_wins(s, g, t, h, r, f, v);
    lemma_alike_wins(s, g, t, h, r, f, v - 1);
    lemma_value_is(t, h, v);
}

/// The value of a position is that of its best guess: some open letter attains
/// it and none does better.
pub proof fn lemma_best_guess(s: Set<Seq<u8>>, g: Set<u8>)
    requires
        !no_open(s, g),
    ensures
        exists|l: u8| #[trigger]
            is_open(s, g, l) && is_guess_value(s, g, l, value(s, g) as int),
        forall|l: u8, v: int| #[trigger]
            is_open(s, g, l) && #[trigger] is_guess_value(s, g, l, v) ==> value(s, g) <= v,
{
    let v = value(s, g) as int;
    lemma_value(s, g, v);
    lemma_value(s, g, v - 1);
    let l = choose|l: u8| #[trigger] is_open(s, g, l) && guess_wins(s, g, l, v);
    if guess_wins(s, g, l, v - 1) {
        lemma_guess_to_wins(s, g, l, v - 1);
    }
    assert(is_open(s, g, l) && is_guess_value(s, g, l, v));
    assert forall|l: u8, v: int| #[trigger] is_open(s, g, l) && #[trigger] is_guess_value(
        s,
        g,
        l,
        v,
    ) implies value(s, g) <= v by {
        lemma_guess_to_wins(s, g, l, v);
        lemma_value(s, g, v);
    }
}

/// Under best play by the guesser after letter `l`, the referee's best answer
/// leads to a position whose value, with the miss that it costs, is the value
/// of the guess.
pub proof fn lemma_worst_answer(s: Set<Seq<u8>>, g: Set<u8>, l: u8, v: int, w: Seq<u8>)
    requires
        s.contains(w),
        v == cost(l, w) + value(reply(s, l, w), g.insert(l)),
        forall|x: Seq<u8>| #[trigger]
            s.contains(x) ==> cost(l, x) + value(reply(s, l, x), g.insert(l)) <= v,
    ensures
        is_guess_value(s, g, l, v),
{
    assert forall|x: Seq<u8>| #[trigger] s.contains(x) implies wins(
        reply(s, l, x),
        g.insert(l),
        v - cost(l, x),
    ) by {
        lemma_value(reply(s, l, x), g.insert(l), v - cost(l, x));
    }
    lemma_value(reply(s, l, w), g.insert(l), v - 1 - cost(l, w));
}

/// Every word has length `k` and holds only letters from `a` to `z`.
pub open spec fn plain_words(s: Set<Seq<u8>>, k: nat) -> bool {
    forall|w: Seq<u8>| #[trigger]
        s.contains(w) ==> w.len() == k && forall|j: int|
            0 <= j < w.len() ==> 97 <= #[trigger] w[j] <= 122
}

/// The possible words agree on every letter guessed so far, as they do at any
/// point of a real game.
pub open spec fn consistent(s: Set<Seq<u8>>, g: Set<u8>) -> bool {
    forall|l: u8| #[trigger] g.contains(l) ==> uniform(s, l)
}

proof fn lemma_open_fewer(s: Set<Seq<u8>>, g: Set<u8>, t: Set<Seq<u8>>, h: Set<u8>, n: nat)
    requires
        n <= 256,
        forall|l: u8| #[trigger] is_open(t, h, l) ==> is_open(s, g, l),
    ensures
        open_count(t, h, n) <= open_count(s, g, n),
        forall|c: u8|
            c < n && is_open(s, g, c) && !#[trigger] is_open(t, h, c) ==> open_count(t, h, n)
                < open_count(s, g, n),
    decreases n,
{
    if n > 0 {
        lemma_open_fewer(s, g, t, h, (n - 1) as nat);
    }
}

/// An open letter counts.
proof fn lemma_open_counts(s: Set<Seq<u8>>, g: Set<u8>, l: u8, m: u8, n: nat)
    requires
        is_open(s, g, l),
        is_open(s, g, m),
        l < n <= 256,
        m < n,
    ensures
        open_count(s, g, n) >= 1,
        l != m ==> open_count(s, g, n) >= 2,
    decreases n,
{
    let p = (n - 1) as nat;
    if l < p && m < p {
        lemma_open_counts(s, g, l, m, p);
    } else if l < p {
        lemma_open_counts(s, g, l, l, p);
    } else if m < p {
        lemma_open_counts(s, g, m, m, p);
    }
}

/// With one letter left open, the words of a real game are all the same.
proof fn lemma_last_letter(s: Set<Seq<u8>>, g: Set<u8>, k: nat, l: u8)
    requires
        plain_words(s, k),
        consistent(s, g),
        is_open(s, g, l),
        forall|m: u8| #[trigger] is_open(s, g, m) ==> m == l,
    ensures
        wins(s, g, 0),
{
    assert forall|v: Seq<u8>, w: Seq<u8>| #[trigger] s.contains(v) && #[trigger] s.contains(
        w,
    ) implies v == w by {
        assert forall|j: int| 0 <= j < k implies v[j] == w[j] by {
            if g.contains(v[j]) {
                assert(uniform(s, v[j]));
                assert(same_places(v[j], v, w));
                assert(at(v, j, v[j]));
                assert(at(w, j, v[j]));
            } else if g.contains(w[j]) {
                assert(uniform(s, w[j]));
                assert(same_places(w[j], v, w));
                assert(at(w, j, w[j]));
                assert(at(v, j, w[j]));
            } else {
                assert(at(v, j, v[j]) && at(w, j, w[j]));
                assert(is_open(s, g, v[j]));
                assert(is_open(s, g, w[j]));
            }
        }
        assert(v =~= w);
    }
    assert forall|m: u8| m != 0 && !g.contains(m) implies #[trigger] uniform(s, m) by {}
    lemma_indistinct(s, g);
}

/// In a real game the last open letter costs nothing.
proof fn lemma_open_bound(s: Set<Seq<u8>>, g: Set<u8>, k: nat)
    requires
        plain_words(s, k),
        consistent(s, g),
        !no_open(s, g),
    ensures
        wins(s, g, open_count(s, g, 256) - 1),
    decreases unguessed(g, 256),
{
    let l = choose|l: u8| #[trigger] is_open(s, g, l);
    lemma_open_counts(s, g, l, l, 256);
    let b = open_count(s, g, 256) - 1;
    if forall|m: u8| #[trigger] is_open(s, g, m) ==> m == l {
        lemma_last_letter(s, g, k, l);
        lemma_more_budget(s, g, 0, b);
    } else {
        let m = choose|m: u8| #[trigger] is_open(s, g, m) && m != l;
        lemma_open_counts(s, g, l, m, 256);
        lemma_unguessed_less(g, l);
        assert forall|w: Seq<u8>| #[trigger] s.contains(w) implies wins(
            reply(s, l, w),
            g.insert(l),
            b - cost(l, w),
        ) by {
            let t = reply(s, l, w);
            let h = g.insert(l);
            assert(plain_words(t, k));
            assert forall|c: u8| #[trigger] h.contains(c) implies uniform(t, c) by {
                if c == l {
                    assert forall|v: Seq<u8>, v2: Seq<u8>| #[trigger]
                        t.contains(v) && #[trigger] t.contains(v2) implies same_places(
                        l,
                        v,
                        v2,
                    ) by {
                        assert(same_places(l, w, v) && same_places(l, w, v2));
                    }
                } else {
                    assert(uniform(s, c));
                }
            }
            assert forall|c: u8| #[trigger] is_open(t, h, c) implies is_open(s, g, c) by {
                lemma_open_before(s, g, t, h, c);
            }
            lemma_open_fewer(s, g, t, h, 256);
            assert(!is_open(t, h, l));
            if no_open(t, h) {
                lemma_more_budget(t, h, 0, b - cost(l, w));
            } else {
                lemma_open_bound(t, h, k);
                lemma_more_budget(t, h, open_count(t, h, 256) - 1, b - cost(l, w));
            }
        }
        lemma_guess_to_wins(s, g, l, b);
    }
}

proof fn lemma_open_plain(s: Set<Seq<u8>>, g: Set<u8>, k: nat, n: nat)
    requires
        plain_words(s, k),
        n <= 256,
    ensures
        n <= 97 ==> open_count(s, g, n) == 0,
        97 <= n <= 123 ==> open_count(s, g, n) <= n - 97,
        n >= 123 ==> open_count(s, g, n) <= 26,
        forall|c: u8| #[trigger] g.contains(c) && 97 <= c <= 122 && c < n ==> open_count(s, g, n) + 1 <= if n <= 123 {
            n - 97
        } else {
            26
        },
    decreases n,
{
    if n > 0 {
        lemma_open_plain(s, g, k, (n - 1) as nat);
        let c = (n - 1) as u8;
        if is_open(s, g, c) {
            let w = choose|w: Seq<u8>| #[trigger] s.contains(w) && occurs(c, w);
            let j = choose|j: int| #[trigger] at(w, j, c);
            assert(97 <= w[j] <= 122);
        }
    }
}

/// No position over the letters `a` to `z` needs more than 25 misses.
pub proof fn lemma_at_most_25(s: Set<Seq<u8>>, g: Set<u8>, k: nat)
    requires
        plain_words(s, k),
    ensures
        wins(s, g, 25),
        value(s, g) <= 25,
{
    lemma_open_plain(s, g, k, 256);
    if no_open(s, g) {
    } else if exists|c: u8| #[trigger] g.contains(c) && 97 <= c <= 122 {
        lemma_risky_bound(s, g);
        lemma_counts(s, g, 256);
        lemma_more_budget(s, g, risky(s, g, 256) as int, 25);
    } else {
        assert forall|l: u8| #[trigger] g.contains(l) implies uniform(s, l) by {
            assert forall|v: Seq<u8>, w: Seq<u8>| #[trigger] s.contains(v) && #[trigger] s.contains(
                w,
            ) implies same_places(l, v, w) by {
                assert forall|j: int| at(v, j, l) == at(w, j, l) by {
                    if 0 <= j < k {
                        assert(97 <= v[j] <= 122 && 97 <= w[j] <= 122);
                    }
                }
            }
        }
        lemma_open_bound(s, g, k);
        lemma_more_budget(s, g, open_count(s, g, 256) - 1, 25);
    }
    lemma_value(s, g, 25);
}

} // verus!
