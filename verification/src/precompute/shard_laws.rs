//! How shard arguments read, and which positions a run takes on.
use vstd::prelude::*;

use crate::precompute::shard::{
    all_digits, belongs, digits_value, is_digit, number_in, shard_at, slash_place, Choice, Selection, ShardError,
};
use crate::text::decimal;

verus! {

/// A position is taken exactly where it is the one asked for, belongs to the shard, and
/// has no more words than the limit; where it is not taken, the first of these that
/// fails is the reason.
pub proof fn lemma_choice(run: Selection, index: usize, words: usize)
    ensures
        run.choice(index, words) == Choice::Take <==> (run.only_index is None || run.only_index == Some(index)) && (run.shard.1 <= 1 || index
            % run.shard.1 == run.shard.0) && (run.max_words is None || words <= run.max_words->0),
        run.choice(index, words) == Choice::OtherIndex <==> run.only_index is Some && run.only_index != Some(index),
        run.choice(index, words) == Choice::OtherShard <==> (run.only_index is None || run.only_index == Some(index)) && run.shard.1 > 1
            && index % run.shard.1 != run.shard.0,
        run.choice(index, words) == Choice::TooLarge <==> (run.only_index is None || run.only_index == Some(index)) && (run.shard.1 <= 1
            || index % run.shard.1 == run.shard.0) && run.max_words is Some && words > run.max_words->0,
{
}

/// The limit on words is sharp and nothing else depends on it: of two runs that differ
/// in the limit alone, a position that one takes and the other does not has a number of
/// words between the two limits.
pub proof fn lemma_limit_sharp(run: Selection, limit: usize, index: usize, words: usize)
    requires
        run.max_words is None,
    ensures
        ({
            let limited = Selection { only_index: run.only_index, shard: run.shard, max_words: Some(limit) };
            &&& words <= limit ==> limited.choice(index, words) == run.choice(index, words)
            &&& words > limit && run.choice(index, words) == Choice::Take ==> limited.choice(index, words) == Choice::TooLarge
            &&& run.choice(index, words) != Choice::Take ==> limited.choice(index, words) == run.choice(index, words)
        }),
{
}

/// A run that is asked for one position takes no other, and one that is not asked for
/// any passes none over for its number where it runs alone.
pub proof fn lemma_index_asked_for(run: Selection, index: usize, words: usize)
    requires
        run.shard.1 <= 1,
        run.max_words is None,
    ensures
        run.only_index is None ==> run.choice(index, words) == Choice::Take,
        run.only_index == Some(index) ==> run.choice(index, words) == Choice::Take,
        run.only_index is Some && run.only_index != Some(index) ==> run.choice(index, words) != Choice::Take,
{
}

/// Shards take turns: a shard has every position whose number is its own number plus a
/// multiple of the number of shards, and no other.
pub proof fn lemma_shards_take_turns(index: int, i: int, n: int)
    requires
        0 <= i < n,
        0 <= index,
    ensures
        belongs(index, i, n) <==> exists|q: int| #[trigger] (q * n) + i == index,
{
    if belongs(index, i, n) {
        let q = index / n;
        vstd::arithmetic::div_mod::lemma_fundamental_div_mod(index, n);
        assert(n * q == q * n) by (nonlinear_arith);
        assert((q * n) + i == index);
    }
    if exists|q: int| #[trigger] (q * n) + i == index {
        let q = choose|q: int| #[trigger] (q * n) + i == index;
        assert(n * q == q * n) by (nonlinear_arith);
        vstd::arithmetic::div_mod::lemma_fundamental_div_mod_converse(index, n, q, i);
    }
}

proof fn lemma_value_prefix(a: Seq<char>, b: Seq<char>, n: nat)
    requires
        n <= a.len(),
        n <= b.len(),
        forall|i: int| 0 <= i < n ==> a[i] == b[i],
    ensures
        digits_value(a, n) == digits_value(b, n),
    decreases n,
{
    if n > 0 {
        lemma_value_prefix(a, b, (n - 1) as nat);
    }
}

/// One more digit makes ten times the number and the digit.
pub proof fn lemma_digit_behind(s: Seq<char>, c: char)
    requires
        48 <= c as int <= 57,
    ensures
        digits_value(s.push(c), s.len() + 1) == 10 * digits_value(s, s.len()) + (c as int - 48),
        digits_value(seq![c], 1) == c as int - 48,
{
    lemma_value_prefix(s.push(c), s, s.len());
    assert(digits_value(seq![c], 0) == 0);
}

/// Zeros in front change nothing.
pub proof fn lemma_zero_in_front(s: Seq<char>, n: nat)
    requires
        n <= s.len(),
    ensures
        digits_value(seq!['0'] + s, n + 1) == digits_value(s, n),
    decreases n,
{
    let z = seq!['0'] + s;
    if n == 0 {
        assert(digits_value(z, 0) == 0);
    } else {
        lemma_zero_in_front(s, (n - 1) as nat);
        assert(z[n as int] == s[n - 1]);
    }
}

/// The decimal digits of a number read as the number.
pub proof fn lemma_decimal_read(n: nat)
    ensures
        all_digits(decimal(n)),
        digits_value(decimal(n), decimal(n).len()) == n,
    decreases n,
{
    let d = decimal(n);
    if n < 10 {
        assert(digits_value(d, 0) == 0);
    } else {
        lemma_decimal_read(n / 10);
        let s = decimal(n / 10);
        lemma_digit_behind(s, d.last());
        assert(d =~= s.push(d.last()));
    }
}

/// A number written in decimal is read back, with zeros or a plus sign in front of it or
/// without.
pub proof fn lemma_number_read_back(n: usize)
    ensures
        number_in(decimal(n as nat)) == Some(n),
        number_in(seq!['0'] + decimal(n as nat)) == Some(n),
        number_in(seq!['+'] + decimal(n as nat)) == Some(n),
{
    let d = decimal(n as nat);
    lemma_decimal_read(n as nat);
    assert(is_digit(d[0]));
    lemma_zero_in_front(d, d.len());
    let z = seq!['0'] + d;
    assert forall|i: int| 0 <= i < z.len() implies is_digit(#[trigger] z[i]) by {
        if i > 0 {
            assert(is_digit(d[i - 1]));
        }
    }
    let p = seq!['+'] + d;
    assert(p.skip(1) =~= d);
}

/// A text that reads as a number has nothing in it but digits and perhaps a plus sign in
/// front of them; any such text reads as a number unless the number is too large.
pub proof fn lemma_number_text(s: Seq<char>)
    ensures
        number_in(s) is Some ==> s.len() > 0 && 48 <= s.last() as int <= 57 && forall|i: int|
            0 <= i < s.len() ==> 48 <= (#[trigger] s[i]) as int <= 57 || i == 0 && s[i] == '+',
        s.len() > 0 && (forall|i: int| 0 <= i < s.len() ==> 48 <= (#[trigger] s[i]) as int <= 57) ==> (number_in(s) is Some <==> digits_value(
            s,
            s.len(),
        ) <= usize::MAX) && (number_in(s) matches Some(n) ==> n == digits_value(s, s.len())),
{
    if number_in(s) is Some {
        if s.len() > 0 && s[0] == '+' {
            let d = s.skip(1);
            assert forall|i: int| 0 <= i < s.len() implies 48 <= (#[trigger] s[i]) as int <= 57 || i == 0 && s[i] == '+' by {
                if i > 0 {
                    assert(is_digit(d[i - 1]));
                }
            }
            assert(is_digit(d[d.len() - 1]));
        } else {
            assert forall|i: int| 0 <= i < s.len() implies 48 <= (#[trigger] s[i]) as int <= 57 by {
                assert(is_digit(s[i]));
            }
        }
    }
    if s.len() > 0 && (forall|i: int| 0 <= i < s.len() ==> 48 <= (#[trigger] s[i]) as int <= 57) {
        assert(48 <= s[0] as int <= 57);
        assert forall|i: int| 0 <= i < s.len() implies is_digit(#[trigger] s[i]) by {}
    }
}

/// A shard argument of the form `i/N` with `i` below `N` names the shard `i` of `N`.
pub proof fn lemma_shard_read(i: usize, n: usize, p: int)
    requires
        i < n,
        slash_place(decimal(i as nat) + seq!['/'] + decimal(n as nat), p),
    ensures
        shard_at(decimal(i as nat) + seq!['/'] + decimal(n as nat), p) == Ok::<(usize, usize), ShardError>((i, n)),
{
    let a = decimal(i as nat);
    let b = decimal(n as nat);
    let s = a + seq!['/'] + b;
    lemma_decimal_read(i as nat);
    lemma_number_read_back(i);
    lemma_number_read_back(n);
    assert forall|x: int| 0 <= x < a.len() implies s[x] != '/' by {
        assert(s[x] == a[x]);
        assert(is_digit(a[x]));
    }
    assert(s[a.len() as int] == '/');
    if p < a.len() {
        assert(s[p] == '/');
    }
    if p > a.len() {
        assert(s[a.len() as int] != '/');
    }
    assert(s.take(p) =~= a);
    assert(s.skip(p + 1) =~= b);
}

/// Each fault of a shard argument is told: no slash, no number before it, none behind
/// it, no shards, or a shard that is not below their number.
pub proof fn lemma_shard_faults(s: Seq<char>, p: int)
    requires
        slash_place(s, p),
    ensures
        shard_at(s, p) == Err::<(usize, usize), ShardError>(ShardError::MissingSlash) <==> !s.contains('/'),
        shard_at(s, p) == Err::<(usize, usize), ShardError>(ShardError::IndexNotInteger) <==> s.contains('/') && number_in(s.take(p)) is None,
        shard_at(s, p) == Err::<(usize, usize), ShardError>(ShardError::CountNotInteger) <==> s.contains('/') && number_in(s.take(p)) is Some
            && number_in(s.skip(p + 1)) is None,
        shard_at(s, p) == Err::<(usize, usize), ShardError>(ShardError::ZeroCount) <==> s.contains('/') && number_in(s.take(p)) is Some
            && number_in(s.skip(p + 1)) == Some(0usize),
        shard_at(s, p) == Err::<(usize, usize), ShardError>(ShardError::IndexOutOfRange) <==> s.contains('/') && number_in(s.take(p)) is Some
            && number_in(s.skip(p + 1)) is Some && 0 < number_in(s.skip(p + 1))->0 <= number_in(s.take(p))->0,
        shard_at(s, p) matches Ok(shard) ==> number_in(s.take(p)) == Some(shard.0) && number_in(s.skip(p + 1)) == Some(shard.1) && shard.0
            < shard.1,
{
    if p < s.len() {
        assert(s[p] == '/');
    }
    if s.contains('/') {
        let x = choose|x: int| 0 <= x < s.len() && s[x] == '/';
        if p >= s.len() {
            assert(s[x] != '/');
        }
    }
}

} // verus!
