//! How paths read and what the answers of a table mean.
use vstd::prelude::*;

use crate::game::letters::{bit_of, holds, is_lower, lemma_add_letter, place_mask};
use crate::probe::states::{
    alike_states, bounded_state, exact_state, state_cost, state_known, state_of, PartState,
};
use crate::probe::steps::{
    all_hex, hex_digit, hex_in, hex_value, letter_in, pieces, step_in, untagged, walked, StepError,
};
use crate::seqs::lemma_filter;
use crate::solver::dedup::position_key;
use crate::solver::memoized::{lemma_fold_unique, word_len};
use crate::solver::partition::group;
use crate::solver::required::is_fold;
use crate::solver::serving::{exact_entry, fold_of, lemma_fold_of, serving_key, stored, TtEntry};
use crate::solver::tt::{tt_bound, tt_letter, tt_value};
use crate::text::hexadecimal;

verus! {

/// A text without separators is one piece.
pub proof fn lemma_one_piece(s: Seq<char>, separator: char)
    requires
        !s.contains(separator),
    ensures
        pieces(s, separator) == seq![s],
    decreases s.len(),
{
    if s.len() > 0 {
        assert(s[s.len() - 1] == s.last());
        assert forall|i: int| 0 <= i < s.drop_last().len() implies s.drop_last()[i] != separator by {
            assert(s.contains(s[i]));
        }
        assert(!s.drop_last().contains(separator));
        lemma_one_piece(s.drop_last(), separator);
        assert(s.contains(s.last()));
        assert(s.drop_last().push(s.last()) =~= s);
        assert(pieces(s, separator) =~= seq![s]);
    } else {
        assert(s =~= Seq::empty());
    }
}

proof fn lemma_some_piece(s: Seq<char>, separator: char)
    ensures
        pieces(s, separator).len() > 0,
    decreases s.len(),
{
    if s.len() > 0 {
        lemma_some_piece(s.drop_last(), separator);
    }
}

/// A separator ends a piece: the pieces of a text are those before it and those behind
/// it.
pub proof fn lemma_pieces_apart(a: Seq<char>, separator: char, b: Seq<char>)
    ensures
        pieces(a + seq![separator] + b, separator) == pieces(a, separator) + pieces(b, separator),
    decreases b.len(),
{
    let s = a + seq![separator] + b;
    let p = pieces(a, separator);
    if b.len() == 0 {
        assert(s.drop_last() =~= a);
        assert(pieces(b, separator) =~= seq![Seq::<char>::empty()]);
        assert(pieces(s, separator) =~= p + pieces(b, separator));
    } else {
        let q = pieces(b.drop_last(), separator);
        lemma_pieces_apart(a, separator, b.drop_last());
        lemma_some_piece(b.drop_last(), separator);
        assert(s.drop_last() =~= a + seq![separator] + b.drop_last());
        assert(s.last() == b.last());
        let before = p + q;
        if b.last() == separator {
            assert(pieces(s, separator) =~= p + pieces(b, separator));
        } else {
            assert(before.last() == q.last());
            assert(pieces(s, separator) =~= p + pieces(b, separator));
        }
    }
}

/// The digits of hexadecimal numbers, in either case.
pub proof fn lemma_digit_values(c: char)
    ensures
        48 <= c as int <= 57 ==> hex_digit(c) is Some && hex_digit(c)->0 == c as int - 48,
        97 <= c as int <= 102 ==> hex_digit(c) is Some && hex_digit(c)->0 == c as int - 87,
        65 <= c as int <= 70 ==> hex_digit(c) is Some && hex_digit(c)->0 == c as int - 55,
        hex_digit(c) is Some ==> 48 <= c as int <= 57 || 97 <= c as int <= 102 || 65 <= c as int <= 70,
{
}

proof fn lemma_hex_prefix(a: Seq<char>, b: Seq<char>, n: nat)
    requires
        n <= a.len(),
        n <= b.len(),
        forall|i: int| 0 <= i < n ==> a[i] == b[i],
    ensures
        hex_value(a, n) == hex_value(b, n),
    decreases n,
{
    if n > 0 {
        lemma_hex_prefix(a, b, (n - 1) as nat);
    }
}

/// One more digit makes sixteen times the number and the digit.
pub proof fn lemma_hex_digit_behind(s: Seq<char>, c: char)
    requires
        hex_digit(c) is Some,
    ensures
        hex_value(s.push(c), s.len() + 1) == 16 * hex_value(s, s.len()) + hex_digit(c)->0,
        hex_value(s, 0) == 0,
{
    lemma_hex_prefix(s.push(c), s, s.len());
}

/// The hexadecimal digits of a number read as the number.
pub proof fn lemma_hexadecimal_read(n: nat)
    ensures
        all_hex(hexadecimal(n)),
        hex_value(hexadecimal(n), hexadecimal(n).len()) == n,
    decreases n,
{
    let h = hexadecimal(n);
    if n < 16 {
        lemma_digit_values(h[0]);
        assert(hex_value(h, 0) == 0);
        assert(hex_value(h, 1) == hex_value(h, 0) * 16 + n);
    } else {
        lemma_hexadecimal_read(n / 16);
        let s = hexadecimal(n / 16);
        lemma_digit_values(h.last());
        lemma_hex_digit_behind(s, h.last());
        assert(h =~= s.push(h.last()));
    }
}

/// A mask written in hexadecimal is read back, with a plus sign in front or without; no
/// text with anything else in it is a mask.
pub proof fn lemma_mask_read(m: u32, s: Seq<char>)
    ensures
        hex_in(hexadecimal(m as nat)) == Some(m),
        hex_in(seq!['+'] + hexadecimal(m as nat)) == Some(m),
        hex_in(s) is Some ==> s.len() > 0 && hex_digit(s.last()) is Some && forall|i: int|
            0 <= i < s.len() ==> hex_digit(#[trigger] s[i]) is Some || i == 0 && s[i] == '+',
        all_hex(s) ==> (hex_in(s) is Some <==> hex_value(s, s.len()) <= u32::MAX) && (hex_in(s) matches Some(v) ==> v == hex_value(s, s.len())),
{
    let h = hexadecimal(m as nat);
    lemma_hexadecimal_read(m as nat);
    assert(hex_digit(h[0]) is Some);
    let p = seq!['+'] + h;
    assert(p.skip(1) =~= h);
    if hex_in(s) is Some && s.len() > 0 && s[0] == '+' {
        let d = s.skip(1);
        assert(hex_digit(d[d.len() - 1]) is Some);
        assert forall|i: int| 0 <= i < s.len() implies hex_digit(#[trigger] s[i]) is Some || i == 0 && s[i] == '+' by {
            if i > 0 {
                assert(hex_digit(d[i - 1]) is Some);
            }
        }
    }
    if all_hex(s) {
        assert(hex_digit(s[0]) is Some);
    }
}

/// A tag in front of a mask is passed over, and nothing else is.
pub proof fn lemma_untagged(s: Seq<char>)
    ensures
        untagged(seq!['0', 'x'] + s) == untagged(s),
        !(s.len() >= 2 && s[0] == '0' && s[1] == 'x') ==> untagged(s) == s,
{
    let t = seq!['0', 'x'] + s;
    assert(t.skip(2) =~= s);
}

/// A step that is written as letter, colon and mask reads as the letter and the mask,
/// with a tag before the mask or without.
pub proof fn lemma_step_read(l: u8, c: char, m: u32)
    requires
        is_lower(l),
        c as int == l,
    ensures
        step_in(seq![c] + seq![':'] + hexadecimal(m as nat)) == Ok::<(u8, u32), StepError>((l, m)),
        step_in(seq![c] + seq![':'] + (seq!['0', 'x'] + hexadecimal(m as nat))) == Ok::<(u8, u32), StepError>((l, m)),
{
    let h = hexadecimal(m as nat);
    let t = seq!['0', 'x'] + h;
    lemma_mask_read(m, h);
    lemma_hexadecimal_read(m as nat);
    assert(hex_digit(h[0]) is Some);
    if h.len() >= 2 {
        assert(hex_digit(h[1]) is Some);
    }
    lemma_untagged(h);
    lemma_one_piece(seq![c], ':');
    assert(!h.contains(':')) by {
        if h.contains(':') {
            let i = choose|i: int| 0 <= i < h.len() && h[i] == ':';
            assert(hex_digit(h[i]) is Some);
        }
    }
    assert(!t.contains(':')) by {
        if t.contains(':') {
            let i = choose|i: int| 0 <= i < t.len() && t[i] == ':';
            if i >= 2 {
                assert(h[i - 2] == ':');
            }
        }
    }
    lemma_one_piece(h, ':');
    lemma_one_piece(t, ':');
    lemma_pieces_apart(seq![c], ':', h);
    lemma_pieces_apart(seq![c], ':', t);
}

/// Each fault of a step is told.
pub proof fn lemma_step_faults(s: Seq<char>)
    ensures
        ({
            let p = pieces(s, ':');
            let first = p[0];
            &&& p.len() > 0
            &&& step_in(s) == Err::<(u8, u32), StepError>(StepError::MissingLetter) <==> first.len() == 0
            &&& step_in(s) == Err::<(u8, u32), StepError>(StepError::NotALetter) <==> first.len() > 0 && !(97 <= first[0] as int <= 122)
            &&& step_in(s) == Err::<(u8, u32), StepError>(StepError::MissingMask) <==> first.len() > 0 && 97 <= first[0] as int <= 122 && p.len()
                == 1
            &&& step_in(s) == Err::<(u8, u32), StepError>(StepError::NotAMask) <==> first.len() > 0 && 97 <= first[0] as int <= 122 && p.len()
                > 1 && hex_in(untagged(p[1])) is None
            &&& step_in(s) matches Ok(step) ==> step.0 == first[0] as int && hex_in(untagged(p[1])) == Some(step.1)
        }),
{
    lemma_some_piece(s, ':');
}

/// The letter that a character stands for is the character itself, if it is one byte.
pub proof fn lemma_letter_in(c: char)
    ensures
        (c as int) < 256 ==> letter_in(c) == c as int,
        letter_in(c) == c as int % 256,
{
}

/// A path leaves the words that give each of its answers, and its letters are guessed
/// then, and no others.
pub proof fn lemma_walked(words: Seq<Vec<u8>>, idx: Seq<usize>, steps: Seq<(u8, u32)>, n: nat)
    requires
        n <= steps.len(),
        forall|t: int| 0 <= t < n ==> is_lower((#[trigger] steps[t]).0),
    ensures
        forall|i: usize| #[trigger]
            walked(words, idx, steps, n).0.contains(i) <==> idx.contains(i) && forall|t: int|
                0 <= t < n ==> place_mask(words[i as int]@, (#[trigger] steps[t]).0) == steps[t].1,
        forall|l: u8| #[trigger]
            holds(walked(words, idx, steps, n).1, l) <==> exists|t: int| 0 <= t < n && (#[trigger] steps[t]).0 == l,
    decreases n,
{
    if n == 0 {
        crate::game::letters::lemma_has_zero();
    } else {
        lemma_walked(words, idx, steps, (n - 1) as nat);
        let (before, masked) = walked(words, idx, steps, (n - 1) as nat);
        let (l, m) = steps[n - 1];
        assert(is_lower(l));
        lemma_filter(before, |i: usize| place_mask(words[i as int]@, l) == m);
        lemma_add_letter(masked, l);
        assert(walked(words, idx, steps, n) == (group(words, before, l, m), masked | bit_of(l)));
        assert forall|i: usize| #[trigger] walked(words, idx, steps, n).0.contains(i) <==> idx.contains(i) && forall|t: int|
            0 <= t < n ==> place_mask(words[i as int]@, (#[trigger] steps[t]).0) == steps[t].1 by {
            if before.contains(i) && place_mask(words[i as int]@, l) == m {
                assert forall|t: int| 0 <= t < n implies place_mask(words[i as int]@, (#[trigger] steps[t]).0) == steps[t].1 by {}
            }
            if forall|t: int| 0 <= t < n ==> place_mask(words[i as int]@, (#[trigger] steps[t]).0) == steps[t].1 {
                assert(place_mask(words[i as int]@, steps[n - 1].0) == steps[n - 1].1);
            }
        }
        assert forall|c: u8| #[trigger] holds(masked | bit_of(l), c) <==> exists|t: int| 0 <= t < n && (#[trigger] steps[t]).0 == c by {
            if holds(masked, c) {
                let t = choose|t: int| 0 <= t < n - 1 && (#[trigger] steps[t]).0 == c;
                assert(steps[t].0 == c);
            }
            if c == l {
                assert(steps[n - 1].0 == c);
            }
        }
    }
}

/// The key under which a position is looked up is that of its canonical form, with the
/// letters folded in that every word has at the same places.
pub proof fn lemma_serving_key(words: Seq<Vec<u8>>, idx: Seq<usize>, masked: u32, folded: u32)
    requires
        is_fold(words, idx, masked, folded),
    ensures
        serving_key(words, idx, masked) == position_key(words, idx, folded, word_len(words)),
{
    lemma_fold_of(words, idx, masked);
    lemma_fold_unique(words, idx, masked, folded, fold_of(words, idx, masked));
}

/// What a table has for a position is found: an exact entry gives its value and letter,
/// and a bound or no entry gives nothing to serve.
pub proof fn lemma_entry_found<D: Fn(u128) -> Option<u32>>(
    words: Seq<Vec<u8>>,
    idx: Seq<usize>,
    masked: u32,
    disk: D,
    held: Option<u32>,
    e: Option<TtEntry>,
)
    requires
        forall|o: Option<u32>| #[trigger] disk.ensures((serving_key(words, idx, masked),), o) ==> o == held,
        stored(words, idx, masked, disk, e),
    ensures
        held matches Some(packed) ==> tt_bound(packed) == 0 ==> e == Some(
            TtEntry { value: tt_value(packed), best_letter: tt_letter(packed) },
        ),
        held matches Some(packed) ==> tt_bound(packed) != 0 ==> e is None,
        held is None ==> e is None,
{
    let o = choose|o: Option<u32>| #[trigger] disk.ensures((serving_key(words, idx, masked),), o) && e == exact_entry(o);
    assert(o == held);
}

/// What a table has for a position is shown as it is: its value, letter and kind of
/// bound, or that there is nothing. One word needs no entry.
pub proof fn lemma_state_shown<D: Fn(u128) -> Option<u32>>(
    words: Seq<Vec<u8>>,
    idx: Seq<usize>,
    masked: u32,
    disk: D,
    held: Option<u32>,
    st: PartState,
)
    requires
        forall|o: Option<u32>| #[trigger] disk.ensures((serving_key(words, idx, masked),), o) ==> o == held,
        state_known(words, idx, masked, disk, st),
    ensures
        idx.len() <= 1 <==> st == PartState::Trivial,
        idx.len() > 1 ==> (held is None <==> st == PartState::Absent),
        idx.len() > 1 ==> (held matches Some(packed) ==> st == (PartState::Present {
            value: tt_value(packed),
            best_letter: tt_letter(packed),
            bound: tt_bound(packed),
        })),
{
    if idx.len() > 1 {
        let o = choose|o: Option<u32>| #[trigger] disk.ensures((serving_key(words, idx, masked),), o) && st == state_of(o);
        assert(o == held);
    }
}

/// Every answer is counted once: as exact, as a bound, as absent or as trivial.
pub proof fn lemma_tally_complete(states: Seq<PartState>)
    ensures
        alike_states(states, |st: PartState| exact_state(st)) + alike_states(states, |st: PartState| bounded_state(st)) + alike_states(
            states,
            |st: PartState| st == PartState::Absent,
        ) + alike_states(states, |st: PartState| st == PartState::Trivial) == states.len(),
    decreases states.len(),
{
    reveal(Seq::filter);
    if states.len() > 0 {
        lemma_tally_complete(states.drop_last());
    }
}

/// An entry counts as exact where its kind of bound is zero, and else as a bound.
pub proof fn lemma_state_kinds(value: u32, best_letter: Option<u8>, bound: u32)
    ensures
        exact_state(PartState::Present { value, best_letter, bound }) <==> bound == 0,
        bounded_state(PartState::Present { value, best_letter, bound }) <==> bound != 0,
        !exact_state(PartState::Absent) && !bounded_state(PartState::Absent),
        !exact_state(PartState::Trivial) && !bounded_state(PartState::Trivial),
{
}

/// What an answer costs by a table: what is stored for it, nothing where one word is
/// left, and a miss where the letter does not stand.
pub proof fn lemma_state_cost(part: (u32, Vec<usize>), value: u32, best_letter: Option<u8>, bound: u32)
    ensures
        part.0 != 0 ==> state_cost(part, PartState::Present { value, best_letter, bound }) == value,
        part.0 == 0 ==> state_cost(part, PartState::Present { value, best_letter, bound }) == value + 1,
        part.0 != 0 ==> state_cost(part, PartState::Trivial) == 0,
        part.0 == 0 ==> state_cost(part, PartState::Trivial) == 1,
{
}

} // verus!
