//! What the server tells its clients.
use vstd::prelude::*;

use crate::game::letters::{bit, holds, is_lower, lemma_add_letter, lemma_mask_bits, place_mask};
use crate::game::rules::{at, occurs};
use crate::server::answer::{answered, lists_places, reports, GuessResponse};
use crate::server::encoding::{base64_digit, base64_text, byte_bit, is_bitvec, plain_text, upper, upper_text};
use crate::server::queue::tickets_ahead;
use crate::server::referee::GuessPlan;
use crate::server::session::{lemma_possible, possible, seen, GameSession, HIDDEN};
use crate::solver::partition::lemma_group;
use crate::text::byte_char;

verus! {

/// The text of a word has the characters of its bytes.
pub proof fn lemma_plain_text(w: Seq<u8>)
    ensures
        plain_text(w).len() == w.len(),
        forall|i: int| 0 <= i < w.len() ==> (#[trigger] plain_text(w)[i]) as int == w[i],
{
}

/// In upper case a letter is the capital one, and anything else is as it was.
pub proof fn lemma_upper_text(w: Seq<u8>)
    ensures
        upper_text(w).len() == w.len(),
        forall|i: int|
            0 <= i < w.len() ==> (#[trigger] upper_text(w)[i]) as int == if 97 <= w[i] <= 122 {
                w[i] - 32
            } else {
                w[i] as int
            },
{
}

/// The bytes of a bit vector hold, from the lowest bit of the first byte on, whether
/// each word is in the set, and zeros behind the last word.
pub proof fn lemma_bitvec(bits: Seq<u8>, indices: Seq<usize>, total: nat)
    requires
        is_bitvec(bits, indices, total),
        total <= usize::MAX - 7,
        forall|t: int| 0 <= t < indices.len() ==> (#[trigger] indices[t]) < total,
    ensures
        bits.len() * 8 >= total,
        bits.len() * 8 < total + 8,
        forall|i: int, j: u8|
            0 <= i < bits.len() && 0 <= j < 8 ==> ((#[trigger] (bits[i] >> j)) & 1 == 1 <==> indices.contains(
                (i * 8 + j) as usize,
            )),
        forall|i: int, j: u8| 0 <= i < bits.len() && 0 <= j < 8 && i * 8 + j >= total ==> (#[trigger] (bits[i] >> j)) & 1 != 1,
{
    assert forall|i: int, j: u8| 0 <= i < bits.len() && 0 <= j < 8 implies ((#[trigger] (bits[i] >> j)) & 1 == 1 <==> indices.contains(
        (i * 8 + j) as usize,
    )) by {
        let at = i * 8 + j;
        assert(at / 8 == i && at % 8 == j);
        assert(byte_bit(bits[at / 8], at % 8) == indices.contains(at as usize));
    }
    assert forall|i: int, j: u8| 0 <= i < bits.len() && 0 <= j < 8 && i * 8 + j >= total implies (#[trigger] (bits[i] >> j)) & 1 != 1 by {
        let at = i * 8 + j;
        if indices.contains(at as usize) {
            let t = choose|t: int| 0 <= t < indices.len() && indices[t] == at as usize;
            assert(indices[t] < total);
        }
    }
}

/// A response tells what the session has come to: hidden places as underscores, letters
/// in upper case, the misses left, every wrong guess in order, whether and how the game
/// has ended, a possible word then, and which words are possible.
pub proof fn lemma_response(words: Seq<Vec<u8>>, session: GameSession, mask: u32, degraded: bool, r: GuessResponse)
    requires
        session.ok(words),
        words.len() <= usize::MAX - 7,
        reports(words, session, mask, degraded, r),
    ensures
        r.pattern@.len() == session.word_length,
        forall|j: int| 0 <= j < session.word_length && session.pattern@[j] == 95 ==> #[trigger] r.pattern@[j] == '_',
        forall|j: int|
            0 <= j < session.word_length && is_lower(session.pattern@[j]) ==> (#[trigger] r.pattern@[j]) as int == session.pattern@[j] - 32,
        r.guesses_left == session.guesses_left,
        r.wrong_letters@.len() == session.wrong_letters@.len(),
        forall|t: int|
            0 <= t < r.wrong_letters@.len() ==> (#[trigger] r.wrong_letters@[t])@.len() == 1 && r.wrong_letters@[t]@[0] as int + 32
                == session.wrong_letters@[t],
        r.game_over == session.game_over,
        r.won == session.won,
        r.example_word is Some <==> session.game_over,
        r.example_word matches Some(text) ==> text@.len() == session.word_length && forall|j: int|
            0 <= j < text@.len() ==> (#[trigger] text@[j]) as int == words[session.remaining@[0] as int]@[j],
        exists|bits: Seq<u8>| #[trigger]
            base64_text(bits) == r.valid_words_bitvec@ && bits.len() == (words.len() + 7) / 8 && forall|i: int|
                0 <= i < words.len() ==> ((bits[i / 8] >> ((i % 8) as u8)) & 1 == 1 <==> #[trigger] session.remaining@.contains(i as usize)),
        degraded ==> r.solve_status@ == "degraded"@,
        !degraded ==> r.solve_status@ == "solved"@,
{
    lemma_possible(words, session.masked, session.pattern@);
    lemma_upper_text(session.pattern@);
    assert forall|t: int| 0 <= t < r.wrong_letters@.len() implies (#[trigger] r.wrong_letters@[t])@.len() == 1 && r.wrong_letters@[t]@[0] as int + 32
        == session.wrong_letters@[t] by {
        let c = session.wrong_letters@[t];
        assert(session.wrong_letters@.contains(c));
        assert(holds(session.masked, c));
        assert(byte_char(upper(c)) as int + 32 == c);
    }
    lemma_plain_text(words[session.remaining@[0] as int]@);
    assert(session.remaining@[0] < words.len());
    let bits = choose|bits: Seq<u8>| #[trigger]
        is_bitvec(bits, session.remaining@, words.len()) && r.valid_words_bitvec@ == base64_text(bits);
    assert forall|i: int| 0 <= i < words.len() implies ((bits[i / 8] >> ((i % 8) as u8)) & 1 == 1 <==> #[trigger] session.remaining@.contains(
        i as usize,
    )) by {
        assert(byte_bit(bits[i / 8], i % 8) == session.remaining@.contains(i as usize));
    }
    assert(base64_text(bits) == r.valid_words_bitvec@);
}

/// A response gives the places of the guessed letter: they are where it stands in every
/// word that is still possible, and there are none where it was a miss.
pub proof fn lemma_response_places(
    words: Seq<Vec<u8>>,
    before: GameSession,
    plan: GuessPlan,
    b: int,
    after: GameSession,
    degraded: bool,
    r: GuessResponse,
    i: usize,
)
    requires
        before.ok(words),
        words.len() <= usize::MAX,
        plan.fits(words, before),
        0 <= b < plan.parts@.len(),
        answered(before, plan.letter, plan.parts@[b], after),
        reports(words, after, plan.parts@[b].0, degraded, r),
        after.remaining@.contains(i),
    ensures
        r.positions is None <==> !words[i as int]@.contains(plan.letter),
        r.positions matches Some(list) ==> {
            &&& forall|s: int, t: int| 0 <= s < t < list@.len() ==> list@[s] < list@[t]
            &&& forall|j: usize| #[trigger] list@.contains(j) <==> j < words[i as int]@.len() && words[i as int]@[j as int] == plan.letter
        },
{
    let part = plan.parts@[b];
    let w = words[i as int]@;
    lemma_possible(words, before.masked, before.pattern@);
    assert forall|x: int| 0 <= x < words.len() implies (#[trigger] words[x])@.len() <= 32 by {}
    lemma_group(words, before.remaining@, plan.letter, part.0);
    assert(part.1@.contains(i));
    assert(before.remaining@.contains(i));
    assert(place_mask(w, plan.letter) == part.0);
    lemma_mask_bits(w, plan.letter);
    if w.contains(plan.letter) {
        let j = choose|j: int| 0 <= j < w.len() && w[j] == plan.letter;
        assert(at(w, j, plan.letter));
        assert(bit(part.0, j));
        crate::game::letters::lemma_bit_zero();
    }
    if part.0 != 0 {
        assert(occurs(plan.letter, w));
        let j = choose|j: int| #[trigger] at(w, j, plan.letter);
        assert(w[j] == plan.letter);
    }
    if let Some(list) = r.positions {
        assert(lists_places(part.0, list@));
        assert forall|j: usize| #[trigger] list@.contains(j) <==> j < w.len() && w[j as int] == plan.letter by {
            if list@.contains(j) {
                let t = choose|t: int| 0 <= t < list@.len() && list@[t] == j;
                assert(bit(part.0, list@[t] as int));
                assert(at(w, j as int, plan.letter));
            }
            if j < w.len() && w[j as int] == plan.letter {
                assert(at(w, j as int, plan.letter));
                assert(bit(part.0, j as int));
            }
        }
    }
}

/// A miss costs one of the misses left, and the game where there was none; a hit costs
/// nothing and wins the game once no place is hidden. Either way the letter counts as
/// guessed, and the words that gave the answer remain.
pub proof fn lemma_answer_recorded(before: GameSession, letter: u8, part: (u32, Vec<usize>), after: GameSession)
    requires
        is_lower(letter),
        answered(before, letter, part, after),
    ensures
        after.word_length == before.word_length,
        after.guesses_allowed == before.guesses_allowed,
        after.generation == before.generation + 1,
        after.remaining@ == part.1@,
        forall|c: u8| #[trigger] holds(after.masked, c) == (holds(before.masked, c) || c == letter),
        part.0 == 0 && before.guesses_left > 0 ==> after.guesses_left + 1 == before.guesses_left && !after.game_over && !after.won,
        part.0 == 0 && before.guesses_left == 0 ==> after.guesses_left == 0 && after.game_over && !after.won,
        part.0 == 0 ==> after.pattern@ == before.pattern@ && after.wrong_letters@ == before.wrong_letters@ + seq![letter],
        part.0 != 0 ==> after.guesses_left == before.guesses_left && after.wrong_letters@ == before.wrong_letters@,
        part.0 != 0 ==> after.won == after.game_over && (after.won <==> forall|j: int|
            0 <= j < after.pattern@.len() ==> #[trigger] after.pattern@[j] != 95),
        part.0 != 0 ==> after.pattern@.len() == before.pattern@.len() && forall|j: int|
            0 <= j < after.pattern@.len() ==> #[trigger] after.pattern@[j] == if bit(part.0, j) {
                letter
            } else {
                before.pattern@[j]
            },
{
    lemma_add_letter(before.masked, letter);
    assert(before.wrong_letters@.push(letter) =~= before.wrong_letters@ + seq![letter]);
    if part.0 != 0 {
        if after.pattern@.contains(HIDDEN) {
            let j = choose|j: int| 0 <= j < after.pattern@.len() && after.pattern@[j] == HIDDEN;
            assert(after.pattern@[j] == 95);
        }
        if exists|j: int| 0 <= j < after.pattern@.len() && after.pattern@[j] == 95 {
            let j = choose|j: int| 0 <= j < after.pattern@.len() && after.pattern@[j] == 95;
            assert(after.pattern@[j] == HIDDEN);
        }
    }
}

/// A player sees the letters that they have guessed, where they stand, and nothing of
/// the others.
pub proof fn lemma_seen(w: Seq<u8>, masked: u32, j: int)
    requires
        0 <= j < w.len(),
    ensures
        seen(w, masked).len() == w.len(),
        holds(masked, w[j]) ==> seen(w, masked)[j] == w[j],
        !holds(masked, w[j]) ==> seen(w, masked)[j] == 95,
{
}

/// A word is possible as long as it agrees with everything that was seen: at every
/// place it has the letter shown, or a letter that was not guessed where none is shown.
pub proof fn lemma_possible_words(words: Seq<Vec<u8>>, masked: u32, pattern: Seq<u8>, i: usize)
    requires
        words.len() <= usize::MAX,
        i < words.len(),
        forall|j: int| 0 <= j < words[i as int]@.len() ==> is_lower(#[trigger] words[i as int]@[j]),
    ensures
        possible(words, masked, pattern).contains(i) <==> words[i as int]@.len() == pattern.len() && forall|j: int|
            0 <= j < pattern.len() ==> (#[trigger] pattern[j]) == if holds(masked, words[i as int]@[j]) {
                words[i as int]@[j]
            } else {
                95
            },
{
    lemma_possible(words, masked, pattern);
    let w = words[i as int]@;
    if seen(w, masked) == pattern {
        assert forall|j: int| 0 <= j < pattern.len() implies (#[trigger] pattern[j]) == if holds(masked, w[j]) {
            w[j]
        } else {
            95
        } by {
            assert(seen(w, masked)[j] == pattern[j]);
        }
    }
    if w.len() == pattern.len() && forall|j: int|
        0 <= j < pattern.len() ==> (#[trigger] pattern[j]) == if holds(masked, w[j]) {
            w[j]
        } else {
            95
        } {
        assert(seen(w, masked) =~= pattern);
    }
}

/// The place of a ticket counts the tickets below it, each once.
pub proof fn lemma_tickets_counted(inflight: Seq<u64>, ticket: u64, n: nat)
    requires
        n <= inflight.len(),
    ensures
        tickets_ahead(inflight, ticket, n) == inflight.take(n as int).filter(|t: u64| t < ticket).len(),
    decreases n,
{
    let f = |t: u64| t < ticket;
    reveal(Seq::filter);
    if n == 0 {
        assert(inflight.take(0).filter(f) =~= Seq::empty());
    } else {
        lemma_tickets_counted(inflight, ticket, (n - 1) as nat);
        assert(inflight.take(n as int).drop_last() =~= inflight.take(n - 1));
    }
}

/// What a character of the alphabet stands for: upper-case letters, lower-case letters,
/// digits, plus and slash, in this order.
pub open spec fn digit_read(c: char) -> int {
    let u = c as int;
    if 65 <= u <= 90 {
        u - 65
    } else if 97 <= u <= 122 {
        u - 97 + 26
    } else if 48 <= u <= 57 {
        u - 48 + 52
    } else if u == 43 {
        62
    } else {
        63
    }
}

/// The digits are told apart.
pub proof fn lemma_digit_read(v: int)
    requires
        0 <= v < 64,
    ensures
        digit_read(base64_digit(v)) == v,
        base64_digit(v) != '=',
{
}

/// A text has four characters for every three bytes or part of three, the last ones being
/// equals signs where bytes are missing, and reading the characters gives the bytes back.
pub proof fn lemma_bytes_read_back(bytes: Seq<u8>, i: int)
    requires
        0 <= i < bytes.len(),
    ensures
        base64_text(bytes).len() == (bytes.len() + 2) / 3 * 4,
        ({
            let at = i / 3 * 4;
            let t = base64_text(bytes);
            &&& i % 3 == 0 ==> bytes[i] == digit_read(t[at]) * 4 + digit_read(t[at + 1]) / 16
            &&& i % 3 == 1 ==> bytes[i] == digit_read(t[at + 1]) % 16 * 16 + digit_read(t[at + 2]) / 4
            &&& i % 3 == 2 ==> bytes[i] == digit_read(t[at + 2]) % 4 * 64 + digit_read(t[at + 3])
            &&& i == bytes.len() - 1 && i % 3 == 0 ==> t[at + 2] == '=' && t[at + 3] == '='
            &&& i == bytes.len() - 1 && i % 3 == 1 ==> t[at + 3] == '='
        }),
    decreases bytes.len(),
{
    let t = base64_text(bytes);
    lemma_first_block(bytes);
    if bytes.len() > 3 {
        let rest = bytes.skip(3);
        let r = base64_text(rest);
        lemma_bytes_read_back(rest, if i >= 3 { i - 3 } else { 0 });
        if i >= 3 {
            lemma_later_block(bytes, i);
        }
    }
}

proof fn lemma_later_block(bytes: Seq<u8>, i: int)
    requires
        3 <= i < bytes.len(),
    ensures
        ({
            let at = i / 3 * 4;
            let past = (i - 3) / 3 * 4;
            let t = base64_text(bytes);
            let r = base64_text(bytes.skip(3));
            r.len() >= past + 4 ==> t[at] == r[past] && t[at + 1] == r[past + 1] && t[at + 2] == r[past + 2] && t[at + 3] == r[past + 3]
        }),
        bytes.skip(3)[i - 3] == bytes[i],
        (i - 3) % 3 == i % 3,
{
    assert(i / 3 * 4 == (i - 3) / 3 * 4 + 4);
}

proof fn lemma_quad(b0: int, b1: int, b2: int)
    requires
        0 <= b0 < 256,
        0 <= b1 < 256,
        0 <= b2 < 256,
    ensures
        ({
            let n = b0 * 65536 + b1 * 256 + b2;
            let d0 = n / 262144;
            let d1 = (n / 4096) % 64;
            let d2 = (n / 64) % 64;
            let d3 = n % 64;
            &&& 0 <= d0 < 64
            &&& b0 == d0 * 4 + d1 / 16
            &&& b1 == d1 % 16 * 16 + d2 / 4
            &&& b2 == d2 % 4 * 64 + d3
        }),
{
    let n = b0 * 65536 + b1 * 256 + b2;
    let q0 = b0 / 4;
    let q1 = b1 / 16;
    let q2 = b2 / 64;
    let d1 = b0 % 4 * 16 + q1;
    let d2 = b1 % 16 * 4 + q2;
    let d3 = b2 % 64;
    assert(n == q0 * 262144 + d1 * 4096 + d2 * 64 + d3);
    lemma_digit_at(q0, d1 * 4096 + d2 * 64 + d3, 262144);
    lemma_digit_at(q0 * 64 + d1, d2 * 64 + d3, 4096);
    lemma_digit_at(q0 * 4096 + d1 * 64 + d2, d3, 64);
    lemma_digit_at(q0, d1, 64);
    lemma_digit_at(q0 * 64 + d1, d2, 64);
    lemma_digit_at(b0 % 4, q1, 16);
    lemma_digit_at(b1 % 16, q2, 4);
}

proof fn lemma_digit_at(q: int, r: int, m: int)
    requires
        m > 0,
        0 <= r < m,
    ensures
        (q * m + r) / m == q,
        (q * m + r) % m == r,
{
    vstd::arithmetic::div_mod::lemma_fundamental_div_mod_converse(q * m + r, m, q, r);
}

proof fn lemma_first_block(bytes: Seq<u8>)
    requires
        bytes.len() > 0,
    ensures
        ({
            let t = base64_text(bytes);
            &&& bytes.len() <= 3 ==> t.len() == 4
            &&& bytes.len() > 3 ==> t.len() == 4 + base64_text(bytes.skip(3)).len()
            &&& bytes[0] == digit_read(t[0]) * 4 + digit_read(t[1]) / 16
            &&& bytes.len() > 1 ==> bytes[1] == digit_read(t[1]) % 16 * 16 + digit_read(t[2]) / 4
            &&& bytes.len() > 2 ==> bytes[2] == digit_read(t[2]) % 4 * 64 + digit_read(t[3])
            &&& bytes.len() == 1 ==> t[2] == '=' && t[3] == '='
            &&& bytes.len() == 2 ==> t[3] == '='
        }),
{
    let b0 = bytes[0] as int;
    let b1: int = if bytes.len() > 1 {
        bytes[1] as int
    } else {
        0
    };
    let b2: int = if bytes.len() > 2 {
        bytes[2] as int
    } else {
        0
    };
    let n = b0 * 65536 + b1 * 256 + b2;
    lemma_quad(b0, b1, b2);
    lemma_digit_read(n / 262144);
    lemma_digit_read((n / 4096) % 64);
    lemma_digit_read((n / 64) % 64);
    lemma_digit_read(n % 64);
}

} // verus!
