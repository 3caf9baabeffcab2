//! Paths through the game.
use vstd::prelude::*;

use crate::game::letters::{bit_of, holds, is_lower, lemma_test_letter, letter_bit, place_mask, LetterSet};
use crate::precompute::parts::{part_before, part_views, partition_by_letter};
use crate::precompute::shard::chars_of;
use crate::solver::partition::{group, has_part, lemma_group, short_words};
use crate::solver::signature::idx_ok;
use crate::trace::last_largest;

verus! {

/// The pieces of a text between the separators.
pub open spec fn pieces(s: Seq<char>, separator: char) -> Seq<Seq<char>>
    decreases s.len(),
{
    if s.len() == 0 {
        seq![Seq::empty()]
    } else {
        let before = pieces(s.drop_last(), separator);
        if s.last() == separator {
            before.push(Seq::empty())
        } else {
            before.drop_last().push(before.last().push(s.last()))
        }
    }
}

/// The texts as sequences.
pub open spec fn texts(v: Seq<Vec<char>>) -> Seq<Seq<char>> {
    Seq::new(v.len(), |i: int| v[i]@)
}

/// Split a text at the separators.
fn split(text: &Vec<char>, separator: char) -> (r: Vec<Vec<char>>)
    ensures
        texts(r@) == pieces(text@, separator),
        r@.len() >= 1,
{
    let mut done: Vec<Vec<char>> = Vec::new();
    let mut last: Vec<char> = Vec::new();
    let mut i: usize = 0;
    assert(texts(done@).push(last@) =~= pieces(text@.take(0), separator));
    while i < text.len()
        invariant
            i <= text@.len(),
            texts(done@).push(last@) == pieces(text@.take(i as int), separator),
        decreases text@.len() - i,
    {
        let c: char = text[i];
        let ghost now = text@.take(i + 1);
        let ghost before = texts(done@).push(last@);
        assert(now.drop_last() =~= text@.take(i as int));
        assert(before.drop_last() =~= texts(done@));
        let ghost old_done = done@;
        if c == separator {
            done.push(last);
            last = Vec::new();
            assert(texts(done@) =~= before);
        } else {
            last.push(c);
        }
        assert(texts(done@).push(last@) =~= pieces(now, separator));
        i += 1;
    }
    assert(text@.take(i as int) =~= text@);
    let ghost before = texts(done@).push(last@);
    done.push(last);
    assert(texts(done@) =~= before);
    done
}

/// Why a step of a path was not accepted.
#[derive(Debug, Clone, Copy, PartialEq, Eq, Structural)]
pub enum StepError {
    /// Nothing stands before the colon.
    MissingLetter,
    /// The step does not start with a letter from a to z.
    NotALetter,
    /// There is no colon.
    MissingMask,
    /// What follows the colon is not a hexadecimal number of 32 bits.
    NotAMask,
}

impl StepError {
    /// The message for the user.
    pub fn message(&self) -> (r: &'static str)
        ensures
            r@ == match *self {
                StepError::MissingLetter => "a step must start with a letter"@,
                StepError::NotALetter => "a step must start with a letter from a to z"@,
                StepError::MissingMask => "a step must be letter:mask (e.g. a:0x22)"@,
                StepError::NotAMask => "a mask must be a hexadecimal number"@,
            },
    {
        match self {
            StepError::MissingLetter => "a step must start with a letter",
            StepError::NotALetter => "a step must start with a letter from a to z",
            StepError::MissingMask => "a step must be letter:mask (e.g. a:0x22)",
            StepError::NotAMask => "a mask must be a hexadecimal number",
        }
    }
}

/// The value of a hexadecimal digit.
pub open spec fn hex_digit(c: char) -> Option<u32> {
    if '0' <= c <= '9' {
        Some((c as u32 - 48) as u32)
    } else if 'a' <= c <= 'f' {
        Some((c as u32 - 87) as u32)
    } else if 'A' <= c <= 'F' {
        Some((c as u32 - 55) as u32)
    } else {
        None
    }
}

/// The number that the first `n` hexadecimal digits write.
pub open spec fn hex_value(s: Seq<char>, n: nat) -> nat
    decreases n,
{
    if n == 0 {
        0
    } else {
        hex_value(s, (n - 1) as nat) * 16 + match hex_digit(s[n - 1]) {
            Some(d) => d as nat,
            None => 0,
        }
    }
}

/// Only hexadecimal digits, and at least one.
pub open spec fn all_hex(s: Seq<char>) -> bool {
    s.len() > 0 && forall|i: int| 0 <= i < s.len() ==> hex_digit(#[trigger] s[i]) is Some
}

/// The number that a text writes: hexadecimal digits, with a plus sign before them
/// or not.
pub open spec fn hex_in(s: Seq<char>) -> Option<u32> {
    let d = if s.len() > 0 && s[0] == '+' {
        s.skip(1)
    } else {
        s
    };
    if all_hex(d) && hex_value(d, d.len()) <= u32::MAX {
        Some(hex_value(d, d.len()) as u32)
    } else {
        None
    }
}

/// The text after every `0x` that it starts with.
pub open spec fn untagged(s: Seq<char>) -> Seq<char>
    decreases s.len(),
{
    if s.len() >= 2 && s[0] == '0' && s[1] == 'x' {
        untagged(s.skip(2))
    } else {
        s
    }
}

/// The letter and the places that a step names.
pub open spec fn step_in(s: Seq<char>) -> Result<(u8, u32), StepError> {
    let p = pieces(s, ':');
    if p[0].len() == 0 {
        Err(StepError::MissingLetter)
    } else if !('a' <= p[0][0] <= 'z') {
        Err(StepError::NotALetter)
    } else if p.len() < 2 {
        Err(StepError::MissingMask)
    } else {
        match hex_in(untagged(p[1])) {
            None => Err(StepError::NotAMask),
            Some(m) => Ok((p[0][0] as u8, m)),
        }
    }
}

proof fn lemma_hex_grow(s: Seq<char>, m: nat, n: nat)
    requires
        m <= n <= s.len(),
    ensures
        hex_value(s, m) <= hex_value(s, n),
    decreases n,
{
    if m < n {
        lemma_hex_grow(s, m, (n - 1) as nat);
    }
}

/// The value of a hexadecimal digit.
fn read_digit(c: char) -> (r: Option<u32>)
    ensures
        r == hex_digit(c),
        r matches Some(d) ==> d < 16,
{
    if '0' <= c && c <= '9' {
        Some(c as u32 - 48)
    } else if 'a' <= c && c <= 'f' {
        Some(c as u32 - 87)
    } else if 'A' <= c && c <= 'F' {
        Some(c as u32 - 55)
    } else {
        None
    }
}

/// Read the hexadecimal number from a place of a text on.
fn read_hex(text: &Vec<char>, from: usize) -> (r: Option<u32>)
    requires
        from <= text@.len(),
    ensures
        r == hex_in(text@.skip(from as int)),
{
    let n: usize = text.len();
    let ghost s = text@.skip(from as int);
    let start: usize = if from < n && text[from] == '+' {
        from + 1
    } else {
        from
    };
    let ghost d = text@.skip(start as int);
    proof {
        if start > from {
            assert(s[0] == '+');
            assert(s.skip(1) =~= d);
        } else {
            assert(s =~= d);
        }
    }
    if start == n {
        return None;
    }
    let mut value: u32 = 0;
    let mut i: usize = start;
    while i < n
        invariant
            start <= i <= n,
            n == text@.len(),
            d == text@.skip(start as int),
            value == hex_value(d, (i - start) as nat),
            forall|j: int| 0 <= j < i - start ==> hex_digit(#[trigger] d[j]) is Some,
            hex_in(s) == (if all_hex(d) && hex_value(d, d.len()) <= u32::MAX {
                Some(hex_value(d, d.len()) as u32)
            } else {
                None
            }),
            s == text@.skip(from as int),
        decreases n - i,
    {
        let c: char = text[i];
        assert(d[i - start] == c);
        let digit: u32 = match read_digit(c) {
            None => {
                return None;
            },
            Some(digit) => digit,
        };
        proof {
            lemma_hex_grow(d, (i - start + 1) as nat, d.len());
            assert(hex_value(d, (i - start + 1) as nat) == value * 16 + digit);
        }
        if value > 0x0FFF_FFFF {
            return None;
        }
        value = value * 16 + digit;
        i += 1;
    }
    Some(value)
}

/// The place after every `0x` that the text starts with.
fn skip_tags(text: &Vec<char>) -> (r: usize)
    ensures
        r <= text@.len(),
        text@.skip(r as int) == untagged(text@),
{
    let n: usize = text.len();
    let mut i: usize = 0;
    assert(text@.skip(0) =~= text@);
    while n - i >= 2 && text[i] == '0' && text[i + 1] == 'x'
        invariant
            i <= n,
            n == text@.len(),
            untagged(text@.skip(i as int)) == untagged(text@),
        decreases n - i,
    {
        assert(text@.skip(i as int).skip(2) =~= text@.skip(i + 2));
        i += 2;
    }
    i
}

/// Parse a step of the form `letter:mask`, the mask in hexadecimal.
fn parse_step(text: &Vec<char>) -> (r: Result<(u8, u32), StepError>)
    ensures
        r == step_in(text@),
        r matches Ok(step) ==> is_lower(step.0),
{
    let parts = split(text, ':');
    let ghost p = pieces(text@, ':');
    assert(p[0] == parts@[0]@);
    if parts[0].len() == 0 {
        return Err(StepError::MissingLetter);
    }
    let c: char = parts[0][0];
    if !('a' <= c && c <= 'z') {
        return Err(StepError::NotALetter);
    }
    if parts.len() < 2 {
        return Err(StepError::MissingMask);
    }
    assert(p[1] == parts@[1]@);
    let from: usize = skip_tags(&parts[1]);
    match read_hex(&parts[1], from) {
        None => Err(StepError::NotAMask),
        Some(m) => Ok((c as u8, m)),
    }
}

/// The path is made of these steps, or its first faulty step has this fault.
pub open spec fn is_path(p: Seq<Seq<char>>, r: Result<Seq<(u8, u32)>, StepError>) -> bool {
    match r {
        Ok(steps) => steps.len() == p.len() && forall|i: int| 0 <= i < p.len() ==> step_in(#[trigger] p[i]) == Ok::<
            (u8, u32),
            StepError,
        >(steps[i]),
        Err(e) => exists|i: int|
            0 <= i < p.len() && step_in(#[trigger] p[i]) == Err::<(u8, u32), StepError>(e) && forall|j: int|
                0 <= j < i ==> step_in(#[trigger] p[j]) is Ok,
    }
}

/// Parse a path: steps of the form `letter:mask` with commas between them, such as
/// `a:0,b:0,i:0x22`.
pub fn parse_steps(text: &str) -> (r: Result<Vec<(u8, u32)>, StepError>)
    ensures
        is_path(
            pieces(text@, ','),
            match r {
                Ok(steps) => Ok(steps@),
                Err(e) => Err(e),
            },
        ),
        r matches Ok(steps) ==> forall|i: int| 0 <= i < steps@.len() ==> is_lower((#[trigger] steps@[i]).0),
        r matches Ok(steps) ==> steps@.len() == pieces(text@, ',').len() && forall|i: int|
            0 <= i < steps@.len() ==> step_in(#[trigger] pieces(text@, ',')[i]) == Ok::<(u8, u32), StepError>(steps@[i]),
        r is Err <==> exists|i: int| 0 <= i < pieces(text@, ',').len() && step_in(#[trigger] pieces(text@, ',')[i]) is Err,
        r matches Err(e) ==> exists|i: int|
            0 <= i < pieces(text@, ',').len() && step_in(#[trigger] pieces(text@, ',')[i]) == Err::<(u8, u32), StepError>(e) && forall|j: int|
                0 <= j < i ==> step_in(#[trigger] pieces(text@, ',')[j]) is Ok,
{
    let s = chars_of(text);
    let parts = split(&s, ',');
    let ghost p = pieces(text@, ',');
    let mut steps: Vec<(u8, u32)> = Vec::new();
    let mut i: usize = 0;
    while i < parts.len()
        invariant
            i <= parts@.len(),
            texts(parts@) == p,
            steps@.len() == i,
            forall|j: int| 0 <= j < i ==> step_in(#[trigger] p[j]) == Ok::<(u8, u32), StepError>(steps@[j]),
            forall|j: int| 0 <= j < i ==> is_lower((#[trigger] steps@[j]).0),
            p == pieces(text@, ','),
        decreases parts@.len() - i,
    {
        assert(p[i as int] == parts@[i as int]@);
        match parse_step(&parts[i]) {
            Err(e) => {
                assert(step_in(p[i as int]) == Err::<(u8, u32), StepError>(e));
                return Err(e);
            },
            Ok(step) => {
                steps.push(step);
            },
        }
        i += 1;
    }
    Ok(steps)
}

/// Why a letter cannot be guessed.
#[derive(Debug, Clone, Copy, PartialEq, Eq, Structural)]
pub enum LetterError {
    /// It is not a letter from a to z.
    Invalid,
    /// It has been guessed.
    Repeated,
}

/// The letter that a character of a path stands for: its lowest eight bits.
pub open spec fn letter_in(c: char) -> u8 {
    (c as u32 % 256) as u8
}

/// Take a character of a path as the next guess.
pub fn next_letter(c: char, masked: LetterSet) -> (r: Result<u8, LetterError>)
    ensures
        r == if !is_lower(letter_in(c)) {
            Err::<u8, LetterError>(LetterError::Invalid)
        } else if holds(masked, letter_in(c)) {
            Err(LetterError::Repeated)
        } else {
            Ok(letter_in(c))
        },
{
    let letter: u8 = (c as u32 % 256) as u8;
    if !(97 <= letter && letter <= 122) {
        return Err(LetterError::Invalid);
    }
    proof {
        lemma_test_letter(masked, letter);
    }
    if masked & letter_bit(letter) != 0 {
        return Err(LetterError::Repeated);
    }
    Ok(letter)
}

/// The words that answer to a letter with these places, in the order of the list.
pub fn follow(words: &[Vec<u8>], indices: &[usize], letter: u8, pmask: u32) -> (r: Option<Vec<usize>>)
    requires
        short_words(words@),
        idx_ok(indices@, words@.len()),
    ensures
        match r {
            Some(kept) => kept@ == group(words@, indices@, letter, pmask) && kept@.len() > 0,
            None => group(words@, indices@, letter, pmask).len() == 0,
        },
        r matches Some(kept) ==> idx_ok(kept@, words@.len()),
{
    let mut parts = partition_by_letter(words, indices, letter);
    let n: usize = parts.len();
    let mut i: usize = 0;
    while i < n && parts[i].0 != pmask
        invariant
            i <= n,
            n == parts@.len(),
            forall|a: int| 0 <= a < i ==> (#[trigger] parts@[a]).0 != pmask,
        decreases n - i,
    {
        i += 1;
    }
    proof {
        lemma_group(words@, indices@, letter, pmask);
    }
    if i < n {
        assert(parts@[i as int].1@ == group(words@, indices@, letter, pmask));
        let (_m, kept) = parts.swap_remove(i);
        Some(kept)
    } else {
        proof {
            let g = group(words@, indices@, letter, pmask);
            if g.len() > 0 {
                assert(g.contains(g[0]));
                assert(has_part(parts@, pmask));
            }
        }
        None
    }
}

/// The position after the first `n` steps: the words left and the letters guessed.
pub open spec fn walked(words: Seq<Vec<u8>>, idx: Seq<usize>, steps: Seq<(u8, u32)>, n: nat) -> (Seq<usize>, u32)
    decreases n,
{
    if n == 0 {
        (idx, 0)
    } else {
        let (before, masked) = walked(words, idx, steps, (n - 1) as nat);
        let (l, m) = steps[n - 1];
        (group(words, before, l, m), masked | bit_of(l))
    }
}

/// Walk a path from the start of a game. Where a step leaves no word, its number is
/// returned.
pub fn walk_steps(words: &[Vec<u8>], steps: &[(u8, u32)]) -> (r: Result<(Vec<usize>, LetterSet), usize>)
    requires
        short_words(words@),
        words@.len() > 0,
        forall|i: int| 0 <= i < steps@.len() ==> is_lower((#[trigger] steps@[i]).0),
    ensures
        ({
            let all = Seq::new(words@.len(), |i: int| i as usize);
            match r {
                Ok((indices, masked)) => (indices@, masked) == walked(words@, all, steps@, steps@.len()) && indices@.len() > 0,
                Err(s) => s < steps@.len() && walked(words@, all, steps@, (s + 1) as nat).0.len() == 0 && forall|t: nat|
                    t <= s ==> (#[trigger] walked(words@, all, steps@, t)).0.len() > 0,
            }
        }),
        r matches Ok(p) ==> idx_ok(p.0@, words@.len()),
{
    let ghost all = Seq::new(words@.len(), |i: int| i as usize);
    let mut indices: Vec<usize> = Vec::new();
    let mut i: usize = 0;
    while i < words.len()
        invariant
            i <= words@.len(),
            indices@.len() == i,
            forall|j: int| 0 <= j < i ==> indices@[j] == j,
        decreases words@.len() - i,
    {
        indices.push(i);
        i += 1;
    }
    assert(indices@ =~= all);
    let mut masked: LetterSet = 0;
    let mut s: usize = 0;
    while s < steps.len()
        invariant
            s <= steps@.len(),
            short_words(words@),
            forall|i: int| 0 <= i < steps@.len() ==> is_lower((#[trigger] steps@[i]).0),
            (indices@, masked) == walked(words@, all, steps@, s as nat),
            indices@.len() > 0,
            idx_ok(indices@, words@.len()),
            forall|t: nat| t <= s ==> (#[trigger] walked(words@, all, steps@, t)).0.len() > 0,
            all == Seq::new(words@.len(), |i: int| i as usize),
        decreases steps@.len() - s,
    {
        let (letter, pmask) = steps[s];
        assert(is_lower(steps@[s as int].0));
        let ghost next = walked(words@, all, steps@, (s + 1) as nat);
        assert(next.0 == group(words@, indices@, letter, pmask));
        match follow(words, indices.as_slice(), letter, pmask) {
            None => {
                return Err(s);
            },
            Some(kept) => {
                indices = kept;
            },
        }
        masked = masked | letter_bit(letter);
        s += 1;
    }
    Ok((indices, masked))
}

/// The answer that leaves the most words: its places and those words. Of several,
/// the one with the highest mask.
pub fn largest_answer(words: &[Vec<u8>], indices: &[usize], letter: u8) -> (r: (u32, Vec<usize>))
    requires
        short_words(words@),
        indices@.len() > 0,
        idx_ok(indices@, words@.len()),
    ensures
        r.1@ == group(words@, indices@, letter, r.0),
        r.1@.len() > 0,
        idx_ok(r.1@, words@.len()),
        forall|m: u32| (#[trigger] group(words@, indices@, letter, m)).len() <= r.1@.len(),
        forall|m: u32| (#[trigger] group(words@, indices@, letter, m)).len() == r.1@.len() ==> m <= r.0,
{
    let mut parts = partition_by_letter(words, indices, letter);
    proof {
        let first = place_mask(words@[indices@[0] as int]@, letter);
        assert(has_part(parts@, first));
    }
    let ghost all = parts@;
    let b: usize = last_largest(&parts);
    let ghost best = parts@[b as int];
    let chosen = parts.swap_remove(b);
    proof {
        lemma_group(words@, indices@, letter, best.0);
        let p = part_views(all);
        assert forall|m: u32| (#[trigger] group(words@, indices@, letter, m)).len() <= best.1@.len() && (group(
            words@,
            indices@,
            letter,
            m,
        ).len() == best.1@.len() ==> m <= best.0) by {
            let g = group(words@, indices@, letter, m);
            if g.len() > 0 {
                assert(p.contains((m, g)));
                let a = choose|a: int| 0 <= a < p.len() && p[a] == (m, g);
                assert(all[a].1@ == g);
                if a < b {
                    assert(part_before(p[a], p[b as int]));
                }
            }
        }
    }
    chosen
}

} // verus!
