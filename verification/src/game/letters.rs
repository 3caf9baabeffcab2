//! Sets of letters and sets of places, both kept as the bits of a `u32`.
use vstd::prelude::*;

use crate::game::rules::{at, occurs, same_places};

verus! {

/// A bitmask over the 26 lowercase ASCII letters: bit 0 is `a`, bit 25 is `z`.
pub type LetterSet = u32;

/// Bit `i` of `m` is set.
pub open spec fn bit(m: u32, i: int) -> bool {
    0 <= i < 32 && (m >> (i as u32)) & 1 == 1
}

/// `c` is one of `a` to `z`.
pub open spec fn is_lower(c: u8) -> bool {
    97 <= c <= 122
}

/// The letter set that holds `c` alone.
pub open spec fn bit_of(c: u8) -> u32 {
    1u32 << ((c - 97) as u32)
}

/// Letter `c` is in the set `m`.
pub open spec fn holds(m: u32, c: u8) -> bool {
    is_lower(c) && bit(m, c - 97)
}

/// The letters in the set `m`.
pub open spec fn letters(m: u32) -> Set<u8> {
    Set::new(|c: u8| holds(m, c))
}

/// The bits of an `or`, an `and` and a complement.
pub proof fn lemma_bit_ops(a: u32, b: u32)
    ensures
        forall|i: int| #[trigger] bit(a | b, i) == (bit(a, i) || bit(b, i)),
        forall|i: int| #[trigger] bit(a & b, i) == (bit(a, i) && bit(b, i)),
        forall|i: int| 0 <= i < 32 ==> #[trigger] bit(!a, i) == !bit(a, i),
{
    assert forall|i: int| #[trigger] bit(a | b, i) == (bit(a, i) || bit(b, i)) by {
        let j = i as u32;
        if 0 <= i < 32 {
            assert((((a | b) >> j) & 1 == 1) == ((a >> j) & 1 == 1 || (b >> j) & 1 == 1))
                by (bit_vector);
        }
    }
    assert forall|i: int| #[trigger] bit(a & b, i) == (bit(a, i) && bit(b, i)) by {
        let j = i as u32;
        if 0 <= i < 32 {
            assert((((a & b) >> j) & 1 == 1) == ((a >> j) & 1 == 1 && (b >> j) & 1 == 1))
                by (bit_vector);
        }
    }
    assert forall|i: int| 0 <= i < 32 implies #[trigger] bit(!a, i) == !bit(a, i) by {
        let j = i as u32;
        assert(j < 32 ==> (((!a) >> j) & 1 == 1) == ((a >> j) & 1 != 1)) by (bit_vector);
    }
}

/// A shifted one has a single bit.
pub proof fn lemma_bit_single(i: u32)
    requires
        i < 32,
    ensures
        forall|j: int| #[trigger] bit(1u32 << i, j) == (j == i),
{
    assert forall|j: int| #[trigger] bit(1u32 << i, j) == (j == i) by {
        let k = j as u32;
        if 0 <= j < 32 {
            assert(i < 32 && k < 32 ==> (((1u32 << i) >> k) & 1 == 1) == (k == i)) by (bit_vector);
        }
    }
}

/// The number zero has no bits.
pub proof fn lemma_bit_zero()
    ensures
        forall|i: int| !#[trigger] bit(0u32, i),
{
    assert forall|i: int| !#[trigger] bit(0u32, i) by {
        let j = i as u32;
        assert(j < 32 ==> (0u32 >> j) & 1 == 0) by (bit_vector);
    }
}

/// Numbers with the same bits are equal.
pub proof fn lemma_bits_equal(a: u32, b: u32)
    requires
        forall|i: int| 0 <= i < 32 ==> #[trigger] bit(a, i) == bit(b, i),
    ensures
        a == b,
{
    if a != b {
        let d = lemma_bits_differ(a, b);
        assert(bit(a, d as int) == bit(b, d as int));
    }
}

proof fn lemma_bits_differ(a: u32, b: u32) -> (d: u32)
    requires
        a != b,
    ensures
        d < 32,
        ((a >> d) & 1 == 1) != ((b >> d) & 1 == 1),
{
    if forall|d: u32| d < 32 ==> (#[trigger] (a >> d)) & 1 == (b >> d) & 1 {
        lemma_equal_below(a, b, 32);
        assert(false);
    }
    let d = choose|d: u32| d < 32 && (#[trigger] (a >> d)) & 1 != (b >> d) & 1;
    assert(((a >> d) & 1 == 1) != ((b >> d) & 1 == 1)) by (bit_vector)
        requires
            (a >> d) & 1 != (b >> d) & 1,
    ;
    d
}

/// The lowest `n` bits of `a`.
spec fn low(a: u32, n: u32) -> u32 {
    if n >= 32 {
        a
    } else {
        a & !(0xffff_ffffu32 << n)
    }
}

proof fn lemma_equal_below(a: u32, b: u32, n: u32)
    requires
        n <= 32,
        forall|d: u32| d < 32 ==> (#[trigger] (a >> d)) & 1 == (b >> d) & 1,
    ensures
        low(a, n) == low(b, n),
    decreases n,
{
    if n == 0 {
        assert(a & !(0xffff_ffffu32 << 0u32) == 0 && b & !(0xffff_ffffu32 << 0u32) == 0)
            by (bit_vector);
    } else {
        let p: u32 = (n - 1) as u32;
        lemma_equal_below(a, b, p);
        assert((a >> p) & 1 == (b >> p) & 1);
        if n == 32 {
            assert(a == b) by (bit_vector)
                requires
                    p == 31,
                    a & !(0xffff_ffffu32 << p) == b & !(0xffff_ffffu32 << p),
                    (a >> p) & 1 == (b >> p) & 1,
            ;
        } else {
            assert(a & !(0xffff_ffffu32 << n) == b & !(0xffff_ffffu32 << n)) by (bit_vector)
                requires
                    p < 31,
                    n == p + 1,
                    a & !(0xffff_ffffu32 << p) == b & !(0xffff_ffffu32 << p),
                    (a >> p) & 1 == (b >> p) & 1,
            ;
        }
    }
}

/// A number other than zero has a bit.
pub proof fn lemma_some_bit(a: u32) -> (d: int)
    requires
        a != 0,
    ensures
        0 <= d < 32,
        bit(a, d),
{
    lemma_bit_zero();
    if forall|i: int| 0 <= i < 32 ==> !bit(a, i) {
        lemma_bits_equal(a, 0);
    }
    choose|d: int| 0 <= d < 32 && bit(a, d)
}

/// Membership in unions, intersections and complements of letter sets.
pub proof fn lemma_has_ops(a: u32, b: u32)
    ensures
        forall|c: u8| #[trigger] holds(a | b, c) == (holds(a, c) || holds(b, c)),
        forall|c: u8| #[trigger] holds(a & b, c) == (holds(a, c) && holds(b, c)),
        forall|c: u8| is_lower(c) ==> #[trigger] holds(!a, c) == !holds(a, c),
{
    lemma_bit_ops(a, b);
}

/// A letter's bit holds that letter only.
pub proof fn lemma_has_bit(c: u8)
    requires
        is_lower(c),
    ensures
        forall|d: u8| #[trigger] holds(bit_of(c), d) == (d == c),
{
    lemma_bit_single((c - 97) as u32);
}

/// The empty letter set holds nothing.
pub proof fn lemma_has_zero()
    ensures
        forall|d: u8| !#[trigger] holds(0, d),
        letters(0) == Set::<u8>::empty(),
{
    lemma_bit_zero();
    assert(letters(0) =~= Set::<u8>::empty());
}

/// Adding a letter's bit adds the letter.
pub proof fn lemma_add_letter(m: u32, c: u8)
    requires
        is_lower(c),
    ensures
        letters(m | bit_of(c)) == letters(m).insert(c),
        forall|d: u8| #[trigger] holds(m | bit_of(c), d) == (holds(m, d) || d == c),
{
    lemma_has_ops(m, bit_of(c));
    lemma_has_bit(c);
    assert(letters(m | bit_of(c)) =~= letters(m).insert(c));
}

/// A bit test by masking.
pub proof fn lemma_test_letter(m: u32, c: u8)
    requires
        is_lower(c),
    ensures
        (m & bit_of(c) != 0) == holds(m, c),
{
    lemma_has_ops(m, bit_of(c));
    lemma_bit_ops(m, bit_of(c));
    lemma_bit_single((c - 97) as u32);
    lemma_bit_zero();
    if m & bit_of(c) != 0 {
        let d = lemma_some_bit(m & bit_of(c));
        assert(bit(bit_of(c), d));
    } else {
        assert(!bit(m & bit_of(c), c - 97));
    }
}

/// The set of all 26 letters.
pub const ALL_LETTERS: LetterSet = 0x03ff_ffff;

/// No bit is set beyond those of the letters.
pub open spec fn only_letters(m: u32) -> bool {
    forall|i: int| 26 <= i ==> !#[trigger] bit(m, i)
}

/// A nonempty letter set holds some letter.
pub proof fn lemma_some_letter(m: u32) -> (c: u8)
    requires
        m != 0,
        only_letters(m),
    ensures
        holds(m, c),
{
    let d = lemma_some_bit(m);
    assert(0 <= d < 26);
    (97 + d) as u8
}

/// The full set holds every letter.
pub proof fn lemma_all_letters()
    ensures
        forall|c: u8| #[trigger] holds(ALL_LETTERS, c) == is_lower(c),
        only_letters(ALL_LETTERS),
{
    assert forall|i: int| 26 <= i implies !#[trigger] bit(ALL_LETTERS, i) by {
        if i < 32 {
            let j: u32 = i as u32;
            assert(26 <= j < 32 ==> (0x03ff_ffffu32 >> j) & 1 == 0) by (bit_vector);
        }
    }
    assert forall|c: u8| #[trigger] holds(ALL_LETTERS, c) == is_lower(c) by {
        if is_lower(c) {
            let i: u32 = (c - 97) as u32;
            assert(i < 26 ==> (0x03ff_ffffu32 >> i) & 1 == 1) by (bit_vector);
        }
    }
}

/// Convert a letter (`a` to `z`) to its bitmask.
pub fn letter_bit(c: u8) -> (r: LetterSet)
    requires
        is_lower(c),
    ensures
        r == bit_of(c),
{
    1u32 << ((c - 97) as u32)
}

/// The places below `n` at which `l` stands in `w`.
pub open spec fn mask_upto(w: Seq<u8>, l: u8, n: nat) -> u32
    decreases n,
{
    if n == 0 {
        0
    } else {
        let m = mask_upto(w, l, (n - 1) as nat);
        if w[n - 1] == l {
            m | (1u32 << ((n - 1) as u32))
        } else {
            m
        }
    }
}

/// The places at which `l` stands in `w`, as bits.
pub open spec fn place_mask(w: Seq<u8>, l: u8) -> u32 {
    mask_upto(w, l, w.len())
}

proof fn lemma_mask_upto(w: Seq<u8>, l: u8, n: nat)
    requires
        n <= w.len(),
        n <= 32,
    ensures
        forall|j: int| #[trigger] bit(mask_upto(w, l, n), j) == (j < n && at(w, j, l)),
    decreases n,
{
    if n == 0 {
        lemma_bit_zero();
    } else {
        lemma_mask_upto(w, l, (n - 1) as nat);
        lemma_bit_single((n - 1) as u32);
        lemma_bit_ops(mask_upto(w, l, (n - 1) as nat), 1u32 << ((n - 1) as u32));
        assert forall|j: int| #[trigger] bit(mask_upto(w, l, n), j) == (j < n && at(w, j, l)) by {
            assert(bit(mask_upto(w, l, (n - 1) as nat), j) == (j < n - 1 && at(w, j, l)));
        }
    }
}

/// The bits of a place mask are the places of the letter.
pub proof fn lemma_mask_bits(w: Seq<u8>, l: u8)
    requires
        w.len() <= 32,
    ensures
        forall|j: int| #[trigger] bit(place_mask(w, l), j) == at(w, j, l),
        (place_mask(w, l) == 0) == !occurs(l, w),
{
    lemma_mask_upto(w, l, w.len());
    lemma_bit_zero();
    if place_mask(w, l) == 0 {
        assert forall|j: int| !#[trigger] at(w, j, l) by {
            assert(bit(place_mask(w, l), j) == at(w, j, l));
        }
    } else {
        let j = lemma_some_bit(place_mask(w, l));
        assert(at(w, j, l));
    }
}

/// Two words give the same answer to a letter exactly when their place masks
/// are equal.
pub proof fn lemma_mask_same(v: Seq<u8>, w: Seq<u8>, l: u8)
    requires
        v.len() <= 32,
        w.len() <= 32,
    ensures
        (place_mask(v, l) == place_mask(w, l)) == same_places(l, v, w),
{
    lemma_mask_bits(v, l);
    lemma_mask_bits(w, l);
    if same_places(l, v, w) {
        assert forall|i: int| 0 <= i < 32 implies #[trigger] bit(place_mask(v, l), i) == bit(
            place_mask(w, l),
            i,
        ) by {
            assert(at(v, i, l) == at(w, i, l));
        }
        lemma_bits_equal(place_mask(v, l), place_mask(w, l));
    }
    if place_mask(v, l) == place_mask(w, l) {
        assert forall|j: int| at(v, j, l) == at(w, j, l) by {
            assert(bit(place_mask(v, l), j) == at(v, j, l));
            assert(bit(place_mask(w, l), j) == at(w, j, l));
        }
    }
}

/// Position mask of `letter` in `word`: bit `i` is set where `word[i]` is the
/// letter.
pub fn pos_mask(word: &[u8], letter: u8) -> (r: u32)
    requires
        word@.len() <= 32,
    ensures
        r == place_mask(word@, letter),
        forall|j: int| #[trigger] bit(r, j) == at(word@, j, letter),
{
    let mut mask: u32 = 0;
    let mut j: usize = 0;
    while j < word.len()
        invariant
            j <= word@.len() <= 32,
            mask == mask_upto(word@, letter, j as nat),
        decreases word@.len() - j,
    {
        if word[j] == letter {
            mask |= 1u32 << (j as u32);
        }
        j += 1;
    }
    proof {
        lemma_mask_bits(word@, letter);
    }
    mask
}

/// How many of the lowest `n` bits of `m` are set.
pub open spec fn bits_below(m: u32, n: nat) -> nat
    decreases n,
{
    if n == 0 {
        0
    } else {
        bits_below(m, (n - 1) as nat) + if bit(m, n - 1) {
            1nat
        } else {
            0nat
        }
    }
}

pub proof fn lemma_bits_below(m: u32, n: nat)
    ensures
        bits_below(m, n) <= n,
    decreases n,
{
    if n > 0 {
        lemma_bits_below(m, (n - 1) as nat);
    }
}

/// How many letters the set holds.
pub fn count_letters(m: LetterSet) -> (r: u32)
    ensures
        r == bits_below(m, 26),
        r <= 26,
{
    let mut n: u32 = 0;
    let mut i: u32 = 0;
    while i < 26
        invariant
            i <= 26,
            n == bits_below(m, i as nat),
            n <= i,
        decreases 26 - i,
    {
        if (m >> i) & 1 == 1 {
            n += 1;
        }
        i += 1;
    }
    n
}

/// The letters of the first `n` places of a word.
pub open spec fn word_mask_upto(w: Seq<u8>, n: nat) -> u32
    decreases n,
{
    if n == 0 {
        0
    } else {
        word_mask_upto(w, (n - 1) as nat) | bit_of(w[n - 1])
    }
}

/// The set of letters of a word.
pub open spec fn word_mask(w: Seq<u8>) -> u32 {
    word_mask_upto(w, w.len())
}

/// Every byte of the word is a letter.
pub open spec fn lower_word(w: Seq<u8>) -> bool {
    forall|j: int| 0 <= j < w.len() ==> is_lower(#[trigger] w[j])
}

proof fn lemma_word_mask_upto(w: Seq<u8>, n: nat)
    requires
        n <= w.len(),
        lower_word(w),
    ensures
        forall|c: u8| #[trigger] holds(word_mask_upto(w, n), c) == exists|j: int| j < n && #[trigger] at(w, j, c),
        forall|i: int| 26 <= i ==> !#[trigger] bit(word_mask_upto(w, n), i),
    decreases n,
{
    if n == 0 {
        lemma_has_zero();
        lemma_bit_zero();
    } else {
        let p = (n - 1) as nat;
        lemma_word_mask_upto(w, p);
        assert(is_lower(w[n - 1]));
        lemma_add_letter(word_mask_upto(w, p), w[n - 1]);
        lemma_bit_ops(word_mask_upto(w, p), bit_of(w[n - 1]));
        lemma_bit_single((w[n - 1] - 97) as u32);
        assert forall|c: u8| #[trigger] holds(word_mask_upto(w, n), c) == exists|j: int| j < n && #[trigger] at(w, j, c) by {
            assert(holds(word_mask_upto(w, p), c) == exists|j: int| j < p && #[trigger] at(w, j, c));
            if c == w[n - 1] {
                assert(at(w, n - 1, c));
            }
        }
    }
}

/// The letter set of a word holds exactly the letters that occur in it.
pub proof fn lemma_word_mask(w: Seq<u8>)
    requires
        lower_word(w),
    ensures
        forall|c: u8| #[trigger] holds(word_mask(w), c) == occurs(c, w),
        only_letters(word_mask(w)),
{
    lemma_word_mask_upto(w, w.len());
    assert forall|c: u8| #[trigger] holds(word_mask(w), c) == occurs(c, w) by {
        if occurs(c, w) {
            let j = choose|j: int| #[trigger] at(w, j, c);
            assert(j < w.len() && at(w, j, c));
        }
    }
}

/// The set of letters of a word.
pub fn letters_of(word: &[u8]) -> (r: LetterSet)
    requires
        lower_word(word@),
    ensures
        r == word_mask(word@),
        only_letters(r),
        forall|c: u8| #[trigger] holds(r, c) == occurs(c, word@),
{
    let mut mask: u32 = 0;
    let mut j: usize = 0;
    while j < word.len()
        invariant
            j <= word@.len(),
            lower_word(word@),
            mask == word_mask_upto(word@, j as nat),
        decreases word@.len() - j,
    {
        mask |= letter_bit(word[j]);
        j += 1;
    }
    proof {
        lemma_word_mask(word@);
    }
    mask
}

/// The count of a letter set is the number of its letters.
pub proof fn lemma_letters_counted(m: u32)
    ensures
        letters(m).finite(),
        letters(m).len() == bits_below(m, 26),
{
    lemma_counted_below(m, 26);
    assert(letters(m) =~= letters_below(m, 26));
}

spec fn letters_below(m: u32, n: nat) -> Set<u8> {
    Set::new(|c: u8| 97 <= c < 97 + n && bit(m, c - 97))
}

proof fn lemma_counted_below(m: u32, n: nat)
    requires
        n <= 26,
    ensures
        letters_below(m, n).finite(),
        letters_below(m, n).len() == bits_below(m, n),
    decreases n,
{
    if n == 0 {
        assert(letters_below(m, 0) =~= Set::<u8>::empty());
    } else {
        let before = letters_below(m, (n - 1) as nat);
        lemma_counted_below(m, (n - 1) as nat);
        let c = (96 + n) as u8;
        if bit(m, n - 1) {
            assert(letters_below(m, n) =~= before.insert(c));
        } else {
            assert(letters_below(m, n) =~= before);
        }
    }
}

} // verus!
