//! Transposition table entries: how they are packed, what they claim, and which
//! of two entries for one key is kept.
use vstd::prelude::*;

verus! {

// An entry holds the value in bits 0 to 4, the index of the best letter in bits
// 5 to 9 (31 for none) and the kind of bound in bits 10 and 11. Values are at
// most 25, so five bits suffice.
pub const VALUE_MASK: u32 = 0x1F;

pub const LETTER_SHIFT: u32 = 5;

pub const BOUND_SHIFT: u32 = 10;

/// The stored value is the value of the position.
pub const BOUND_EXACT: u32 = 0;

/// The value of the position is at least the stored one.
pub const BOUND_LOWER: u32 = 1;

/// The value of the position is at most the stored one.
pub const BOUND_UPPER: u32 = 2;

/// The value in a packed entry.
pub open spec fn tt_value(packed: u32) -> u32 {
    packed & 0x1F
}

/// The best letter in a packed entry.
pub open spec fn tt_letter(packed: u32) -> Option<u8> {
    let i = (packed >> 5) & 0x1F;
    if i < 26 {
        Some((97 + i) as u8)
    } else {
        None
    }
}

/// The kind of bound in a packed entry.
pub open spec fn tt_bound(packed: u32) -> u32 {
    (packed >> 10) & 0x3
}

/// What a packed entry claims of a position of value `v`.
pub open spec fn claims(packed: u32, v: int) -> bool {
    &&& tt_bound(packed) == BOUND_EXACT ==> v == tt_value(packed)
    &&& tt_bound(packed) == BOUND_LOWER ==> v >= tt_value(packed)
    &&& tt_bound(packed) == BOUND_UPPER ==> v <= tt_value(packed)
}

/// The letter bits for `c`: its index, or 31 where it is no letter.
pub open spec fn letter_index(c: u8) -> u32 {
    if 97 <= c <= 122 {
        (c - 97) as u32
    } else {
        31
    }
}

/// A packed entry.
pub open spec fn packed_entry(value: u32, best_letter: u8, bound: u32) -> u32 {
    (value & 0x1F) | (letter_index(best_letter) << 5) | (bound << 10)
}

/// Pack a value, a best letter (anything but `a` to `z` for none) and a bound.
pub fn cache_pack(value: u32, best_letter: u8, bound: u32) -> (r: u32)
    requires
        bound <= 3,
    ensures
        r == packed_entry(value, best_letter, bound),
        tt_value(r) == value & 0x1F,
        value < 32 ==> tt_value(r) == value,
        tt_bound(r) == bound,
        tt_letter(r) == if 97 <= best_letter <= 122 {
            Some(best_letter)
        } else {
            None
        },
{
    let letter_bits: u32 = if 97 <= best_letter && best_letter <= 122 {
        (best_letter - 97) as u32
    } else {
        31
    };
    let r: u32 = (value & VALUE_MASK) | (letter_bits << LETTER_SHIFT) | (bound << BOUND_SHIFT);
    assert(r & 0x1F == value & 0x1F && (value < 32 ==> value & 0x1F == value) && (r >> 5) & 0x1F
        == letter_bits && (r >> 10) & 3 == bound) by (bit_vector)
        requires
            r == (value & 0x1F) | (letter_bits << 5) | (bound << 10),
            letter_bits <= 31,
            bound <= 3,
    ;
    r
}

/// Unpack an entry into its value, best letter and bound.
pub fn cache_unpack(packed: u32) -> (r: (u32, Option<u8>, u32))
    ensures
        r.0 == tt_value(packed),
        r.0 <= 31,
        r.1 == tt_letter(packed),
        r.2 == tt_bound(packed),
        r.2 <= 3,
{
    let value: u32 = packed & VALUE_MASK;
    let letter_idx: u32 = (packed >> LETTER_SHIFT) & 0x1F;
    let bound: u32 = (packed >> BOUND_SHIFT) & 0x3;
    assert(value <= 31 && letter_idx <= 31 && bound <= 3) by (bit_vector)
        requires
            value == packed & 0x1F,
            letter_idx == (packed >> 5) & 0x1F,
            bound == (packed >> 10) & 3,
    ;
    let best_letter: Option<u8> = if letter_idx < 26 {
        Some(97 + letter_idx as u8)
    } else {
        None
    };
    (value, best_letter, bound)
}

/// Packing and unpacking give back what was packed.
pub proof fn lemma_pack_round_trip(value: u32, best_letter: u8, bound: u32)
    requires
        value <= 31,
        97 <= best_letter <= 122,
        bound <= 3,
    ensures
        tt_value(packed_entry(value, best_letter, bound)) == value,
        tt_letter(packed_entry(value, best_letter, bound)) == Some(best_letter),
        tt_bound(packed_entry(value, best_letter, bound)) == bound,
{
    let letter_bits = letter_index(best_letter);
    let r = packed_entry(value, best_letter, bound);
    assert(r & 0x1F == value && (r >> 5) & 0x1F == letter_bits && (r >> 10) & 3 == bound)
        by (bit_vector)
        requires
            r == (value & 0x1F) | (letter_bits << 5) | (bound << 10),
            value <= 31,
            letter_bits <= 31,
            bound <= 3,
    ;
}

/// A table lookup either settles the search or narrows its window and may name
/// a letter to try first.
pub enum CacheLookup {
    Hit(u32),
    Miss { tt_move: Option<u8>, alpha: u32, beta: u32 },
}

/// What a lookup that found `packed` answers for the window from `alpha` to
/// `beta`.
pub open spec fn lookup_in(packed: u32, alpha: u32, beta: u32) -> CacheLookup {
    let val = tt_value(packed);
    let a = if tt_bound(packed) == BOUND_LOWER && val > alpha {
        val
    } else {
        alpha
    };
    let b = if tt_bound(packed) == BOUND_UPPER && val < beta {
        val
    } else {
        beta
    };
    if tt_bound(packed) == BOUND_EXACT || (tt_bound(packed) == BOUND_LOWER && val >= beta) || (
    tt_bound(packed) == BOUND_UPPER && val <= alpha) || a >= b {
        CacheLookup::Hit(val)
    } else {
        CacheLookup::Miss { tt_move: tt_letter(packed), alpha: a, beta: b }
    }
}

/// Reads a found entry against the window from `alpha` to `beta`: an exact
/// value or a bound outside the window settles the search, any other bound
/// narrows the window.
pub fn read_entry(packed: u32, alpha: u32, beta: u32) -> (r: CacheLookup)
    ensures
        r == lookup_in(packed, alpha, beta),
{
    let (val, best_letter, bound) = cache_unpack(packed);
    let mut a: u32 = alpha;
    let mut b: u32 = beta;
    if bound == BOUND_EXACT {
        return CacheLookup::Hit(val);
    }
    if bound == BOUND_LOWER {
        if val >= beta {
            return CacheLookup::Hit(val);
        }
        if val > a {
            a = val;
        }
    }
    if bound == BOUND_UPPER {
        if val <= alpha {
            return CacheLookup::Hit(val);
        }
        if val < b {
            b = val;
        }
    }
    if a >= b {
        return CacheLookup::Hit(val);
    }
    CacheLookup::Miss { tt_move: best_letter, alpha: a, beta: b }
}

/// The value `v` is what a search with the window from `alpha` to `beta` may
/// report as `r`: at most `r` unless `r` reaches `beta`, and at least `r` unless
/// `r` stays within `alpha`.
pub open spec fn window_ok(v: int, r: int, alpha: int, beta: int) -> bool {
    (r < beta ==> v <= r) && (r > alpha ==> v >= r)
}

/// A true entry answers truly: a hit is a valid result for the window, and
/// after a miss any valid result for the narrowed window is one for the full
/// window.
pub proof fn lemma_lookup_sound(packed: u32, alpha: u32, beta: u32, v: int)
    requires
        claims(packed, v),
        alpha < beta,
    ensures
        lookup_in(packed, alpha, beta) matches CacheLookup::Hit(val) ==> window_ok(
            v,
            val as int,
            alpha as int,
            beta as int,
        ),
        lookup_in(packed, alpha, beta) matches CacheLookup::Miss { tt_move, alpha: a, beta: b } ==> {
            &&& alpha <= a < b <= beta
            &&& forall|r: int| #[trigger]
                window_ok(v, r, a as int, b as int) ==> window_ok(v, r, alpha as int, beta as int)
        },
{
}

/// The new packed entry replaces the old one in memory: exact entries always do
/// where the old one is not better, and a bound replaces a bound that it
/// improves on.
pub open spec fn replaces(new_packed: u32, old_packed: u32) -> bool {
    tt_bound(new_packed) == BOUND_EXACT || (tt_bound(old_packed) != BOUND_EXACT && ((tt_bound(
        new_packed,
    ) == BOUND_LOWER && tt_value(new_packed) > tt_value(old_packed)) || (tt_bound(new_packed)
        == BOUND_UPPER && tt_value(new_packed) < tt_value(old_packed))))
}

/// Whether an entry of a finished search replaces the one kept so far. Exact
/// always wins; of two bounds the new one wins where it is tighter.
pub fn replaces_kept(new_packed: u32, old_packed: u32) -> (r: bool)
    ensures
        r == replaces(new_packed, old_packed),
{
    let (new_val, _nl, new_bound) = cache_unpack(new_packed);
    let (old_val, _ol, old_bound) = cache_unpack(old_packed);
    new_bound == BOUND_EXACT || (old_bound != BOUND_EXACT && ((new_bound == BOUND_LOWER && new_val
        > old_val) || (new_bound == BOUND_UPPER && new_val < old_val)))
}

/// The new packed entry takes the place of the old one on disk.
pub open spec fn dominates(new_packed: u32, old_packed: u32) -> bool {
    &&& tt_bound(old_packed) != BOUND_EXACT
    &&& {
        ||| tt_bound(new_packed) == BOUND_EXACT
        ||| tt_bound(new_packed) == BOUND_LOWER && tt_bound(old_packed) == BOUND_LOWER && tt_value(
            new_packed,
        ) > tt_value(old_packed)
        ||| tt_bound(new_packed) == BOUND_UPPER && tt_bound(old_packed) == BOUND_UPPER && tt_value(
            new_packed,
        ) < tt_value(old_packed)
    }
}

/// Decide whether a new packed entry should overwrite an existing one on disk.
///
/// An exact entry overwrites any bound and is never overwritten. A tighter
/// bound of the same kind wins. A bound of one kind never overwrites one of the
/// other kind.
pub fn new_dominates(new_packed: u32, old_packed: u32) -> (r: bool)
    ensures
        r == dominates(new_packed, old_packed),
{
    if new_packed == old_packed {
        return false;
    }
    let (new_val, _nl, new_bound) = cache_unpack(new_packed);
    let (old_val, _ol, old_bound) = cache_unpack(old_packed);
    if old_bound == BOUND_EXACT {
        return false;
    }
    if new_bound == BOUND_EXACT {
        return true;
    }
    if new_bound == BOUND_LOWER && old_bound == BOUND_LOWER && new_val > old_val {
        return true;
    }
    if new_bound == BOUND_UPPER && old_bound == BOUND_UPPER && new_val < old_val {
        return true;
    }
    false
}

/// Dominance is irreflexive and no two entries dominate each other, so a run of
/// saves settles.
pub proof fn lemma_dominance_strict(a: u32, b: u32)
    ensures
        !dominates(a, a),
        dominates(a, b) ==> !dominates(b, a),
{
}

/// Dominance is transitive.
pub proof fn lemma_dominance_transitive(a: u32, b: u32, c: u32)
    requires
        dominates(a, b),
        dominates(b, c),
    ensures
        dominates(a, c),
{
}

/// An exact entry is never lost to a later save.
pub proof fn lemma_exact_kept(new_packed: u32, old_packed: u32)
    requires
        tt_bound(old_packed) == BOUND_EXACT,
    ensures
        !dominates(new_packed, old_packed),
{
}

/// Decoded transposition table entry.
#[derive(Debug, Clone, Copy, PartialEq, Eq)]
pub struct TtEntry {
    /// Minimax value (number of misses).
    pub value: u32,
    /// Best letter for the guesser, if known.
    pub best_letter: Option<u8>,
}

/// Decode a packed entry. `None` where it is not exact: only exact values are
/// good for serving.
pub fn decode_tt_entry(packed: u32) -> (r: Option<TtEntry>)
    ensures
        r == if tt_bound(packed) == BOUND_EXACT {
            Some(TtEntry { value: tt_value(packed), best_letter: tt_letter(packed) })
        } else {
            None
        },
        r matches Some(e) ==> e.value <= 31,
{
    let (value, best_letter, bound) = cache_unpack(packed);
    if bound != 0 {
        return None;
    }
    Some(TtEntry { value, best_letter })
}

/// Decode a packed entry into value, best letter and bound without filtering.
pub fn decode_tt_entry_raw(packed: u32) -> (r: (u32, Option<u8>, u32))
    ensures
        r == (tt_value(packed), tt_letter(packed), tt_bound(packed)),
{
    cache_unpack(packed)
}

/// A packed entry as a number: the value, thirty-two times the number of the letter, and
/// a thousand and twenty-four times the kind of bound.
pub proof fn lemma_packed_number(value: u32, best_letter: u8, bound: u32)
    requires
        value <= 31,
        bound <= 3,
    ensures
        97 <= best_letter <= 122 ==> packed_entry(value, best_letter, bound) == value + 32 * (best_letter - 97) + 1024 * bound,
        !(97 <= best_letter <= 122) ==> packed_entry(value, best_letter, bound) == value + 32 * 31 + 1024 * bound,
{
    let i = letter_index(best_letter);
    assert((value & 0x1F) | (i << 5) | (bound << 10) == value + 32 * i + 1024 * bound) by (bit_vector)
        requires
            value <= 31,
            i <= 31,
            bound <= 3,
    ;
}

/// What is packed is what is unpacked, with a letter or without.
pub proof fn lemma_pack_without_letter(value: u32, best_letter: u8, bound: u32)
    requires
        value <= 31,
        !(97 <= best_letter <= 122),
        bound <= 3,
    ensures
        tt_value(packed_entry(value, best_letter, bound)) == value,
        tt_letter(packed_entry(value, best_letter, bound)) is None,
        tt_bound(packed_entry(value, best_letter, bound)) == bound,
{
    let r = packed_entry(value, best_letter, bound);
    assert(r & 0x1F == value && (r >> 5) & 0x1F == 31 && (r >> 10) & 3 == bound) by (bit_vector)
        requires
            r == (value & 0x1F) | (31u32 << 5) | (bound << 10),
            value <= 31,
            bound <= 3,
    ;
}

/// What an entry says of a position: kind zero gives its value, kind one a number that
/// it reaches, kind two a number that it does not exceed.
pub proof fn lemma_claims(value: u32, best_letter: u8, v: int)
    requires
        value <= 31,
    ensures
        claims(packed_entry(value, best_letter, 0), v) <==> v == value,
        claims(packed_entry(value, best_letter, 1), v) <==> v >= value,
        claims(packed_entry(value, best_letter, 2), v) <==> v <= value,
{
    if 97 <= best_letter <= 122 {
        lemma_pack_round_trip(value, best_letter, 0);
        lemma_pack_round_trip(value, best_letter, 1);
        lemma_pack_round_trip(value, best_letter, 2);
    } else {
        lemma_pack_without_letter(value, best_letter, 0);
        lemma_pack_without_letter(value, best_letter, 1);
        lemma_pack_without_letter(value, best_letter, 2);
    }
}

/// Which entry is kept in memory: an exact one replaces any, no bound replaces an exact
/// one, and a bound replaces a bound exactly where it is tighter.
pub proof fn lemma_replaces(new_packed: u32, old_packed: u32)
    ensures
        tt_bound(new_packed) == 0 ==> replaces(new_packed, old_packed),
        tt_bound(new_packed) != 0 && tt_bound(old_packed) == 0 ==> !replaces(new_packed, old_packed),
        tt_bound(new_packed) == 1 && tt_bound(old_packed) != 0 ==> (replaces(new_packed, old_packed) <==> tt_value(new_packed) > tt_value(
            old_packed,
        )),
        tt_bound(new_packed) == 2 && tt_bound(old_packed) != 0 ==> (replaces(new_packed, old_packed) <==> tt_value(new_packed) < tt_value(
            old_packed,
        )),
{
}

/// Which entry is kept on disk: an exact one takes the place of any bound and is never
/// given up, and a bound takes the place of a bound of its own kind exactly where it is
/// tighter.
pub proof fn lemma_dominates(new_packed: u32, old_packed: u32)
    ensures
        tt_bound(old_packed) == 0 ==> !dominates(new_packed, old_packed),
        tt_bound(new_packed) == 0 && tt_bound(old_packed) != 0 ==> dominates(new_packed, old_packed),
        tt_bound(new_packed) == 1 && tt_bound(old_packed) == 1 ==> (dominates(new_packed, old_packed) <==> tt_value(new_packed) > tt_value(
            old_packed,
        )),
        tt_bound(new_packed) == 2 && tt_bound(old_packed) == 2 ==> (dominates(new_packed, old_packed) <==> tt_value(new_packed) < tt_value(
            old_packed,
        )),
        tt_bound(new_packed) != 0 && tt_bound(new_packed) != tt_bound(old_packed) ==> !dominates(new_packed, old_packed),
{
}

/// A lookup makes use of what it finds: an exact value settles the search, a bound does
/// so where it lies outside the window, and otherwise it narrows the window on its side
/// and hands on its letter.
pub proof fn lemma_lookup_used(packed: u32, alpha: u32, beta: u32)
    requires
        alpha < beta,
    ensures
        tt_bound(packed) == 0 ==> lookup_in(packed, alpha, beta) == CacheLookup::Hit(tt_value(packed)),
        tt_bound(packed) == 1 && tt_value(packed) >= beta ==> lookup_in(packed, alpha, beta) == CacheLookup::Hit(tt_value(packed)),
        tt_bound(packed) == 2 && tt_value(packed) <= alpha ==> lookup_in(packed, alpha, beta) == CacheLookup::Hit(tt_value(packed)),
        tt_bound(packed) == 1 && alpha <= tt_value(packed) < beta ==> lookup_in(packed, alpha, beta) == (CacheLookup::Miss {
            tt_move: tt_letter(packed),
            alpha: tt_value(packed),
            beta,
        }),
        tt_bound(packed) == 2 && alpha < tt_value(packed) <= beta ==> lookup_in(packed, alpha, beta) == (CacheLookup::Miss {
            tt_move: tt_letter(packed),
            alpha,
            beta: tt_value(packed),
        }),
        tt_bound(packed) == 1 && tt_value(packed) < alpha || tt_bound(packed) == 2 && tt_value(packed) > beta ==> lookup_in(packed, alpha, beta)
            == (CacheLookup::Miss { tt_move: tt_letter(packed), alpha, beta }),
{
}

} // verus!
