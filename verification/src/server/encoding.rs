//! How word sets and words are written into responses.
use base64::engine::general_purpose::STANDARD;
use base64::Engine;
use vstd::prelude::*;

use crate::game::letters::is_lower;
use crate::solver::signature::idx_ok;
use crate::text::byte_char;

verus! {

/// The base64 digit for a number below 64.
pub open spec fn base64_digit(v: int) -> char {
    if v < 26 {
        byte_char((65 + v) as u8)
    } else if v < 52 {
        byte_char((97 + v - 26) as u8)
    } else if v < 62 {
        byte_char((48 + v - 52) as u8)
    } else if v == 62 {
        '+'
    } else {
        '/'
    }
}

/// Bytes in base64 with padding, as in RFC 4648: three bytes make four digits; of
/// an incomplete group at the end the missing digits are written as `=`.
pub open spec fn base64_text(bytes: Seq<u8>) -> Seq<char>
    decreases bytes.len(),
{
    if bytes.len() == 0 {
        Seq::empty()
    } else {
        let b1: int = if bytes.len() > 1 {
            bytes[1] as int
        } else {
            0
        };
        let b2: int = if bytes.len() > 2 {
            bytes[2] as int
        } else {
            0
        };
        let n = bytes[0] as int * 65536 + b1 * 256 + b2;
        let quad = seq![
            base64_digit(n / 262144),
            base64_digit((n / 4096) % 64),
            if bytes.len() > 1 {
                base64_digit((n / 64) % 64)
            } else {
                '='
            },
            if bytes.len() > 2 {
                base64_digit(n % 64)
            } else {
                '='
            },
        ];
        if bytes.len() <= 3 {
            quad
        } else {
            quad + base64_text(bytes.skip(3))
        }
    }
}

/// `base64::engine::general_purpose::STANDARD.encode`: the bytes in base64 with the
/// standard alphabet and padding.
#[verifier::external_body]
fn base64_encode(bytes: &Vec<u8>) -> (r: String)
    requires
        bytes@.len() <= usize::MAX / 2,
    ensures
        r@ == base64_text(bytes@),
{
    STANDARD.encode(bytes)
}

/// Bit `i` of a byte.
pub open spec fn byte_bit(b: u8, i: int) -> bool {
    0 <= i < 8 && (b >> (i as u8)) & 1 == 1
}

/// `bits` is the bit vector of the indices over `total` words: bit `i % 8` of byte
/// `i / 8` is set exactly for the listed indices.
pub open spec fn is_bitvec(bits: Seq<u8>, indices: Seq<usize>, total: nat) -> bool {
    &&& bits.len() == (total + 7) / 8
    &&& forall|i: int|
        0 <= i < bits.len() * 8 ==> #[trigger] byte_bit(bits[i / 8], i % 8) == indices.contains(i as usize)
}

proof fn lemma_byte_set(b: u8, k: u8)
    requires
        k < 8,
    ensures
        forall|i: int| #[trigger] byte_bit(b | (1u8 << k), i) == (byte_bit(b, i) || i == k),
        forall|i: int| !#[trigger] byte_bit(0, i),
{
    assert forall|i: int| #[trigger] byte_bit(b | (1u8 << k), i) == (byte_bit(b, i) || i == k) by {
        if 0 <= i < 8 {
            let j = i as u8;
            assert(j < 8 && k < 8 ==> (((b | (1u8 << k)) >> j) & 1 == 1) == ((b >> j) & 1 == 1 || j == k)) by (bit_vector);
        }
    }
    assert forall|i: int| !#[trigger] byte_bit(0, i) by {
        let j = i as u8;
        assert(j < 8 ==> (0u8 >> j) & 1 == 0) by (bit_vector);
    }
}

/// The bit vector of a set of word indices.
pub fn bitvec_bytes(indices: &[usize], total_words: usize) -> (bits: Vec<u8>)
    requires
        idx_ok(indices@, total_words as nat),
    ensures
        is_bitvec(bits@, indices@, total_words as nat),
{
    let num_bytes: usize = total_words / 8 + (if total_words % 8 == 0 { 0 } else { 1 });
    let mut bits: Vec<u8> = Vec::new();
    let mut b: usize = 0;
    while b < num_bytes
        invariant
            b <= num_bytes,
            bits@.len() == b,
            forall|t: int| 0 <= t < b ==> #[trigger] bits@[t] == 0,
        decreases num_bytes - b,
    {
        bits.push(0);
        b += 1;
    }
    proof {
        lemma_byte_set(0, 0);
        assert(indices@.take(0) =~= Seq::empty());
    }
    let mut t: usize = 0;
    while t < indices.len()
        invariant
            t <= indices@.len(),
            idx_ok(indices@, total_words as nat),
            num_bytes == (total_words + 7) / 8,
            bits@.len() == num_bytes,
            forall|i: int|
                0 <= i < num_bytes * 8 ==> #[trigger] byte_bit(bits@[i / 8], i % 8) == indices@.take(t as int).contains(i as usize),
        decreases indices@.len() - t,
    {
        let idx: usize = indices[t];
        let at: usize = idx / 8;
        let bit: u8 = (idx % 8) as u8;
        let ghost before = bits@;
        let old_byte: u8 = bits[at];
        bits.set(at, old_byte | (1u8 << bit));
        proof {
            lemma_byte_set(old_byte, bit);
            let t0 = indices@.take(t as int);
            let t1 = indices@.take(t + 1);
            assert(t1 =~= t0.push(idx));
            assert forall|i: int| 0 <= i < num_bytes * 8 implies #[trigger] byte_bit(bits@[i / 8], i % 8) == t1.contains(i as usize) by {
                assert(byte_bit(before[i / 8], i % 8) == t0.contains(i as usize));
                if t0.contains(i as usize) {
                    let x = choose|x: int| 0 <= x < t0.len() && t0[x] == i as usize;
                    assert(t1[x] == i as usize);
                }
                if i == idx {
                    assert(t1[t1.len() - 1] == i as usize);
                } else if t1.contains(i as usize) {
                    let x = choose|x: int| 0 <= x < t1.len() && t1[x] == i as usize;
                    assert(t0[x] == i as usize);
                }
                if i / 8 == at {
                    assert(byte_bit(old_byte | (1u8 << bit), i % 8) == (byte_bit(old_byte, i % 8) || i % 8 == bit));
                }
            }
        }
        t += 1;
    }
    proof {
        assert(indices@.take(t as int) =~= indices@);
    }
    bits
}

/// Encode a set of word indices as a base64 bit vector.
pub fn encode_bitvec(indices: &[usize], total_words: usize) -> (r: String)
    requires
        idx_ok(indices@, total_words as nat),
    ensures
        exists|bits: Seq<u8>| #[trigger] is_bitvec(bits, indices@, total_words as nat) && r@ == base64_text(bits),
{
    let bits = bitvec_bytes(indices, total_words);
    base64_encode(&bits)
}

/// A letter in upper case; anything else as it is.
pub open spec fn upper(b: u8) -> u8 {
    if is_lower(b) {
        (b - 32) as u8
    } else {
        b
    }
}

/// The characters of bytes in upper case.
pub open spec fn upper_text(bytes: Seq<u8>) -> Seq<char> {
    bytes.map_values(|b: u8| byte_char(upper(b)))
}

/// The characters of bytes.
pub open spec fn plain_text(bytes: Seq<u8>) -> Seq<char> {
    bytes.map_values(|b: u8| byte_char(b))
}

/// Letters in upper case; underscores stay.
pub fn upper_string(bytes: &[u8]) -> (r: String)
    ensures
        r@ == upper_text(bytes@),
{
    let mut s = String::new();
    let mut i: usize = 0;
    while i < bytes.len()
        invariant
            i <= bytes@.len(),
            s@ == upper_text(bytes@.take(i as int)),
        decreases bytes@.len() - i,
    {
        let b: u8 = bytes[i];
        let u: u8 = if 97 <= b && b <= 122 {
            b - 32
        } else {
            b
        };
        s.push(u as char);
        proof {
            assert(upper_text(bytes@.take(i + 1)) =~= upper_text(bytes@.take(i as int)).push(byte_char(u)));
        }
        i += 1;
    }
    proof {
        assert(bytes@.take(i as int) =~= bytes@);
    }
    s
}

/// A word as text.
pub fn word_string(word: &[u8]) -> (r: String)
    ensures
        r@ == plain_text(word@),
{
    let mut s = String::new();
    let mut i: usize = 0;
    while i < word.len()
        invariant
            i <= word@.len(),
            s@ == plain_text(word@.take(i as int)),
        decreases word@.len() - i,
    {
        s.push(word[i] as char);
        proof {
            assert(plain_text(word@.take(i + 1)) =~= plain_text(word@.take(i as int)).push(byte_char(word@[i as int])));
        }
        i += 1;
    }
    proof {
        assert(word@.take(i as int) =~= word@);
    }
    s
}

} // verus!
