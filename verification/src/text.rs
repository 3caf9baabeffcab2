//! Building text: characters, decimal and hexadecimal numbers.
use vstd::arithmetic::power::pow;
use vstd::prelude::*;

verus! {

/// `String::push` appends one character.
pub assume_specification[ String::push ](s: &mut String, c: char)
    ensures
        final(s)@ == old(s)@.push(c),
;

/// The character for a byte.
pub open spec fn byte_char(b: u8) -> char {
    b as char
}

/// Appends text.
pub(crate) fn push_text(s: &mut String, t: &str)
    ensures
        final(s)@ == old(s)@ + t@,
{
    let ghost start = s@;
    for c in iter: t.chars()
        invariant
            s@ == start + iter.seq().take(iter.index()),
            iter.seq() == t@,
    {
        s.push(c);
        proof {
            let i = iter.index();
            assert(iter.seq().take(i + 1) =~= iter.seq().take(i).push(iter.seq()[i]));
            assert(start + iter.seq().take(i + 1) =~= (start + iter.seq().take(i)).push(iter.seq()[i]));
        }
    }
    assert(t@.take(t@.len() as int) =~= t@);
}

/// The decimal digits of a number.
pub open spec fn decimal(n: nat) -> Seq<char>
    decreases n,
{
    if n < 10 {
        seq![byte_char((48 + n) as u8)]
    } else {
        decimal(n / 10).push(byte_char((48 + n % 10) as u8))
    }
}

/// Appends a number in decimal.
pub(crate) fn push_decimal(s: &mut String, n: u64)
    ensures
        final(s)@ == old(s)@ + decimal(n as nat),
    decreases n,
{
    let ghost start = s@;
    if n >= 10 {
        push_decimal(s, n / 10);
    }
    s.push((48 + (n % 10) as u8) as char);
    proof {
        assert(s@ =~= start + decimal(n as nat));
    }
}

/// The hexadecimal digit for a number below 16.
pub open spec fn hex_digit(d: nat) -> char {
    if d < 10 {
        byte_char((48 + d) as u8)
    } else {
        byte_char((87 + d) as u8)
    }
}

/// The lowest `len` hexadecimal digits of a number, with leading zeros.
pub open spec fn hex(n: nat, len: nat) -> Seq<char>
    decreases len,
{
    if len == 0 {
        Seq::empty()
    } else {
        hex(n / 16, (len - 1) as nat).push(hex_digit(n % 16))
    }
}

/// Appends the lowest `len` hexadecimal digits of a number.
pub(crate) fn push_hex(s: &mut String, n: u64, len: usize)
    ensures
        final(s)@ == old(s)@ + hex(n as nat, len as nat),
    decreases len,
{
    let ghost start = s@;
    if len > 0 {
        push_hex(s, n / 16, len - 1);
        let d: u8 = (n % 16) as u8;
        if d < 10 {
            s.push((48 + d) as char);
        } else {
            s.push((87 + d) as char);
        }
    }
    proof {
        assert(s@ =~= start + hex(n as nat, len as nat));
    }
}

/// The hexadecimal digits of a number, without leading zeros.
pub open spec fn hexadecimal(n: nat) -> Seq<char>
    decreases n,
{
    if n < 16 {
        seq![hex_digit(n)]
    } else {
        hexadecimal(n / 16).push(hex_digit(n % 16))
    }
}

/// Appends a number in hexadecimal, without leading zeros.
pub(crate) fn push_hexadecimal(s: &mut String, n: u64)
    ensures
        final(s)@ == old(s)@ + hexadecimal(n as nat),
    decreases n,
{
    let ghost start = s@;
    if n >= 16 {
        push_hexadecimal(s, n / 16);
    }
    let d: u8 = (n % 16) as u8;
    if d < 10 {
        s.push((48 + d) as char);
    } else {
        s.push((87 + d) as char);
    }
    proof {
        assert(s@ =~= start + hexadecimal(n as nat));
    }
}

/// The character for a byte has its code.
pub proof fn lemma_byte_char(b: u8)
    ensures
        byte_char(b) as int == b,
{
}

/// Digits of a quotient are digits of the number, one place further on.
proof fn lemma_next_place(n: nat, base: int, i: nat)
    requires
        base > 0,
        i > 0,
    ensures
        (n as int / base) / pow(base, (i - 1) as nat) == n as int / pow(base, i),
        pow(base, i) == base * pow(base, (i - 1) as nat),
        pow(base, i) > 0,
{
    reveal(pow);
    vstd::arithmetic::power::lemma_pow_positive(base, (i - 1) as nat);
    vstd::arithmetic::power::lemma_pow_positive(base, i);
    vstd::arithmetic::div_mod::lemma_div_denominator(n as int, base, pow(base, (i - 1) as nat));
}

/// A number in decimal: from the last digit on, the digits are those of the number by
/// powers of ten, and there are no more of them than it needs.
pub proof fn lemma_decimal(n: nat)
    ensures
        decimal(n).len() > 0,
        forall|i: nat|
            i < decimal(n).len() ==> (#[trigger] decimal(n)[decimal(n).len() - 1 - i]) as int == 48 + (n as int / pow(10, i)) % 10,
        n < pow(10, decimal(n).len()),
        decimal(n).len() > 1 ==> pow(10, (decimal(n).len() - 1) as nat) <= n,
    decreases n,
{
    reveal(pow);
    let d = decimal(n);
    assert(pow(10, 0) == 1);
    if n < 10 {
        assert(pow(10, 1) == 10 * pow(10, 0));
    } else {
        lemma_decimal(n / 10);
        let e = decimal(n / 10);
        assert forall|i: nat| i < d.len() implies (#[trigger] d[d.len() - 1 - i]) as int == 48 + (n as int / pow(10, i)) % 10 by {
            if i > 0 {
                lemma_next_place(n, 10, i);
                assert(d[d.len() - 1 - i] == e[e.len() - 1 - (i - 1) as nat]);
            }
        }
        lemma_next_place(n, 10, d.len());
        lemma_next_place(n, 10, e.len());
    }
}

/// The code of a hexadecimal digit.
proof fn lemma_hex_digit(d: nat)
    requires
        d < 16,
    ensures
        hex_digit(d) as int == if d < 10 {
            48 + d
        } else {
            87 + d
        },
{
}

/// The lowest digits of a number in hexadecimal are those of the number by powers of
/// sixteen, and there are as many as asked for.
pub proof fn lemma_hex(n: nat, len: nat)
    ensures
        hex(n, len).len() == len,
        forall|i: nat|
            i < len ==> (#[trigger] hex(n, len)[len - 1 - i]) as int == ({
                let digit = (n as int / pow(16, i)) % 16;
                if digit < 10 {
                    48 + digit
                } else {
                    87 + digit
                }
            }),
    decreases len,
{
    reveal(pow);
    if len > 0 {
        lemma_hex(n / 16, (len - 1) as nat);
        let h = hex(n, len);
        let g = hex(n / 16, (len - 1) as nat);
        assert(pow(16, 0) == 1);
        assert forall|i: nat| i < len implies (#[trigger] h[len - 1 - i]) as int == ({
            let digit = (n as int / pow(16, i)) % 16;
            if digit < 10 {
                48 + digit
            } else {
                87 + digit
            }
        }) by {
            if i > 0 {
                lemma_next_place(n, 16, i);
                assert(h[len - 1 - i] == g[(len - 1) - 1 - (i - 1) as nat]);
            } else {
                lemma_hex_digit(n % 16);
            }
        }
    }
}

/// A number in hexadecimal has the digits that it needs and no zeros in front.
pub proof fn lemma_hexadecimal(n: nat)
    ensures
        hexadecimal(n).len() > 0,
        hexadecimal(n) == hex(n, hexadecimal(n).len()),
        n < pow(16, hexadecimal(n).len()),
        hexadecimal(n).len() > 1 ==> pow(16, (hexadecimal(n).len() - 1) as nat) <= n,
    decreases n,
{
    reveal(pow);
    let h = hexadecimal(n);
    assert(pow(16, 0) == 1);
    if n < 16 {
        assert(pow(16, 1) == 16 * pow(16, 0));
        assert(hex(n / 16, 0) =~= Seq::<char>::empty());
        assert(hex(n, 1) =~= h);
    } else {
        lemma_hexadecimal(n / 16);
        lemma_next_place(n, 16, h.len());
        lemma_next_place(n, 16, (h.len() - 1) as nat);
        assert(hex(n, h.len()) =~= h);
    }
}

} // verus!
