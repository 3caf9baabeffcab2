//! What keys and names tell apart.
use std::collections::hash_map::DefaultHasher;

use vstd::arithmetic::power::pow;
use vstd::bytes::spec_u64_to_le_bytes;
use vstd::prelude::*;
use vstd::relations::sorted_by;
use vstd::std_specs::hash::DefaultHasherAdditionalSpecFns;

use crate::precompute::shard_laws::lemma_decimal_read;
use crate::solver::canon::{byte_feed, form_key};
use crate::solver::disk_cache::table_dir_name;
use crate::solver::precomputed::dag_file_name;
use crate::solver::word_hash::{
    dictionary_order, in_dictionary_order, lemma_dictionary_order, word_set_hash, word_views, words_feed,
};
use crate::text::{decimal, hex, hex_digit, lemma_hex};

verus! {

/// A key has both halves of its hash in it: two forms share a key only where they share
/// both, and the bytes that are hashed tell the forms apart.
pub proof fn lemma_keys_tell_forms_apart(a: Seq<u8>, b: Seq<u8>)
    requires
        a.len() > 0,
        b.len() > 0,
        form_key(a) == form_key(b),
    ensures
        ({
            let h = DefaultHasher::spec_finish(byte_feed(a));
            let g = DefaultHasher::spec_finish(byte_feed(b));
            &&& h == g
            &&& DefaultHasher::spec_finish(seq![spec_u64_to_le_bytes(h)] + byte_feed(a)) == DefaultHasher::spec_finish(
                seq![spec_u64_to_le_bytes(g)] + byte_feed(b),
            )
        }),
        byte_feed(a) == byte_feed(b) ==> a == b,
{
    let h1 = DefaultHasher::spec_finish(byte_feed(a));
    let h2 = DefaultHasher::spec_finish(seq![spec_u64_to_le_bytes(h1)] + byte_feed(a));
    let g1 = DefaultHasher::spec_finish(byte_feed(b));
    let g2 = DefaultHasher::spec_finish(seq![spec_u64_to_le_bytes(g1)] + byte_feed(b));
    assert(h1 == g1 && h2 == g2) by (bit_vector)
        requires
            (h1 as u128) | ((h2 as u128) << 64u128) == (g1 as u128) | ((g2 as u128) << 64u128),
    ;
    if byte_feed(a) == byte_feed(b) {
        assert(byte_feed(a)[1] == byte_feed(b)[1]);
    }
}

/// What is hashed for a word list: the number of words, and for each in turn its length
/// and its letters.
pub proof fn lemma_words_feed(ws: Seq<Seq<u8>>, n: nat)
    requires
        n <= ws.len(),
    ensures
        words_feed(ws, n).len() == 1 + 2 * n,
        words_feed(ws, n)[0] == spec_u64_to_le_bytes(ws.len() as u64),
        forall|i: int|
            0 <= i < n ==> words_feed(ws, n)[1 + 2 * i] == spec_u64_to_le_bytes((#[trigger] ws[i]).len() as u64) && words_feed(ws, n)[2 + 2 * i]
                == ws[i],
    decreases n,
{
    if n > 0 {
        lemma_words_feed(ws, (n - 1) as nat);
        let before = words_feed(ws, (n - 1) as nat);
        let after = words_feed(ws, n);
        assert forall|i: int| 0 <= i < n implies after[1 + 2 * i] == spec_u64_to_le_bytes((#[trigger] ws[i]).len() as u64) && after[2 + 2 * i]
            == ws[i] by {
            if i < n - 1 {
                assert(after[1 + 2 * i] == before[1 + 2 * i]);
                assert(after[2 + 2 * i] == before[2 + 2 * i]);
            }
        }
    }
}

/// The hash of a word list is that of its words in dictionary order, every one of them,
/// and what is hashed is the same for two lists only where they hold the same words,
/// each as often.
pub proof fn lemma_hashed_words(a: Seq<Vec<u8>>, b: Seq<Vec<u8>>)
    ensures
        exists|ws: Seq<Seq<u8>>|
            #![trigger words_feed(ws, ws.len())]
            ws.to_multiset() == word_views(a).to_multiset() && sorted_by(ws, dictionary_order()) && word_set_hash(a)
                == DefaultHasher::spec_finish(words_feed(ws, ws.len())),
        ({
            let x = in_dictionary_order(word_views(a));
            let y = in_dictionary_order(word_views(b));
            words_feed(x, x.len()) == words_feed(y, y.len()) ==> word_views(a).to_multiset() == word_views(b).to_multiset()
        }),
{
    let x = in_dictionary_order(word_views(a));
    let y = in_dictionary_order(word_views(b));
    lemma_dictionary_order();
    word_views(a).lemma_sort_by_ensures(dictionary_order());
    word_views(b).lemma_sort_by_ensures(dictionary_order());
    assert(word_set_hash(a) == DefaultHasher::spec_finish(words_feed(x, x.len())));
    if words_feed(x, x.len()) == words_feed(y, y.len()) {
        lemma_words_feed(x, x.len());
        lemma_words_feed(y, y.len());
        assert(x.len() == y.len());
        assert forall|i: int| 0 <= i < x.len() implies x[i] == y[i] by {
            assert(words_feed(x, x.len())[2 + 2 * i] == x[i]);
            assert(words_feed(y, y.len())[2 + 2 * i] == y[i]);
        }
        assert(x =~= y);
    }
}

/// Two numbers with the same hexadecimal digits are the same, if the digits suffice for
/// both.
pub proof fn lemma_hex_tells_apart(n: nat, m: nat, len: nat)
    requires
        hex(n, len) == hex(m, len),
        n < pow(16, len),
        m < pow(16, len),
    ensures
        n == m,
    decreases len,
{
    reveal(pow);
    if len > 0 {
        let p = hex(n / 16, (len - 1) as nat);
        let q = hex(m / 16, (len - 1) as nat);
        assert(hex(n, len).last() == hex_digit(n % 16));
        assert(hex(m, len).last() == hex_digit(m % 16));
        assert(hex(n, len).drop_last() =~= p);
        assert(hex(m, len).drop_last() =~= q);
        assert(pow(16, len) == 16 * pow(16, (len - 1) as nat));
        lemma_hex_tells_apart(n / 16, m / 16, (len - 1) as nat);
    }
}

/// Two numbers with the same decimal digits are the same.
proof fn lemma_decimal_tells_apart(n: nat, m: nat)
    requires
        decimal(n) == decimal(m),
    ensures
        n == m,
{
    lemma_decimal_read(n);
    lemma_decimal_read(m);
}

proof fn lemma_sixteen_digits(n: u64)
    ensures
        n < pow(16, 16),
{
    reveal(pow);
    assert(pow(16, 0) == 1);
    assert(pow(16, 1) == 16 * pow(16, 0));
    assert(pow(16, 2) == 16 * pow(16, 1));
    assert(pow(16, 3) == 16 * pow(16, 2));
    assert(pow(16, 4) == 16 * pow(16, 3));
    assert(pow(16, 5) == 16 * pow(16, 4));
    assert(pow(16, 6) == 16 * pow(16, 5));
    assert(pow(16, 7) == 16 * pow(16, 6));
    assert(pow(16, 8) == 16 * pow(16, 7));
    assert(pow(16, 9) == 16 * pow(16, 8));
    assert(pow(16, 10) == 16 * pow(16, 9));
    assert(pow(16, 11) == 16 * pow(16, 10));
    assert(pow(16, 12) == 16 * pow(16, 11));
    assert(pow(16, 13) == 16 * pow(16, 12));
    assert(pow(16, 14) == 16 * pow(16, 13));
    assert(pow(16, 15) == 16 * pow(16, 14));
    assert(pow(16, 16) == 16 * pow(16, 15));
}

/// Tables for words of different lengths or with different hashes have directories of
/// their own.
pub proof fn lemma_dirs_tell_apart(a: usize, g: u64, b: usize, h: u64)
    requires
        table_dir_name(a, g) == table_dir_name(b, h),
    ensures
        a == b,
        g == h,
{
    reveal_strlit("tt_len");
    reveal_strlit("_");
    let s = table_dir_name(a, g);
    let t = table_dir_name(b, h);
    let d = decimal(a as nat);
    let e = decimal(b as nat);
    lemma_hex(g as nat, 16);
    lemma_hex(h as nat, 16);
    assert(s.len() == 6 + d.len() + 1 + 16);
    assert(t.len() == 6 + e.len() + 1 + 16);
    assert(s.subrange(6, 6 + d.len() as int) =~= d);
    assert(t.subrange(6, 6 + d.len() as int) =~= e);
    assert(s.subrange(7 + d.len() as int, s.len() as int) =~= hex(g as nat, 16));
    assert(t.subrange(7 + d.len() as int, s.len() as int) =~= hex(h as nat, 16));
    lemma_decimal_tells_apart(a as nat, b as nat);
    lemma_sixteen_digits(g);
    lemma_sixteen_digits(h);
    lemma_hex_tells_apart(g as nat, h as nat, 16);
}

/// Saved patterns of one version for words of different lengths or with different hashes
/// have files of their own.
pub proof fn lemma_files_tell_apart(version: u32, a: usize, g: u64, b: usize, h: u64)
    requires
        dag_file_name(version, a, g) == dag_file_name(version, b, h),
    ensures
        a == b,
        g == h,
{
    reveal_strlit("v");
    reveal_strlit("_len");
    reveal_strlit("_");
    reveal_strlit(".bin");
    let s = dag_file_name(version, a, g);
    let t = dag_file_name(version, b, h);
    let v = decimal(version as nat).len() as int;
    let d = decimal(a as nat);
    let e = decimal(b as nat);
    lemma_hex(g as nat, 16);
    lemma_hex(h as nat, 16);
    assert(s.len() == 1 + v + 4 + d.len() + 1 + 16 + 4);
    assert(t.len() == 1 + v + 4 + e.len() + 1 + 16 + 4);
    let from = 5 + v;
    assert(s.subrange(from, from + d.len()) =~= d);
    assert(t.subrange(from, from + d.len()) =~= e);
    assert(s.subrange(from + d.len() + 1, from + d.len() + 17) =~= hex(g as nat, 16));
    assert(t.subrange(from + d.len() + 1, from + d.len() + 17) =~= hex(h as nat, 16));
    lemma_decimal_tells_apart(a as nat, b as nat);
    lemma_sixteen_digits(g);
    lemma_sixteen_digits(h);
    lemma_hex_tells_apart(g as nat, h as nat, 16);
}

} // verus!
