//! Reducing a position to one word for each effective signature, and its key.
use vstd::prelude::*;
use vstd::slice::slice_to_vec;

use crate::game::letters::{lower_word, LetterSet};
use crate::solver::canon::{
    form_bytes, form_key, form_of_sorted_rows, key_of_form, lemma_p256_grows, lemma_p256_values, lemma_pack_bound, lemma_pack_order, pack, shift_in,
};
use crate::solver::matrix::{lemma_cell, to_rows};
use crate::solver::signature::{
    effective, idx_ok, lemma_signatures, list_ok, lists_signatures, sig, sig_eq, sig_le, sig_rows, signatures,
};
use crate::sorting::{
    before, in_order, lemma_lex_refl, lemma_lex_total, lemma_lex_trans, lex_le, perm_of, preorder, sorted_order,
    strictly_sorted,
};

verus! {

/// The signature of the word at place `t` of the index list.
pub open spec fn sig_at(words: Seq<Vec<u8>>, idx: Seq<usize>, masked: u32, t: int) -> Seq<u8> {
    sig(words[idx[t] as int]@, masked)
}

/// `d` keeps one index for each distinct signature, in increasing order of the
/// signatures.
pub open spec fn is_dedup(words: Seq<Vec<u8>>, idx: Seq<usize>, masked: u32, d: Seq<usize>) -> bool {
    &&& strictly_sorted(sig_rows(words, d, masked))
    &&& forall|t: int| 0 <= t < d.len() ==> idx.contains(#[trigger] d[t])
    &&& forall|t: int|
        0 <= t < idx.len() ==> sig_rows(words, d, masked).contains(
            #[trigger] sig_at(words, idx, masked, t),
        )
}

/// No listed word with the signature of word `i` has a smaller index.
pub open spec fn smallest_of_kind(words: Seq<Vec<u8>>, idx: Seq<usize>, masked: u32, i: usize) -> bool {
    forall|u: int|
        0 <= u < idx.len() && #[trigger] sig_at(words, idx, masked, u) == sig(
            words[i as int]@,
            masked,
        ) ==> i <= idx[u]
}

/// Word `i` is listed before every other word with its signature.
pub open spec fn first_of_kind(words: Seq<Vec<u8>>, idx: Seq<usize>, masked: u32, i: usize) -> bool {
    exists|u: int|
        0 <= u < idx.len() && #[trigger] idx[u] == i && forall|v: int|
            0 <= v < u ==> #[trigger] sig_at(words, idx, masked, v) != sig(words[i as int]@, masked)
}

/// Which of the words with one signature is kept: the one with the smallest
/// index for words of up to 16 letters, the one listed first for longer words.
pub open spec fn keeps_first(
    words: Seq<Vec<u8>>,
    idx: Seq<usize>,
    masked: u32,
    d: Seq<usize>,
    k: nat,
) -> bool {
    forall|t: int|
        0 <= t < d.len() ==> if k <= 16 {
            smallest_of_kind(words, idx, masked, #[trigger] d[t])
        } else {
            first_of_kind(words, idx, masked, d[t])
        }
}

/// The canonical form of a position: that of its distinct signatures in order.
pub open spec fn position_form(words: Seq<Vec<u8>>, idx: Seq<usize>, masked: u32, k: nat) -> Seq<u8> {
    form_bytes(signatures(words, idx, masked), k)
}

/// The key of a position: that of its canonical form.
pub open spec fn position_key(words: Seq<Vec<u8>>, idx: Seq<usize>, masked: u32, k: nat) -> u128 {
    form_key(position_form(words, idx, masked, k))
}

/// A deduplicated list has the signatures of the full one.
pub proof fn lemma_dedup_lists(words: Seq<Vec<u8>>, idx: Seq<usize>, masked: u32, d: Seq<usize>)
    requires
        is_dedup(words, idx, masked, d),
    ensures
        lists_signatures(sig_rows(words, d, masked), words, idx, masked),
        sig_rows(words, d, masked) == signatures(words, idx, masked),
        forall|x: Seq<u8>| #[trigger]
            sig_rows(words, d, masked).contains(x) <==> sig_rows(words, idx, masked).contains(x),
{
    let q = sig_rows(words, d, masked);
    let all = sig_rows(words, idx, masked);
    assert forall|x: Seq<u8>| #[trigger] q.contains(x) <==> all.contains(x) by {
        if q.contains(x) {
            let t = choose|t: int| 0 <= t < q.len() && q[t] == x;
            assert(idx.contains(d[t]));
            let u = choose|u: int| 0 <= u < idx.len() && idx[u] == d[t];
            assert(all[u] == x);
        }
        if all.contains(x) {
            let u = choose|u: int| 0 <= u < all.len() && all[u] == x;
            assert(q.contains(sig_at(words, idx, masked, u)));
        }
    }
    lemma_signatures(q, words, idx, masked);
}

/// The signature of a word of up to 8 letters as one number.
fn sig_key_small(word: &Vec<u8>, masked: LetterSet) -> (key: u64)
    requires
        word@.len() <= 8,
        lower_word(word@),
    ensures
        key == pack(sig(word@, masked)),
{
    let ghost s = sig(word@, masked);
    let mut key: u64 = 0;
    let mut j: usize = 0;
    while j < word.len()
        invariant
            j <= word@.len() <= 8,
            lower_word(word@),
            s == sig(word@, masked),
            key == pack(s.take(j as int)),
        decreases word@.len() - j,
    {
        proof {
            let t = s.take(j as int);
            assert(s.take(j + 1).drop_last() =~= t);
            lemma_pack_bound(t);
            lemma_p256_grows(j as nat, 7);
            lemma_p256_values();
        }
        key = shift_in(key, effective(word[j], masked));
        j += 1;
    }
    assert(s.take(j as int) =~= s);
    key
}

/// The signature of a word of up to 16 letters as one number.
fn sig_key_medium(word: &Vec<u8>, masked: LetterSet) -> (key: u128)
    requires
        word@.len() <= 16,
        lower_word(word@),
    ensures
        key == pack(sig(word@, masked)),
{
    let ghost s = sig(word@, masked);
    let mut key: u128 = 0;
    let mut j: usize = 0;
    while j < word.len()
        invariant
            j <= word@.len() <= 16,
            lower_word(word@),
            s == sig(word@, masked),
            key == pack(s.take(j as int)),
        decreases word@.len() - j,
    {
        proof {
            let t = s.take(j as int);
            assert(s.take(j + 1).drop_last() =~= t);
            lemma_pack_bound(t);
            lemma_p256_grows(j as nat, 15);
            lemma_p256_values();
        }
        let b: u8 = effective(word[j], masked);
        assert((key << 8u128) | (b as u128) == key * 256 + b) by (bit_vector)
            requires
                key < 0x100_0000_0000_0000_0000_0000_0000_0000u128,
        ;
        key = (key << 8u128) | (b as u128);
        j += 1;
    }
    assert(s.take(j as int) =~= s);
    key
}

/// The order of a position's words: by signature, and for words of up to 16
/// letters then by index.
spec fn sig_order(words: Seq<Vec<u8>>, idx: Seq<usize>, masked: u32, k: nat) -> spec_fn(int, int) -> bool {
    |x: int, y: int|
        if sig_at(words, idx, masked, x) != sig_at(words, idx, masked, y) {
            lex_le(sig_at(words, idx, masked, x), sig_at(words, idx, masked, y))
        } else {
            k > 16 || idx[x] <= idx[y]
        }
}

proof fn lemma_sig_order(words: Seq<Vec<u8>>, idx: Seq<usize>, masked: u32, k: nat)
    ensures
        preorder(sig_order(words, idx, masked, k), idx.len() as int),
{
    let leq = sig_order(words, idx, masked, k);
    let n = idx.len() as int;
    assert forall|x: int, y: int| 0 <= x < n && 0 <= y < n implies #[trigger] leq(x, y) || leq(y, x) by {
        lemma_lex_total(sig_at(words, idx, masked, x), sig_at(words, idx, masked, y));
    }
    assert forall|x: int, y: int, z: int|
        0 <= x < n && 0 <= y < n && 0 <= z < n && #[trigger] leq(x, y) && #[trigger] leq(y, z) implies leq(
        x,
        z,
    ) by {
        let a = sig_at(words, idx, masked, x);
        let b = sig_at(words, idx, masked, y);
        let c = sig_at(words, idx, masked, z);
        lemma_lex_refl(a);
        lemma_lex_refl(c);
        lemma_lex_trans(a, b, c);
        lemma_lex_total(a, b);
        lemma_lex_total(b, c);
    }
}

/// The places of the index list in the order of their signatures.
fn signature_order(words: &[Vec<u8>], indices: &[usize], masked: LetterSet, k: usize) -> (order: Vec<usize>)
    requires
        list_ok(words@, k as nat),
        idx_ok(indices@, words@.len()),
    ensures
        perm_of(order@, 0, indices@.len() as int),
        in_order(sig_order(words@, indices@, masked, k as nat), order@),
{
    let n: usize = indices.len();
    let ghost leq = sig_order(words@, indices@, masked, k as nat);
    proof {
        lemma_sig_order(words@, indices@, masked, k as nat);
    }
    if k <= 8 {
        let mut keys: Vec<u64> = Vec::new();
        let mut i: usize = 0;
        while i < n
            invariant
                i <= n,
                n == indices@.len(),
                k <= 8,
                list_ok(words@, k as nat),
                idx_ok(indices@, words@.len()),
                keys@.len() == i,
                forall|t: int| 0 <= t < i ==> #[trigger] keys@[t] == pack(sig_at(words@, indices@, masked, t)),
            decreases n - i,
        {
            keys.push(sig_key_small(&words[indices[i]], masked));
            i += 1;
        }
        let le = |x: usize, y: usize| -> (r: bool)
            requires
                x < n,
                y < n,
                n == indices@.len(),
                keys@.len() == n,
                k <= 8,
                list_ok(words@, k as nat),
                idx_ok(indices@, words@.len()),
                forall|t: int| 0 <= t < n ==> #[trigger] keys@[t] == pack(sig_at(words@, indices@, masked, t)),
            ensures
                r == sig_order(words@, indices@, masked, k as nat)(x as int, y as int),
            {
                proof {
                    lemma_pack_order(
                        sig_at(words@, indices@, masked, x as int),
                        sig_at(words@, indices@, masked, y as int),
                    );
                }
                if keys[x] != keys[y] {
                    keys[x] < keys[y]
                } else {
                    indices[x] <= indices[y]
                }
            };
        sorted_order(n, &le, Ghost(leq))
    } else if k <= 16 {
        let mut keys: Vec<u128> = Vec::new();
        let mut i: usize = 0;
        while i < n
            invariant
                i <= n,
                n == indices@.len(),
                k <= 16,
                list_ok(words@, k as nat),
                idx_ok(indices@, words@.len()),
                keys@.len() == i,
                forall|t: int| 0 <= t < i ==> #[trigger] keys@[t] == pack(sig_at(words@, indices@, masked, t)),
            decreases n - i,
        {
            keys.push(sig_key_medium(&words[indices[i]], masked));
            i += 1;
        }
        let le = |x: usize, y: usize| -> (r: bool)
            requires
                x < n,
                y < n,
                n == indices@.len(),
                keys@.len() == n,
                k <= 16,
                list_ok(words@, k as nat),
                idx_ok(indices@, words@.len()),
                forall|t: int| 0 <= t < n ==> #[trigger] keys@[t] == pack(sig_at(words@, indices@, masked, t)),
            ensures
                r == sig_order(words@, indices@, masked, k as nat)(x as int, y as int),
            {
                proof {
                    lemma_pack_order(
                        sig_at(words@, indices@, masked, x as int),
                        sig_at(words@, indices@, masked, y as int),
                    );
                }
                if keys[x] != keys[y] {
                    keys[x] < keys[y]
                } else {
                    indices[x] <= indices[y]
                }
            };
        sorted_order(n, &le, Ghost(leq))
    } else {
        let le = |x: usize, y: usize| -> (r: bool)
            requires
                x < n,
                y < n,
                n == indices@.len(),
                k > 16,
                list_ok(words@, k as nat),
                idx_ok(indices@, words@.len()),
            ensures
                r == sig_order(words@, indices@, masked, k as nat)(x as int, y as int),
            {
                proof {
                    lemma_lex_refl(sig_at(words@, indices@, masked, x as int));
                }
                sig_le(&words[indices[x]], &words[indices[y]], masked)
            };
        sorted_order(n, &le, Ghost(leq))
    }
}

/// Collapse identical effective signatures: one index for each, in increasing
/// order of the signatures.
pub fn dedup_only(words: &[Vec<u8>], indices: &[usize], masked: LetterSet) -> (d: Vec<usize>)
    requires
        indices@.len() > 0 ==> list_ok(words@, words@[indices@[0] as int]@.len()),
        idx_ok(indices@, words@.len()),
    ensures
        idx_ok(d@, words@.len()),
        indices@.len() > 0 ==> {
            let k = words@[indices@[0] as int]@.len();
            if k == 0 {
                d@ == indices@
            } else {
                is_dedup(words@, indices@, masked, d@) && keeps_first(words@, indices@, masked, d@, k)
            }
        },
        indices@.len() == 0 ==> d@.len() == 0,
{
    if indices.len() == 0 {
        return Vec::new();
    }
    let k: usize = words[indices[0]].len();
    if k == 0 {
        return slice_to_vec(indices);
    }
    let order = signature_order(words, indices, masked, k);
    let ghost idx = indices@;
    let ghost leq = sig_order(words@, idx, masked, k as nat);
    let mut d: Vec<usize> = Vec::new();
    let mut i: usize = 0;
    let ghost mut src: Seq<int> = Seq::empty();
    while i < order.len()
        invariant
            i <= order@.len(),
            idx == indices@,
            leq == sig_order(words@, idx, masked, k as nat),
            list_ok(words@, k as nat),
            idx_ok(idx, words@.len()),
            perm_of(order@, 0, idx.len() as int),
            in_order(leq, order@),
            src.len() == d@.len(),
            i > 0 ==> d@.len() > 0,
            forall|t: int| 0 <= t < d@.len() ==> 0 <= #[trigger] src[t] < i && d@[t] == idx[order@[src[t]] as int],
            forall|t: int, u: int| 0 <= t < d@.len() && 0 <= u < src[t] ==> sig_at(words@, idx, masked, #[trigger] order@[u] as int) != sig_at(words@, idx, masked, order@[#[trigger] src[t]] as int),
            forall|t: int, u: int| 0 <= t < u < d@.len() ==> #[trigger] src[t] < #[trigger] src[u],
            forall|u: int| 0 <= u < i ==> sig_rows(words@, d@, masked).contains(sig_at(words@, idx, masked, #[trigger] order@[u] as int)),
            i > 0 ==> sig_at(words@, d@, masked, d@.len() - 1) == sig_at(words@, idx, masked, order@[i - 1] as int),
        decreases order@.len() - i,
    {
        let o: usize = order[i];
        let is_new: bool = if d.len() == 0 {
            true
        } else {
            let last: usize = d[d.len() - 1];
            proof {
                assert(src[d@.len() - 1] < i);
                assert(d@[d@.len() - 1] == idx[order@[src[d@.len() - 1]] as int]);
            }
            !sig_eq(&words[last], &words[indices[o]], masked)
        };
        let ghost d0 = d@;
        let ghost src0 = src;
        if is_new {
            d.push(indices[o]);
            proof {
                src = src.push(i as int);
                assert forall|u: int| 0 <= u < i implies sig_at(words@, idx, masked, #[trigger] order@[u] as int) != sig_at(words@, idx, masked, o as int) by {
                    if sig_at(words@, idx, masked, order@[u] as int) == sig_at(words@, idx, masked, o as int) {
                        // Everything between two equal signatures is equal to them.
                        let a = sig_at(words@, idx, masked, o as int);
                        let b = sig_at(words@, idx, masked, order@[i - 1] as int);
                        if u < i - 1 {
                            assert(before(leq, order@[u] as int, order@[i - 1] as int));
                        }
                        assert(before(leq, order@[i - 1] as int, order@[i as int] as int));
                        lemma_lex_total(a, b);
                        assert(a == b);
                    }
                }
            }
        }
        proof {
            let rows0 = sig_rows(words@, d0, masked);
            let rows = sig_rows(words@, d@, masked);
            assert forall|u: int| 0 <= u < i + 1 implies rows.contains(sig_at(words@, idx, masked, #[trigger] order@[u] as int)) by {
                if u < i {
                    let x = sig_at(words@, idx, masked, order@[u] as int);
                    assert(rows0.contains(x));
                    let t = choose|t: int| 0 <= t < rows0.len() && rows0[t] == x;
                    assert(rows[t] == x);
                } else {
                    assert(rows[rows.len() - 1] == sig_at(words@, idx, masked, o as int));
                }
            }
        }
        i += 1;
    }
    proof {
        let rows = sig_rows(words@, d@, masked);
        assert forall|t: int, u: int| 0 <= t < u < rows.len() implies lex_le(#[trigger] rows[t], #[trigger] rows[u]) && rows[t] != rows[u] by {
            assert(src[t] < src[u]);
            assert(order@[src[t]] == order@[src[t]]);
            assert(before(leq, order@[src[t]] as int, order@[src[u]] as int));
        }
        assert forall|t: int| 0 <= t < idx.len() implies rows.contains(#[trigger] sig_at(words@, idx, masked, t)) by {
            assert(order@.contains(t as usize));
            let u = choose|u: int| 0 <= u < order@.len() && order@[u] == t as usize;
            assert(rows.contains(sig_at(words@, idx, masked, order@[u] as int)));
        }
        assert forall|t: int| 0 <= t < d@.len() implies idx.contains(#[trigger] d@[t]) by {
            assert(src[t] < i);
        }
        assert forall|t: int| 0 <= t < d@.len() implies #[trigger] d@[t] < words@.len() by {
            assert(src[t] < i);
        }
        lemma_keeps_first(words@, idx, masked, k as nat, order@, d@, src);
    }
    d
}

proof fn lemma_keeps_first(
    words: Seq<Vec<u8>>,
    idx: Seq<usize>,
    masked: u32,
    k: nat,
    order: Seq<usize>,
    d: Seq<usize>,
    src: Seq<int>,
)
    requires
        perm_of(order, 0, idx.len() as int),
        idx.len() <= usize::MAX,
        in_order(sig_order(words, idx, masked, k), order),
        src.len() == d.len(),
        forall|t: int| 0 <= t < d.len() ==> 0 <= #[trigger] src[t] < order.len() && d[t] == idx[order[src[t]] as int],
        forall|t: int, u: int| 0 <= t < d.len() && 0 <= u < src[t] ==> sig_at(words, idx, masked, #[trigger] order[u] as int) != sig_at(words, idx, masked, order[#[trigger] src[t]] as int),
    ensures
        keeps_first(words, idx, masked, d, k),
{
    let leq = sig_order(words, idx, masked, k);
    assert forall|t: int, v: int| 0 <= t < d.len() && 0 <= v < idx.len() && #[trigger] sig_at(words, idx, masked, v) == sig(words[(#[trigger] d[t]) as int]@, masked) implies
        v == order[src[t]] || before(leq, order[src[t]] as int, v) by {
        assert(0 <= src[t] < order.len());
        assert(order.contains(v as usize));
        let u = choose|u: int| 0 <= u < order.len() && order[u] == v as usize;
        if u < src[t] {
            assert(sig_at(words, idx, masked, order[u] as int) != sig_at(words, idx, masked, order[src[t]] as int));
        }
    }
    assert forall|t: int| 0 <= t < d.len() implies if k <= 16 {
        smallest_of_kind(words, idx, masked, #[trigger] d[t])
    } else {
        first_of_kind(words, idx, masked, d[t])
    } by {
        assert(0 <= src[t] < order.len());
        let u = order[src[t]] as int;
        assert(idx[u] == d[t]);
        if k > 16 {
            assert forall|v: int| 0 <= v < u implies #[trigger] sig_at(words, idx, masked, v) != sig(
                words[d[t] as int]@,
                masked,
            ) by {
                if sig_at(words, idx, masked, v) == sig(words[d[t] as int]@, masked) {
                    assert(before(leq, u, v));
                }
            }
        } else {
            assert forall|v: int|
                0 <= v < idx.len() && #[trigger] sig_at(words, idx, masked, v) == sig(
                    words[d[t] as int]@,
                    masked,
                ) implies d[t] <= idx[v] by {
                if v != u {
                    assert(before(leq, u, v));
                    assert(sig_at(words, idx, masked, u) == sig_at(words, idx, masked, v));
                }
            }
        }
    }
}

/// The signatures of the given words, row by row.
fn signature_buffer(words: &[Vec<u8>], d: &Vec<usize>, masked: LetterSet, k: usize) -> (buf: Vec<u8>)
    requires
        list_ok(words@, k as nat),
        idx_ok(d@, words@.len()),
    ensures
        buf@.len() == d@.len() * k,
        to_rows(buf@, d@.len(), k as nat) == sig_rows(words@, d@, masked),
{
    let m: usize = d.len();
    let mut buf: Vec<u8> = Vec::new();
    let mut i: usize = 0;
    while i < m
        invariant
            i <= m,
            m == d@.len(),
            list_ok(words@, k as nat),
            idx_ok(d@, words@.len()),
            buf@.len() == i * k,
            forall|t: int, u: int|
                0 <= t < i && 0 <= u < k ==> buf@[t * k + u] == #[trigger] sig_at(words@, d@, masked, t)[u],
        decreases m - i,
    {
        let word = &words[d[i]];
        let mut j: usize = 0;
        while j < k
            invariant
                i < m,
                j <= k,
                m == d@.len(),
                list_ok(words@, k as nat),
                idx_ok(d@, words@.len()),
                word@ == words@[d@[i as int] as int]@,
                word@.len() == k,
                lower_word(word@),
                buf@.len() == i * k + j,
                forall|t: int, u: int|
                    0 <= t < i && 0 <= u < k ==> buf@[t * k + u] == #[trigger] sig_at(words@, d@, masked, t)[u],
                forall|u: int|
                    0 <= u < j ==> buf@[i * k + u] == #[trigger] sig_at(words@, d@, masked, i as int)[u],
            decreases k - j,
        {
            buf.push(effective(word[j], masked));
            proof {
                assert forall|t: int, u: int| 0 <= t < i && 0 <= u < k implies buf@[t * k + u] == #[trigger] sig_at(words@, d@, masked, t)[u] by {
                    lemma_cell(t, u, i as int, k as int);
                }
            }
            j += 1;
        }
        proof {
            assert((i + 1) * k == i * k + k) by (nonlinear_arith);
        }
        i += 1;
    }
    proof {
        let got = to_rows(buf@, m as nat, k as nat);
        let want = sig_rows(words@, d@, masked);
        assert forall|t: int| 0 <= t < m implies got[t] == want[t] by {
            assert(want[t] == sig_at(words@, d@, masked, t));
            assert(got[t] =~= want[t]);
        }
        assert(got =~= want);
    }
    buf
}

/// Deduplicate a position and compute its canonical form in one go.
pub(crate) fn dedup_and_form(words: &[Vec<u8>], indices: &[usize], masked: LetterSet) -> (r: (Vec<usize>, Vec<u8>))
    requires
        indices@.len() > 0 ==> list_ok(words@, words@[indices@[0] as int]@.len()),
        idx_ok(indices@, words@.len()),
    ensures
        idx_ok(r.0@, words@.len()),
        indices@.len() > 0 ==> {
            let k = words@[indices@[0] as int]@.len();
            if k == 0 {
                r.0@ == indices@ && r.1@.len() == 0
            } else {
                &&& is_dedup(words@, indices@, masked, r.0@)
                &&& keeps_first(words@, indices@, masked, r.0@, k)
                &&& r.1@ == position_form(words@, indices@, masked, k)
            }
        },
        indices@.len() == 0 ==> r.0@.len() == 0 && r.1@.len() == 0,
{
    if indices.len() == 0 {
        return (Vec::new(), Vec::new());
    }
    let k: usize = words[indices[0]].len();
    let d = dedup_only(words, indices, masked);
    if k == 0 {
        return (d, Vec::new());
    }
    proof {
        lemma_dedup_lists(words@, indices@, masked, d@);
    }
    if d.len() <= 1 {
        return (d, Vec::new());
    }
    let buf = signature_buffer(words, &d, masked, k);
    let m: usize = d.len();
    let form = form_of_sorted_rows(&buf, m, k);
    (d, form)
}

/// Deduplicate a position and compute its key in one go.
pub fn dedup_and_hash(words: &[Vec<u8>], indices: &[usize], masked: LetterSet) -> (r: (Vec<usize>, u128))
    requires
        indices@.len() > 0 ==> list_ok(words@, words@[indices@[0] as int]@.len()),
        idx_ok(indices@, words@.len()),
    ensures
        idx_ok(r.0@, words@.len()),
        indices@.len() > 0 ==> {
            let k = words@[indices@[0] as int]@.len();
            if k == 0 {
                r.0@ == indices@ && r.1 == 0
            } else {
                &&& is_dedup(words@, indices@, masked, r.0@)
                &&& keeps_first(words@, indices@, masked, r.0@, k)
                &&& r.1 == position_key(words@, indices@, masked, k)
            }
        },
        indices@.len() == 0 ==> r.0@.len() == 0 && r.1 == 0,
{
    let (d, form) = dedup_and_form(words, indices, masked);
    let key: u128 = key_of_form(&form);
    (d, key)
}

} // verus!
