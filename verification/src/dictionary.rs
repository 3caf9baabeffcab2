//! Dictionaries: words of `a` to `z`, grouped by length.
use std::collections::HashMap;

use vstd::prelude::*;
use vstd::std_specs::hash::spec_keys_iter;
use vstd::std_specs::iter::IteratorSpec;

use crate::game::letters::{is_lower, lower_word};
use crate::solver::word_hash::{dictionary_places, word_views};
use crate::sorting::{before, bytes_eq, lemma_lex_total, lex_le, perm_of, sorted_order, strictly_sorted};

verus! {

/// The characters with the Unicode property White_Space.
pub open spec fn is_white_space(c: char) -> bool {
    let u = c as u32;
    0x9 <= u <= 0xd || u == 0x20 || u == 0x85 || u == 0xa0 || u == 0x1680 || 0x2000 <= u <= 0x200a || u == 0x2028 || u
        == 0x2029 || u == 0x202f || u == 0x205f || u == 0x3000
}

/// The text without white space in front.
pub open spec fn trimmed_front(s: Seq<char>) -> Seq<char>
    decreases s.len(),
{
    if s.len() > 0 && is_white_space(s[0]) {
        trimmed_front(s.drop_first())
    } else {
        s
    }
}

/// The text without white space behind.
pub open spec fn trimmed_back(s: Seq<char>) -> Seq<char>
    decreases s.len(),
{
    if s.len() > 0 && is_white_space(s.last()) {
        trimmed_back(s.drop_last())
    } else {
        s
    }
}

/// `str::trim`: the text without the white space in front and behind, where white
/// space is what has the Unicode property White_Space.
#[verifier::external_body]
fn trim_text(s: &str) -> (r: &str)
    ensures
        r@ == trimmed_back(trimmed_front(s@)),
{
    s.trim()
}

/// An ASCII letter of either case.
pub open spec fn is_ascii_letter(c: char) -> bool {
    'a' <= c <= 'z' || 'A' <= c <= 'Z'
}

/// An ASCII letter as a lowercase byte.
pub open spec fn lowered(c: char) -> u8 {
    if 'A' <= c <= 'Z' {
        (c as u8 + 32) as u8
    } else {
        c as u8
    }
}

/// The word on a line: trimmed and in lowercase. There is none where what is left
/// is empty or holds anything but ASCII letters.
pub open spec fn cleaned(s: Seq<char>) -> Option<Seq<u8>> {
    let t = trimmed_back(trimmed_front(s));
    if t.len() > 0 && forall|i: int| 0 <= i < t.len() ==> is_ascii_letter(#[trigger] t[i]) {
        Some(t.map_values(|c: char| lowered(c)))
    } else {
        None
    }
}

/// The word on a line, if there is one.
fn clean_word(s: &str) -> (r: Option<Vec<u8>>)
    ensures
        r is Some == cleaned(s@) is Some,
        r matches Some(w) ==> w@ == cleaned(s@)->0 && lower_word(w@) && w@.len() > 0,
{
    let t = trim_text(s);
    let ghost ts = t@;
    let mut w: Vec<u8> = Vec::new();
    for c in it: t.chars()
        invariant
            it.seq() == ts,
            w@.len() == it.index(),
            forall|i: int| 0 <= i < it.index() ==> is_ascii_letter(#[trigger] ts[i]) && w@[i] == lowered(ts[i]) && is_lower(w@[i]),
            ts == trimmed_back(trimmed_front(s@)),
    {
        if 'a' <= c && c <= 'z' {
            w.push(c as u8);
        } else if 'A' <= c && c <= 'Z' {
            w.push(c as u8 + 32);
        } else {
            proof {
                assert(!is_ascii_letter(ts[it.index()]));
            }
            return None;
        }
    }
    if w.len() == 0 {
        return None;
    }
    proof {
        assert(w@ =~= cleaned(s@)->0);
    }
    Some(w)
}

/// A word of the dictionary comes from some line.
pub open spec fn from_line(lines: Seq<&str>, w: Seq<u8>) -> bool {
    exists|i: int| 0 <= i < lines.len() && cleaned((#[trigger] lines[i])@) == Some(w)
}

/// A dictionary, with words grouped by length. Each word is kept as lowercase ASCII
/// bytes.
#[derive(Debug)]
pub struct Dictionary {
    by_length: HashMap<usize, Vec<Vec<u8>>>,
    total: usize,
}

impl Dictionary {
    /// The words of length `len` in order.
    pub closed spec fn group(&self, len: usize) -> Seq<Seq<u8>> {
        if self.by_length@.contains_key(len) {
            word_views(self.by_length@[len]@)
        } else {
            Seq::empty()
        }
    }

    /// Every word.
    pub open spec fn word_set(&self) -> Set<Seq<u8>> {
        Set::new(|w: Seq<u8>| w.len() <= usize::MAX && self.group(w.len() as usize).contains(w))
    }

    /// Groups hold nonempty words of their length, each once, in order; no group is
    /// empty.
    pub closed spec fn wf(&self) -> bool {
        &&& forall|len: usize| #[trigger]
            self.by_length@.contains_key(len) ==> self.by_length@[len]@.len() > 0 && group_ok(self.by_length@[len]@, len)
        &&& self.word_set().finite()
        &&& self.total == self.word_set().len()
    }

    /// Build a dictionary from lines of text.
    pub fn from_words<'a, I: Iterator<Item = &'a str>>(words: I) -> (r: Self)
        requires
            words.obeys_prophetic_iter_laws(),
            words.decrease() is Some,
        ensures
            r.wf(),
            forall|len: usize| strictly_sorted(#[trigger] r.group(len)),
            forall|len: usize, w: Seq<u8>| #[trigger]
                r.group(len).contains(w) == (w.len() == len && from_line(words.remaining(), w)),
    {
        let mut found: Vec<Vec<u8>> = Vec::new();
        let mut it = words;
        let ghost all = it.remaining();
        let ghost mut seen: Seq<&str> = Seq::empty();
        let mut more: bool = true;
        while more
            invariant
                it.obeys_prophetic_iter_laws(),
                it.decrease() is Some,
                all == words.remaining(),
                seen + it.remaining() == all,
                !more ==> it.remaining().len() == 0,
                forall|i: int| 0 <= i < found@.len() ==> lower_word((#[trigger] found@[i])@) && found@[i]@.len() > 0 && from_line(seen, found@[i]@),
                forall|w: Seq<u8>| #[trigger] from_line(seen, w) ==> word_views(found@).contains(w),
            decreases more as int, it.decrease()->0,
        {
            match it.next() {
                Some(line) => {
                    let ghost before = found@;
                    let ghost seen0 = seen;
                    let word = clean_word(line);
                    proof {
                        seen = seen.push(line);
                        assert(seen + it.remaining() =~= all);
                    }
                    if let Some(w) = word {
                        found.push(w);
                    }
                    proof {
                        assert forall|w: Seq<u8>| #[trigger] from_line(seen, w) implies word_views(found@).contains(w) by {
                            let i = choose|i: int| 0 <= i < seen.len() && cleaned((#[trigger] seen[i])@) == Some(w);
                            if i < seen0.len() {
                                assert(cleaned(seen0[i]@) == Some(w));
                                assert(from_line(seen0, w));
                                let j = choose|j: int| 0 <= j < word_views(before).len() && word_views(before)[j] == w;
                                assert(word_views(found@)[j] == w);
                            } else {
                                assert(word_views(found@)[found@.len() - 1] == w);
                            }
                        }
                        assert forall|i: int| 0 <= i < found@.len() implies lower_word((#[trigger] found@[i])@) && found@[i]@.len() > 0 && from_line(seen, found@[i]@) by {
                            if i < before.len() {
                                assert(from_line(seen0, before[i]@));
                                let j = choose|j: int| 0 <= j < seen0.len() && cleaned((#[trigger] seen0[j])@) == Some(before[i]@);
                                assert(cleaned(seen[j]@) == Some(found@[i]@));
                            } else {
                                assert(cleaned(seen[seen.len() - 1]@) == Some(found@[i]@));
                            }
                        }
                    }
                },
                None => {
                    more = false;
                },
            }
        }
        proof {
            assert(seen =~= all);
        }
        let r = Dictionary::from_clean(&found);
        proof {
            assert forall|len: usize, w: Seq<u8>| #[trigger] r.group(len).contains(w) == (w.len() == len && from_line(all, w)) by {
                if word_views(found@).contains(w) {
                    let j = choose|j: int| 0 <= j < word_views(found@).len() && word_views(found@)[j] == w;
                    assert(from_line(seen, found@[j]@));
                }
            }
        }
        r
    }

    /// Groups clean words by length, each word once.
    fn from_clean(found: &Vec<Vec<u8>>) -> (r: Self)
        requires
            forall|i: int| 0 <= i < found@.len() ==> lower_word((#[trigger] found@[i])@) && found@[i]@.len() > 0,
        ensures
            r.wf(),
            forall|len: usize| strictly_sorted(#[trigger] r.group(len)),
            forall|len: usize, w: Seq<u8>| #[trigger]
                r.group(len).contains(w) == (w.len() == len && word_views(found@).contains(w)),
    {
        let order = dictionary_places(found.as_slice());
        let mut map: HashMap<usize, Vec<Vec<u8>>> = HashMap::new();
        let mut total: usize = 0;
        let mut i: usize = 0;
        let ghost mut kept = Set::<Seq<u8>>::empty();
        while i < order.len()
            invariant
                i <= order@.len(),
                perm_of(order@, 0, found@.len() as int),
                forall|t: int, u: int|
                    0 <= t < u < order@.len() ==> lex_le(found@[#[trigger] order@[t] as int]@, found@[#[trigger] order@[u] as int]@),
                forall|j: int| 0 <= j < found@.len() ==> lower_word((#[trigger] found@[j])@) && found@[j]@.len() > 0,
                total <= i,
                kept.finite(),
                kept.len() == total,
                forall|w: Seq<u8>| #[trigger] kept.contains(w) == exists|t: int| 0 <= t < i && found@[#[trigger] order@[t] as int]@ == w,
                forall|len: usize| #[trigger] map@.contains_key(len) ==> map@[len]@.len() > 0 && group_ok(map@[len]@, len),
                forall|len: usize, w: Seq<u8>| map@.contains_key(len) && #[trigger] word_views(map@[len]@).contains(w) ==> kept.contains(w),
                forall|w: Seq<u8>| #[trigger] kept.contains(w) ==> w.len() <= usize::MAX && map@.contains_key(w.len() as usize) && word_views(map@[w.len() as usize]@).contains(w),
            decreases order@.len() - i,
        {
            let o: usize = order[i];
            let ghost w = found@[o as int]@;
            let fresh: bool = i == 0 || !bytes_eq(found[order[i - 1]].as_slice(), found[o].as_slice());
            let ghost kept0 = kept;
            proof {
                if !fresh {
                    assert(found@[order@[i - 1] as int]@ == w);
                    assert(kept.contains(w));
                } else if kept.contains(w) {
                    let t = choose|t: int| 0 <= t < i && found@[#[trigger] order@[t] as int]@ == w;
                    if t < i - 1 {
                        let last = found@[order@[i - 1] as int]@;
                        assert(lex_le(found@[order@[t] as int]@, found@[order@[i - 1] as int]@));
                        assert(lex_le(found@[order@[i - 1] as int]@, found@[order@[i as int] as int]@));
                        lemma_lex_total(w, last);
                    }
                }
            }
            if fresh {
                let word: Vec<u8> = found[o].clone();
                assert(word@ =~= w);
                let len: usize = word.len();
                let ghost map0 = map@;
                map.entry(len).or_insert(Vec::new()).push(word);
                total += 1;
                proof {
                    kept = kept.insert(w);
                    let g0 = if map0.contains_key(len) { map0[len]@ } else { Seq::<Vec<u8>>::empty() };
                    let g = map@[len]@;
                    assert(g =~= g0.push(g[g.len() - 1]));
                    assert(g[g.len() - 1]@ == w);
                    assert forall|x: int| 0 <= x < g0.len() implies kept0.contains(#[trigger] g0[x]@) by {
                        assert(word_views(map0[len]@)[x] == g0[x]@);
                        assert(word_views(map0[len]@).contains(g0[x]@));
                    }
                    assert(group_ok(g, len)) by {
                        assert forall|x: int, y: int| 0 <= x < y < word_views(g).len() implies lex_le(#[trigger] word_views(g)[x], #[trigger] word_views(g)[y]) && word_views(g)[x] != word_views(g)[y] by {
                            if y < g0.len() {
                                assert(word_views(g0)[x] == word_views(g)[x] && word_views(g0)[y] == word_views(g)[y]);
                            } else {
                                assert(kept0.contains(g0[x]@));
                                let t = choose|t: int| 0 <= t < i && found@[#[trigger] order@[t] as int]@ == g0[x]@;
                                assert(lex_le(found@[order@[t] as int]@, found@[order@[i as int] as int]@));
                            }
                        }
                    }
                    assert forall|l: usize| #[trigger] map@.contains_key(l) implies map@[l]@.len() > 0 && group_ok(map@[l]@, l) by {
                        if l != len {
                            assert(map0.contains_key(l));
                        }
                    }
                    assert forall|l: usize, x: Seq<u8>| map@.contains_key(l) && #[trigger] word_views(map@[l]@).contains(x) implies kept.contains(x) by {
                        if l != len {
                            assert(word_views(map0[l]@).contains(x));
                        } else {
                            let y = choose|y: int| 0 <= y < word_views(g).len() && word_views(g)[y] == x;
                            if y < g0.len() {
                                assert(kept0.contains(g0[y]@));
                            }
                        }
                    }
                    assert forall|x: Seq<u8>| #[trigger] kept.contains(x) implies x.len() <= usize::MAX && map@.contains_key(x.len() as usize) && word_views(map@[x.len() as usize]@).contains(x) by {
                        if x == w {
                            assert(word_views(g)[g.len() - 1] == w);
                        } else {
                            assert(kept0.contains(x));
                            if x.len() == len {
                                let y = choose|y: int| 0 <= y < word_views(g0).len() && word_views(g0)[y] == x;
                                assert(word_views(g)[y] == x);
                            }
                        }
                    }
                }
            }
            proof {
                assert forall|x: Seq<u8>| #[trigger] kept.contains(x) == exists|t: int| 0 <= t < i + 1 && found@[#[trigger] order@[t] as int]@ == x by {
                    if x == w {
                        assert(found@[order@[i as int] as int]@ == x);
                    }
                    if kept0.contains(x) {
                        let t = choose|t: int| 0 <= t < i && found@[#[trigger] order@[t] as int]@ == x;
                        assert(found@[order@[t] as int]@ == x);
                    }
                }
            }
            i += 1;
        }
        let r = Dictionary { by_length: map, total };
        proof {
            assert forall|w: Seq<u8>| kept.contains(w) == word_views(found@).contains(w) by {
                if kept.contains(w) {
                    let t = choose|t: int| 0 <= t < order@.len() && found@[#[trigger] order@[t] as int]@ == w;
                    assert(word_views(found@)[order@[t] as int] == w);
                }
                if word_views(found@).contains(w) {
                    let j = choose|j: int| 0 <= j < word_views(found@).len() && word_views(found@)[j] == w;
                    assert(order@.contains(j as usize));
                    let t = choose|t: int| 0 <= t < order@.len() && order@[t] == j as usize;
                    assert(found@[order@[t] as int]@ == w);
                }
            }
            assert forall|len: usize, w: Seq<u8>| #[trigger] r.group(len).contains(w) == (w.len() == len && word_views(found@).contains(w)) by {
                if r.group(len).contains(w) {
                    let y = choose|y: int| 0 <= y < r.group(len).len() && r.group(len)[y] == w;
                    assert(word_views(map@[len]@).contains(w));
                    assert(group_ok(map@[len]@, len));
                }
                if w.len() == len && word_views(found@).contains(w) {
                    assert(kept.contains(w));
                }
            }
            assert(r.word_set() =~= kept);
            assert forall|len: usize| strictly_sorted(#[trigger] r.group(len)) by {
                if map@.contains_key(len) {
                    assert(group_ok(map@[len]@, len));
                }
            }
        }
        r
    }

    /// All words of a given length.
    pub fn words_of_length(&self, len: usize) -> (r: &[Vec<u8>])
        ensures
            word_views(r@) == self.group(len),
            self.wf() ==> forall|i: int| 0 <= i < r@.len() ==> (#[trigger] r@[i])@.len() == len && lower_word(r@[i]@),
    {
        match self.by_length.get(&len) {
            Some(v) => {
                proof {
                    if self.wf() {
                        assert(group_ok(self.by_length@[len]@, len));
                    }
                }
                v.as_slice()
            },
            None => {
                let r: &[Vec<u8>] = &[];
                assert(word_views(r@) =~= Seq::<Seq<u8>>::empty());
                r
            },
        }
    }

    /// The word lengths that occur, in order.
    pub fn available_lengths(&self) -> (r: Vec<usize>)
        requires
            self.wf(),
        ensures
            forall|i: int, j: int| 0 <= i < j < r@.len() ==> #[trigger] r@[i] < #[trigger] r@[j],
            forall|len: usize| #[trigger] r@.contains(len) == (self.group(len).len() > 0),
    {
        let mut lengths: Vec<usize> = Vec::new();
        let ghost keys = spec_keys_iter(&self.by_length).remaining();
        for key in it: self.by_length.keys()
            invariant
                keys == it.seq(),
                lengths@.len() == it.index(),
                forall|t: int| 0 <= t < it.index() ==> #[trigger] lengths@[t] == *keys[t],
        {
            lengths.push(*key);
        }
        let n: usize = lengths.len();
        let ghost leq = |x: int, y: int| lengths@[x] <= lengths@[y];
        let le = |x: usize, y: usize| -> (r: bool)
            requires
                x < n,
                y < n,
                n == lengths@.len(),
            ensures
                r == (lengths@[x as int] <= lengths@[y as int]),
            { lengths[x] <= lengths[y] };
        let order = sorted_order(n, &le, Ghost(leq));
        let mut r: Vec<usize> = Vec::new();
        let mut i: usize = 0;
        while i < n
            invariant
                i <= n,
                n == lengths@.len(),
                perm_of(order@, 0, n as int),
                r@.len() == i,
                forall|t: int| 0 <= t < i ==> #[trigger] r@[t] == lengths@[order@[t] as int],
            decreases n - i,
        {
            r.push(lengths[order[i]]);
            i += 1;
        }
        proof {
            assert(keys.unref() =~= lengths@);
            assert(keys.no_duplicates());
            assert forall|t: int, u: int| 0 <= t < lengths@.len() && 0 <= u < lengths@.len() && t != u implies lengths@[t] != lengths@[u] by {
                assert(keys[t] != keys[u]);
            }
            assert forall|len: usize| #[trigger] lengths@.contains(len) == self.by_length@.contains_key(len) by {
                assert(keys.unref().to_set().contains(len) == self.by_length@.dom().contains(len));
            }
            assert forall|len: usize| (self.group(len).len() > 0) == #[trigger] self.by_length@.contains_key(len) by {}
            assert forall|x: int, y: int| 0 <= x < y < r@.len() implies #[trigger] r@[x] < #[trigger] r@[y] by {
                assert(before(leq, order@[x] as int, order@[y] as int));
                assert(order@[x] != order@[y]);
                assert(lengths@[order@[x] as int] != lengths@[order@[y] as int]);
            }
            assert forall|len: usize| #[trigger] r@.contains(len) == (self.group(len).len() > 0) by {
                if r@.contains(len) {
                    let t = choose|t: int| 0 <= t < r@.len() && r@[t] == len;
                    assert(lengths@.contains(lengths@[order@[t] as int]));
                }
                if self.group(len).len() > 0 {
                    assert(lengths@.contains(len));
                    let j = choose|j: int| 0 <= j < lengths@.len() && lengths@[j] == len;
                    assert(order@.contains(j as usize));
                    let t = choose|t: int| 0 <= t < order@.len() && order@[t] == j as usize;
                    assert(r@[t] == len);
                }
            }
        }
        r
    }

    /// Total number of words.
    pub fn total_words(&self) -> (r: usize)
        requires
            self.wf(),
        ensures
            r == self.word_set().len(),
    {
        self.total
    }
}

/// The words of a group have its length, hold letters only, and come in order, each
/// once.
pub open spec fn group_ok(words: Seq<Vec<u8>>, len: usize) -> bool {
    &&& strictly_sorted(word_views(words))
    &&& forall|i: int| 0 <= i < words.len() ==> (#[trigger] words[i])@.len() == len && lower_word(words[i]@) && words[i]@.len() > 0
}

proof fn lemma_front_trimmed(front: Seq<char>, rest: Seq<char>)
    requires
        forall|i: int| 0 <= i < front.len() ==> is_white_space(#[trigger] front[i]),
        rest.len() > 0,
        !is_white_space(rest[0]),
    ensures
        trimmed_front(front + rest) == rest,
    decreases front.len(),
{
    let s = front + rest;
    if front.len() == 0 {
        assert(s =~= rest);
    } else {
        assert(s[0] == front[0]);
        assert(s.drop_first() =~= front.drop_first() + rest);
        assert forall|i: int| 0 <= i < front.drop_first().len() implies is_white_space(#[trigger] front.drop_first()[i]) by {
            assert(is_white_space(front[i + 1]));
        }
        lemma_front_trimmed(front.drop_first(), rest);
    }
}

proof fn lemma_back_trimmed(rest: Seq<char>, back: Seq<char>)
    requires
        forall|i: int| 0 <= i < back.len() ==> is_white_space(#[trigger] back[i]),
        rest.len() > 0,
        !is_white_space(rest.last()),
    ensures
        trimmed_back(rest + back) == rest,
    decreases back.len(),
{
    let s = rest + back;
    if back.len() == 0 {
        assert(s =~= rest);
    } else {
        assert(s.last() == back.last());
        assert(is_white_space(back[back.len() - 1]));
        assert(s.drop_last() =~= rest + back.drop_last());
        lemma_back_trimmed(rest, back.drop_last());
    }
}

/// A line with the letters of a word, in either case and with white space around them,
/// gives the word, however long it is.
pub proof fn lemma_line_gives_word(front: Seq<char>, text: Seq<char>, back: Seq<char>, w: Seq<u8>)
    requires
        forall|i: int| 0 <= i < front.len() ==> is_white_space(#[trigger] front[i]),
        forall|i: int| 0 <= i < back.len() ==> is_white_space(#[trigger] back[i]),
        text.len() == w.len(),
        w.len() > 0,
        forall|i: int| 0 <= i < w.len() ==> 97 <= (#[trigger] w[i]) <= 122,
        forall|i: int| 0 <= i < w.len() ==> (#[trigger] text[i]) as int == w[i] || text[i] as int + 32 == w[i],
    ensures
        cleaned(front + text + back) == Some(w),
{
    assert forall|i: int| 0 <= i < text.len() implies is_ascii_letter(#[trigger] text[i]) && lowered(text[i]) == w[i] && !is_white_space(text[i]) by {
        assert(97 <= w[i] <= 122);
    }
    assert(!is_white_space(text[0]) && !is_white_space(text[text.len() - 1]));
    assert(front + text + back =~= front + (text + back));
    assert((text + back)[0] == text[0]);
    lemma_front_trimmed(front, text + back);
    lemma_back_trimmed(text, back);
    assert(text.map_values(|c: char| lowered(c)) =~= w);
}

proof fn lemma_front_cut(s: Seq<char>) -> (n: int)
    ensures
        0 <= n <= s.len(),
        trimmed_front(s) == s.skip(n),
        forall|i: int| 0 <= i < n ==> is_white_space(#[trigger] s[i]),
    decreases s.len(),
{
    if s.len() > 0 && is_white_space(s[0]) {
        let m = lemma_front_cut(s.drop_first());
        assert(s.drop_first().skip(m) =~= s.skip(m + 1));
        assert forall|i: int| 0 <= i < m + 1 implies is_white_space(#[trigger] s[i]) by {
            if i > 0 {
                assert(is_white_space(s.drop_first()[i - 1]));
            }
        }
        m + 1
    } else {
        assert(s.skip(0) =~= s);
        0
    }
}

proof fn lemma_back_cut(s: Seq<char>) -> (n: int)
    ensures
        0 <= n <= s.len(),
        trimmed_back(s) == s.take(n),
        forall|i: int| n <= i < s.len() ==> is_white_space(#[trigger] s[i]),
    decreases s.len(),
{
    if s.len() > 0 && is_white_space(s.last()) {
        let m = lemma_back_cut(s.drop_last());
        assert(s.drop_last().take(m) =~= s.take(m));
        assert forall|i: int| m <= i < s.len() implies is_white_space(#[trigger] s[i]) by {
            if i < s.len() - 1 {
                assert(is_white_space(s.drop_last()[i]));
            }
        }
        m
    } else {
        assert(s.take(s.len() as int) =~= s);
        s.len() as int
    }
}

/// The text starts with the letters of the word, in either case.
pub open spec fn letters_from(s: Seq<char>, w: Seq<u8>) -> bool {
    w.len() <= s.len() && forall|i: int| 0 <= i < w.len() ==> (#[trigger] s[i]) as int == w[i] || s[i] as int + 32 == w[i]
}

/// No other line gives the word: the line has its letters, in either case, side by side
/// and in order, and nothing but white space before and behind them.
pub proof fn lemma_word_of_line(s: Seq<char>, w: Seq<u8>)
    requires
        cleaned(s) == Some(w),
    ensures
        w.len() > 0,
        forall|i: int| 0 <= i < w.len() ==> 97 <= (#[trigger] w[i]) <= 122,
        exists|n: int|
            0 <= n && n + w.len() <= s.len() && letters_from(#[trigger] s.skip(n), w) && (forall|i: int|
                0 <= i < s.len() && !(n <= i < n + w.len()) ==> is_white_space(#[trigger] s[i])),
{
    let n = lemma_front_cut(s);
    let m = lemma_back_cut(s.skip(n));
    let t = trimmed_back(trimmed_front(s));
    assert forall|i: int| 0 <= i < w.len() implies 97 <= (#[trigger] w[i]) <= 122 && (s[n + i] as int == w[i] || s[n + i] as int + 32 == w[i]) by {
        assert(t[i] == s[n + i]);
        assert(is_ascii_letter(t[i]));
    }
    assert forall|i: int| 0 <= i < s.len() && !(n <= i < n + w.len()) implies is_white_space(#[trigger] s[i]) by {
        if i >= n {
            assert(s.skip(n)[i - n] == s[i]);
        }
    }
    assert(letters_from(s.skip(n), w)) by {
        assert forall|i: int| 0 <= i < w.len() implies (#[trigger] s.skip(n)[i]) as int == w[i] || s.skip(n)[i] as int + 32 == w[i] by {
            assert(97 <= w[i] <= 122);
        }
    }
}

/// Every line counts: a word that some line writes out is among the words of its length.
pub proof fn lemma_written_word_counts(lines: Seq<&str>, i: int, w: Seq<u8>)
    requires
        0 <= i < lines.len(),
        lines[i]@.len() == w.len(),
        w.len() > 0,
        forall|j: int| 0 <= j < w.len() ==> 97 <= (#[trigger] w[j]) <= 122,
        forall|j: int| 0 <= j < w.len() ==> (#[trigger] lines[i]@[j]) as int == w[j] || lines[i]@[j] as int + 32 == w[j],
    ensures
        from_line(lines, w),
{
    let none = Seq::<char>::empty();
    lemma_line_gives_word(none, lines[i]@, none, w);
    assert(none + lines[i]@ + none =~= lines[i]@);
    assert(cleaned(lines[i]@) == Some(w));
}

/// The words of a dictionary are those of its groups.
pub proof fn lemma_word_set(d: Dictionary, w: Seq<u8>)
    requires
        w.len() <= usize::MAX,
    ensures
        d.word_set().contains(w) <==> d.group(w.len() as usize).contains(w),
{
}

/// White space is what lies between nine and thirteen, the blank, and the spaces and
/// separators beyond ASCII.
pub proof fn lemma_white_space(c: char)
    ensures
        is_white_space(c) <==> 9 <= c as int <= 13 || 8192 <= c as int <= 8202 || set![
            32int,
            133,
            160,
            5760,
            8232,
            8233,
            8239,
            8287,
            12288,
        ].contains(c as int),
{
}

} // verus!
