//! What the server knows about each word length.
use vstd::prelude::*;

use crate::server::encoding::{plain_text, word_string};
use crate::server::session::playable;
use crate::solver::memoized::{all_indices, index_list, word_len};
use crate::solver::serving::{lookup, stored, TtEntry};

verus! {

/// The estimated minimax value for words of length `k`.
pub open spec fn estimate(k: int) -> u32 {
    if k == 1 {
        25
    } else if k == 3 {
        17
    } else if k == 2 || k == 4 {
        14
    } else if k == 5 {
        13
    } else if k == 6 {
        12
    } else if k == 7 {
        11
    } else if k == 8 {
        8
    } else if k == 9 || k == 11 {
        6
    } else if k == 10 {
        5
    } else if k == 12 || k == 13 {
        4
    } else if k == 14 || k == 18 || k == 19 {
        3
    } else if 15 <= k <= 17 || k == 20 {
        2
    } else if 21 <= k <= 25 {
        1
    } else {
        0
    }
}

/// Rough minimax estimates for word lengths whose value is not in the table.
/// Where the table has been probed the values are those of the probe.
pub fn estimate_minimax(k: usize) -> (r: u32)
    ensures
        r == estimate(k as int),
        r == if 1 <= k <= 25 {
            seq![25u32, 14, 17, 14, 13, 12, 11, 8, 6, 5, 6, 4, 4, 3, 2, 2, 2, 3, 3, 2, 1, 1, 1, 1, 1][k - 1]
        } else {
            0
        },
{
    match k {
        1 => 25,
        2 => 14,
        3 => 17,
        4 => 14,
        5 => 13,
        6 => 12,
        7 => 11,
        8 => 8,
        9 => 6,
        10 => 5,
        11 => 6,
        12 => 4,
        13 => 4,
        14 => 3,
        15..=17 => 2,
        18 => 3,
        19 => 3,
        20 => 2,
        21..=25 => 1,
        _ => 0,
    }
}

/// The minimax value that a game on this list is played with: the one in the table
/// where it is there, an estimate otherwise.
pub fn list_minimax<D: Fn(u128) -> Option<u32>>(words: &[Vec<u8>], disk: &D) -> (r: u32)
    requires
        playable(words@),
        forall|key: u128| #[trigger] disk.requires((key,)),
    ensures
        exists|e: Option<TtEntry>| #[trigger]
            stored(words@, all_indices(words@.len()), 0, *disk, e) && r == match e {
                Some(entry) => entry.value,
                None => estimate(word_len(words@) as int),
            },
{
    let all = index_list(words.len());
    let e = lookup(words, all.as_slice(), 0, disk);
    assert(stored(words@, all_indices(words@.len()), 0, *disk, e));
    match e {
        Some(entry) => entry.value,
        None => estimate_minimax(words[0].len()),
    }
}

/// The words as texts.
pub fn word_texts(words: &[Vec<u8>]) -> (r: Vec<String>)
    ensures
        r@.len() == words@.len(),
        forall|i: int| 0 <= i < r@.len() ==> (#[trigger] r@[i])@ == plain_text(words@[i]@),
{
    let mut r: Vec<String> = Vec::new();
    let mut i: usize = 0;
    while i < words.len()
        invariant
            i <= words@.len(),
            r@.len() == i,
            forall|t: int| 0 <= t < i ==> (#[trigger] r@[t])@ == plain_text(words@[t]@),
        decreases words@.len() - i,
    {
        r.push(word_string(words[i].as_slice()));
        i += 1;
    }
    r
}

} // verus!
