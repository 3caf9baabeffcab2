//! How much of a level a table has.
use vstd::prelude::*;

use crate::precompute::walk::dedup_key;
use crate::seqs::lemma_perm_multiset;
use crate::solver::memoized::solvable;
use crate::solver::serving::serving_key;
use crate::solver::tt::{cache_unpack, tt_bound, BOUND_EXACT, BOUND_LOWER, BOUND_UPPER};
use crate::sorting::{before, sorted_order};
use crate::survey::bitvec::lemma_increasing_unique;
use crate::survey::levels::Position;

verus! {

/// The name of a kind of bound.
pub open spec fn bound_text(bound: u32) -> Seq<char> {
    if bound == BOUND_EXACT {
        "EXACT"@
    } else if bound == BOUND_LOWER {
        "LOWER"@
    } else if bound == BOUND_UPPER {
        "UPPER"@
    } else {
        "?"@
    }
}

/// The name of a kind of bound.
pub fn bound_name(bound: u32) -> (r: &'static str)
    ensures
        r@ == bound_text(bound),
{
    match bound {
        0 => "EXACT",
        1 => "LOWER",
        2 => "UPPER",
        _ => "?",
    }
}

/// What a table has for the positions of a level.
#[derive(Debug, Clone, Copy, PartialEq, Eq)]
pub struct Coverage {
    pub exact: u64,
    pub lower: u64,
    pub upper: u64,
    pub miss: u64,
    /// The number of words of the largest position.
    pub max_words: usize,
}

/// The entry is of this kind; 3 stands for none.
pub open spec fn of_kind(answer: Option<u32>, kind: int) -> bool {
    match answer {
        Some(packed) => if tt_bound(packed) <= 2 {
            tt_bound(packed) == kind
        } else {
            kind == 3
        },
        None => kind == 3,
    }
}

/// How many of the first `n` entries are of this kind.
pub open spec fn count_kind(answers: Seq<Option<u32>>, kind: int, n: nat) -> nat
    decreases n,
{
    if n == 0 {
        0
    } else {
        count_kind(answers, kind, (n - 1) as nat) + if of_kind(answers[n - 1], kind) {
            1nat
        } else {
            0nat
        }
    }
}

/// The positions among the first `n` that the table does not have, each with its
/// number of words before its place.
pub open spec fn missing_upto(level: Seq<Position>, answers: Seq<Option<u32>>, n: nat) -> Seq<(usize, usize)>
    decreases n,
{
    if n == 0 {
        Seq::empty()
    } else {
        let before = missing_upto(level, answers, (n - 1) as nat);
        if answers[n - 1] is None {
            before.push((level[n - 1].words.size() as usize, (n - 1) as usize))
        } else {
            before
        }
    }
}

/// `answers` is what the lookup has for the positions of a level.
pub open spec fn answers_for<D: Fn(u128) -> Option<u32>>(
    words: Seq<Vec<u8>>,
    level: Seq<Position>,
    find: D,
    answers: Seq<Option<u32>>,
) -> bool {
    answers.len() <= level.len() && forall|i: int|
        0 <= i < answers.len() ==> find.ensures(
            (serving_key(words, level[i].list(words.len()), level[i].masked),),
            #[trigger] answers[i],
        )
}

/// `c` counts the answers, and `missing` lists the positions without one.
pub open spec fn counts(level: Seq<Position>, answers: Seq<Option<u32>>, c: Coverage, missing: Seq<(usize, usize)>) -> bool {
    let n = answers.len();
    &&& c.exact == count_kind(answers, 0, n)
    &&& c.lower == count_kind(answers, 1, n)
    &&& c.upper == count_kind(answers, 2, n)
    &&& c.miss == count_kind(answers, 3, n)
    &&& c.exact + c.lower + c.upper + c.miss == n
    &&& missing == missing_upto(level, answers, n)
    &&& forall|i: int| 0 <= i < n ==> (#[trigger] level[i]).words.size() <= c.max_words
    &&& c.max_words == 0 || exists|i: int| 0 <= i < n && (#[trigger] level[i]).words.size() == c.max_words
}

proof fn lemma_count_same(a: Seq<Option<u32>>, b: Seq<Option<u32>>, kind: int, n: nat)
    requires
        n <= a.len(),
        n <= b.len(),
        forall|i: int| 0 <= i < n ==> a[i] == b[i],
    ensures
        count_kind(a, kind, n) == count_kind(b, kind, n),
    decreases n,
{
    if n > 0 {
        lemma_count_same(a, b, kind, (n - 1) as nat);
    }
}

proof fn lemma_missing_same(level: Seq<Position>, a: Seq<Option<u32>>, b: Seq<Option<u32>>, n: nat)
    requires
        n <= a.len(),
        n <= b.len(),
        forall|i: int| 0 <= i < n ==> a[i] == b[i],
    ensures
        missing_upto(level, a, n) == missing_upto(level, b, n),
    decreases n,
{
    if n > 0 {
        lemma_missing_same(level, a, b, (n - 1) as nat);
    }
}

/// Count what a table has for the positions of a level, and list those that it does
/// not have.
pub fn coverage<D: Fn(u128) -> Option<u32>>(words: &[Vec<u8>], level: &Vec<Position>, find: &D) -> (r: (Coverage, Vec<(usize, usize)>))
    requires
        solvable(words@),
        words@.len() + 63 <= usize::MAX,
        forall|i: int| 0 <= i < level@.len() ==> (#[trigger] level@[i]).ok(words@.len()),
        forall|key: u128| #[trigger] find.requires((key,)),
    ensures
        exists|answers: Seq<Option<u32>>| #[trigger]
            answers_for(words@, level@, *find, answers) && answers.len() == level@.len() && counts(level@, answers, r.0, r.1@),
{
    let mut c = Coverage { exact: 0, lower: 0, upper: 0, miss: 0, max_words: 0 };
    let mut missing: Vec<(usize, usize)> = Vec::new();
    let ghost mut answers: Seq<Option<u32>> = Seq::empty();
    let mut i: usize = 0;
    while i < level.len()
        invariant
            i <= level@.len(),
            solvable(words@),
            words@.len() + 63 <= usize::MAX,
            forall|j: int| 0 <= j < level@.len() ==> (#[trigger] level@[j]).ok(words@.len()),
            forall|key: u128| #[trigger] find.requires((key,)),
            answers.len() == i,
            answers_for(words@, level@, *find, answers),
            counts(level@, answers, c, missing@),
        decreases level@.len() - i,
    {
        let ghost p = level@[i as int];
        let ghost n = words@.len();
        proof {
            assert(p.ok(n));
            assert(p.stands_for(n, p.list(n)));
        }
        let indices = level[i].words.to_indices();
        proof {
            assert forall|x: usize| #[trigger] indices@.contains(x) == p.list(n).contains(x) by {
                assert(indices@.contains(x) == p.words.member(x as int));
                assert(p.list(n).contains(x) == p.words.member(x as int));
            }
            lemma_increasing_unique(indices@, p.list(n));
        }
        let key: u128 = dedup_key(words, indices.as_slice(), level[i].masked);
        let size: usize = level[i].words.len();
        let answer: Option<u32> = find(key);
        let ghost old_answers = answers;
        let ghost old_c = c;
        proof {
            answers = answers.push(answer);
            lemma_count_same(old_answers, answers, 0, i as nat);
            lemma_count_same(old_answers, answers, 1, i as nat);
            lemma_count_same(old_answers, answers, 2, i as nat);
            lemma_count_same(old_answers, answers, 3, i as nat);
            lemma_missing_same(level@, old_answers, answers, i as nat);
            assert(answers_for(words@, level@, *find, answers)) by {
                assert forall|j: int| 0 <= j < answers.len() implies find.ensures(
                    (serving_key(words@, level@[j].list(n), level@[j].masked),),
                    #[trigger] answers[j],
                ) by {
                    if j < i {
                        assert(answers[j] == old_answers[j]);
                    }
                }
            }
        }
        if size > c.max_words {
            c.max_words = size;
        }
        match answer {
            Some(packed) => {
                let (_value, _letter, bound) = cache_unpack(packed);
                match bound {
                    0 => {
                        c.exact = c.exact + 1;
                    },
                    1 => {
                        c.lower = c.lower + 1;
                    },
                    2 => {
                        c.upper = c.upper + 1;
                    },
                    _ => {
                        c.miss = c.miss + 1;
                    },
                }
            },
            None => {
                c.miss = c.miss + 1;
                missing.push((size, i));
            },
        }
        proof {
            if old_c.max_words != 0 {
                let j = choose|j: int| 0 <= j < i && (#[trigger] level@[j]).words.size() == old_c.max_words;
                assert(level@[j].words.size() == old_c.max_words);
            }
            assert(level@[i as int].words.size() == size);
        }
        i += 1;
    }
    (c, missing)
}

/// `s` is the sizes in increasing order.
pub open spec fn sorted_sizes(sizes: Seq<usize>, s: Seq<usize>) -> bool {
    s.to_multiset() == sizes.to_multiset() && s.len() == sizes.len() && forall|i: int, j: int|
        0 <= i <= j < s.len() ==> s[i] <= s[j]
}

/// The largest size, the ninetieth percentile and the median.
pub fn size_stats(sizes: &Vec<usize>) -> (r: (usize, usize, usize))
    requires
        0 < sizes@.len() <= usize::MAX / 9,
    ensures
        exists|s: Seq<usize>| #[trigger]
            sorted_sizes(sizes@, s) && r.0 == s[s.len() - 1] && r.1 == s[(s.len() * 9 / 10) as int] && r.2 == s[(s.len() / 2) as int],
{
    let n: usize = sizes.len();
    let ghost leq = |x: int, y: int| sizes@[x] <= sizes@[y];
    let le = |x: usize, y: usize| -> (b: bool)
        requires
            x < sizes@.len(),
            y < sizes@.len(),
        ensures
            b == (sizes@[x as int] <= sizes@[y as int]),
        { sizes[x] <= sizes[y] };
    let order = sorted_order(n, &le, Ghost(leq));
    proof {
        let s = Seq::new(n as nat, |t: int| sizes@[order@[t] as int]);
        lemma_perm_multiset(sizes@, order@);
        assert forall|i: int, j: int| 0 <= i <= j < s.len() implies s[i] <= s[j] by {
            if i < j {
                assert(before(leq, order@[i] as int, order@[j] as int));
            }
        }
        assert(sorted_sizes(sizes@, s));
    }
    (sizes[order[n - 1]], sizes[order[n * 9 / 10]], sizes[order[n / 2]])
}

} // verus!
