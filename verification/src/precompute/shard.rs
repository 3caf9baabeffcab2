//! Sharing the positions out among machines, and choosing which to solve.
use vstd::prelude::*;

verus! {

/// Why a shard argument was not accepted.
#[derive(Debug, Clone, Copy, PartialEq, Eq, Structural)]
pub enum ShardError {
    /// There is no slash.
    MissingSlash,
    /// The part before the slash is not a number.
    IndexNotInteger,
    /// The part after the slash is not a number.
    CountNotInteger,
    /// The number of shards is zero.
    ZeroCount,
    /// The shard is not below the number of shards.
    IndexOutOfRange,
}

impl ShardError {
    /// The message for the user.
    pub fn message(&self) -> (r: &'static str)
        ensures
            r@ == match *self {
                ShardError::MissingSlash => "--shard must be i/N (e.g. 2/4)"@,
                ShardError::IndexNotInteger => "--shard i not an integer"@,
                ShardError::CountNotInteger => "--shard N not an integer"@,
                ShardError::ZeroCount => "--shard N must be ≥ 1"@,
                ShardError::IndexOutOfRange => "--shard i must be < N"@,
            },
    {
        match self {
            ShardError::MissingSlash => "--shard must be i/N (e.g. 2/4)",
            ShardError::IndexNotInteger => "--shard i not an integer",
            ShardError::CountNotInteger => "--shard N not an integer",
            ShardError::ZeroCount => "--shard N must be ≥ 1",
            ShardError::IndexOutOfRange => "--shard i must be < N",
        }
    }
}

/// A decimal digit.
pub open spec fn is_digit(c: char) -> bool {
    '0' <= c <= '9'
}

/// The number that the first `n` digits write.
pub open spec fn digits_value(s: Seq<char>, n: nat) -> nat
    decreases n,
{
    if n == 0 {
        0
    } else {
        digits_value(s, (n - 1) as nat) * 10 + (s[n - 1] as nat - 48) as nat
    }
}

/// Only digits, and at least one.
pub open spec fn all_digits(s: Seq<char>) -> bool {
    s.len() > 0 && forall|i: int| 0 <= i < s.len() ==> is_digit(#[trigger] s[i])
}

/// The number that a text writes: digits, with a plus sign before them or not.
pub open spec fn number_in(s: Seq<char>) -> Option<usize> {
    let d = if s.len() > 0 && s[0] == '+' {
        s.skip(1)
    } else {
        s
    };
    if all_digits(d) && digits_value(d, d.len()) <= usize::MAX {
        Some(digits_value(d, d.len()) as usize)
    } else {
        None
    }
}

/// `p` is the place of the first slash, or the end where there is none.
pub open spec fn slash_place(s: Seq<char>, p: int) -> bool {
    &&& 0 <= p <= s.len()
    &&& forall|i: int| 0 <= i < p ==> #[trigger] s[i] != '/'
    &&& p < s.len() ==> s[p] == '/'
}

/// The shard that a text names, its first slash being at `p`.
pub open spec fn shard_at(s: Seq<char>, p: int) -> Result<(usize, usize), ShardError> {
    if p >= s.len() {
        Err(ShardError::MissingSlash)
    } else {
        match (number_in(s.take(p)), number_in(s.skip(p + 1))) {
            (None, _) => Err(ShardError::IndexNotInteger),
            (Some(_), None) => Err(ShardError::CountNotInteger),
            (Some(i), Some(n)) => if n == 0 {
                Err(ShardError::ZeroCount)
            } else if i >= n {
                Err(ShardError::IndexOutOfRange)
            } else {
                Ok((i, n))
            },
        }
    }
}

proof fn lemma_digits_grow(s: Seq<char>, m: nat, n: nat)
    requires
        m <= n <= s.len(),
    ensures
        digits_value(s, m) <= digits_value(s, n),
    decreases n,
{
    if m < n {
        lemma_digits_grow(s, m, (n - 1) as nat);
    }
}

/// Read the number between two places of a text.
fn read_number(text: &Vec<char>, from: usize, to: usize) -> (r: Option<usize>)
    requires
        from <= to <= text@.len(),
    ensures
        r == number_in(text@.subrange(from as int, to as int)),
{
    let ghost s = text@.subrange(from as int, to as int);
    let start: usize = if from < to && text[from] == '+' {
        from + 1
    } else {
        from
    };
    let ghost d = text@.subrange(start as int, to as int);
    proof {
        if start > from {
            assert(s[0] == '+');
            assert(s.skip(1) =~= d);
        } else {
            assert(s =~= d);
        }
    }
    if start == to {
        return None;
    }
    let mut value: usize = 0;
    let mut i: usize = start;
    while i < to
        invariant
            start <= i <= to <= text@.len(),
            d == text@.subrange(start as int, to as int),
            value == digits_value(d, (i - start) as nat),
            forall|j: int| 0 <= j < i - start ==> is_digit(#[trigger] d[j]),
            number_in(s) == (if all_digits(d) && digits_value(d, d.len()) <= usize::MAX {
                Some(digits_value(d, d.len()) as usize)
            } else {
                None
            }),
            s == text@.subrange(from as int, to as int),
            from <= start,
        decreases to - i,
    {
        let c: char = text[i];
        assert(d[i - start] == c);
        if !('0' <= c && c <= '9') {
            return None;
        }
        let digit: usize = (c as u32 - 48) as usize;
        let tenfold: Option<usize> = value.checked_mul(10);
        proof {
            lemma_digits_grow(d, (i - start + 1) as nat, d.len());
            assert(digits_value(d, (i - start + 1) as nat) == value * 10 + digit);
        }
        match tenfold {
            None => {
                return None;
            },
            Some(t) => match t.checked_add(digit) {
                None => {
                    return None;
                },
                Some(v) => {
                    value = v;
                },
            },
        }
        i += 1;
    }
    Some(value)
}

/// The characters of a text.
pub(crate) fn chars_of(text: &str) -> (r: Vec<char>)
    ensures
        r@ == text@,
{
    let mut r: Vec<char> = Vec::new();
    for c in iter: text.chars()
        invariant
            r@ == iter.seq().take(iter.index()),
            iter.seq() == text@,
    {
        r.push(c);
        proof {
            let i = iter.index();
            assert(iter.seq().take(i + 1) =~= iter.seq().take(i).push(iter.seq()[i]));
        }
    }
    assert(text@.take(text@.len() as int) =~= text@);
    r
}

/// Parse a shard argument of the form `i/N`.
pub fn parse_shard(text: &str) -> (r: Result<(usize, usize), ShardError>)
    ensures
        exists|p: int| #[trigger] slash_place(text@, p) && r == shard_at(text@, p),
        r matches Ok(shard) ==> shard.0 < shard.1,
{
    let s = chars_of(text);
    let n: usize = s.len();
    let mut p: usize = 0;
    while p < n && s[p] != '/'
        invariant
            p <= n,
            n == s@.len(),
            forall|i: int| 0 <= i < p ==> #[trigger] s@[i] != '/',
        decreases n - p,
    {
        p += 1;
    }
    assert(slash_place(text@, p as int));
    if p == n {
        return Err(ShardError::MissingSlash);
    }
    assert(s@.subrange(0, p as int) =~= text@.take(p as int));
    assert(s@.subrange(p + 1, n as int) =~= text@.skip(p + 1));
    let i: usize = match read_number(&s, 0, p) {
        None => {
            return Err(ShardError::IndexNotInteger);
        },
        Some(i) => i,
    };
    let count: usize = match read_number(&s, p + 1, n) {
        None => {
            return Err(ShardError::CountNotInteger);
        },
        Some(c) => c,
    };
    if count == 0 {
        return Err(ShardError::ZeroCount);
    }
    if i >= count {
        return Err(ShardError::IndexOutOfRange);
    }
    Ok((i, count))
}

/// A text has one first slash, so it names one shard.
pub proof fn lemma_slash_unique(s: Seq<char>, p: int, q: int)
    requires
        slash_place(s, p),
        slash_place(s, q),
    ensures
        p == q,
{
    if p < q {
        assert(s[p] == '/');
    } else if q < p {
        assert(s[q] == '/');
    }
}

/// The position at `index` belongs to shard `i` of `n`.
pub open spec fn belongs(index: int, i: int, n: int) -> bool {
    index % n == i
}

/// Whether the position at `index` belongs to shard `i` of `n`.
pub fn in_shard(index: usize, shard: (usize, usize)) -> (r: bool)
    requires
        shard.1 > 0,
    ensures
        r == belongs(index as int, shard.0 as int, shard.1 as int),
{
    index % shard.1 == shard.0
}

/// Every position belongs to exactly one shard.
pub proof fn lemma_one_shard(index: int, n: int) -> (i: int)
    requires
        index >= 0,
        n > 0,
    ensures
        0 <= i < n,
        belongs(index, i, n),
        forall|j: int| #[trigger] belongs(index, j, n) ==> j == i,
{
    index % n
}

/// Which positions a run takes on.
#[derive(Debug, Clone, Copy)]
pub struct Selection {
    /// Only this position.
    pub only_index: Option<usize>,
    /// The shard of this machine and the number of shards.
    pub shard: (usize, usize),
    /// No positions with more words than this.
    pub max_words: Option<usize>,
}

/// What to do with a position.
#[derive(Debug, Clone, Copy, PartialEq, Eq, Structural)]
pub enum Choice {
    Take,
    OtherIndex,
    OtherShard,
    TooLarge,
}

impl Selection {
    /// What to do with the position at `index` with `words` words.
    pub open spec fn choice(&self, index: usize, words: usize) -> Choice {
        if self.only_index is Some && self.only_index->0 != index {
            Choice::OtherIndex
        } else if self.shard.1 > 1 && !belongs(index as int, self.shard.0 as int, self.shard.1 as int) {
            Choice::OtherShard
        } else if self.max_words is Some && words > self.max_words->0 {
            Choice::TooLarge
        } else {
            Choice::Take
        }
    }

    /// Decide what to do with a position.
    pub fn choose_position(&self, index: usize, words: usize) -> (r: Choice)
        ensures
            r == self.choice(index, words),
            r is Take <==> (self.only_index is None || self.only_index == Some(index)) && (self.shard.1 <= 1 || index as int
                % self.shard.1 as int == self.shard.0) && (self.max_words is None || words <= self.max_words->0),
            r is TooLarge ==> self.max_words is Some && words > self.max_words->0,
            r is OtherShard ==> self.shard.1 > 1 && index as int % self.shard.1 as int != self.shard.0,
            r is OtherIndex <==> self.only_index is Some && self.only_index->0 != index,
    {
        if let Some(target) = self.only_index {
            if index != target {
                return Choice::OtherIndex;
            }
        }
        if self.shard.1 > 1 && !in_shard(index, self.shard) {
            return Choice::OtherShard;
        }
        if let Some(max) = self.max_words {
            if words > max {
                return Choice::TooLarge;
            }
        }
        Choice::Take
    }
}

/// Machines that run with the same settings but different shards never take the
/// same position, and together they take every position that one machine would
/// take alone.
pub proof fn lemma_shards_share(alone: Selection, a: Selection, b: Selection, index: usize, words: usize)
    requires
        a.only_index == alone.only_index,
        b.only_index == alone.only_index,
        a.max_words == alone.max_words,
        b.max_words == alone.max_words,
        alone.shard == (0usize, 1usize),
        a.shard.1 == b.shard.1,
        a.shard.0 < a.shard.1,
        b.shard.0 < b.shard.1,
    ensures
        a.choice(index, words) == Choice::Take && b.choice(index, words) == Choice::Take ==> a.shard == b.shard,
        a.choice(index, words) == Choice::Take ==> alone.choice(index, words) == Choice::Take,
        alone.choice(index, words) == Choice::Take && a.shard.0 == index % a.shard.1 ==> a.choice(index, words) == Choice::Take,
{
}

/// Counts solved positions between flushes.
#[derive(Debug, Clone, Copy)]
pub struct FlushCounter {
    every: usize,
    since: usize,
}

impl FlushCounter {
    /// Flush after this many positions.
    pub closed spec fn period(&self) -> nat {
        self.every as nat
    }

    /// Positions solved since the last flush.
    pub closed spec fn pending(&self) -> nat {
        self.since as nat
    }

    pub open spec fn ok(&self) -> bool {
        self.pending() < self.period()
    }

    /// A counter that asks for a flush after every `every` positions, at least one.
    pub fn new(every: usize) -> (r: Self)
        ensures
            r.ok(),
            r.period() == if every == 0 {
                1
            } else {
                every as int
            },
            r.pending() == 0,
    {
        FlushCounter {
            every: if every == 0 {
                1
            } else {
                every
            },
            since: 0,
        }
    }

    /// A position has been solved; tells whether to flush now.
    pub fn solved(&mut self) -> (flush: bool)
        requires
            old(self).ok(),
        ensures
            final(self).ok(),
            final(self).period() == old(self).period(),
            flush == (old(self).pending() + 1 >= old(self).period()),
            final(self).pending() == if flush {
                0
            } else {
                old(self).pending() + 1
            },
    {
        self.since = self.since + 1;
        if self.since >= self.every {
            self.since = 0;
            true
        } else {
            false
        }
    }

    /// How many more positions until the next flush.
    pub fn until_flush(&self) -> (r: usize)
        requires
            self.ok(),
        ensures
            r == self.period() - self.pending(),
    {
        self.every - self.since
    }

    /// Whether something is left to flush at the end.
    pub fn any_pending(&self) -> (r: bool)
        ensures
            r == (self.pending() > 0),
    {
        self.since > 0
    }
}

} // verus!
