//! The metric algebra: an aggregable (bytes, chars) summary of a span of
//! text, and the arithmetic over sequences of such summaries that the tree's
//! contracts are stated in.

use vstd::prelude::*;

verus! {

/// An aggregable summary of one span of text: how many bytes and how many
/// characters it covers. Forms a commutative monoid under component-wise
/// addition, with `zero` as the identity.
#[derive(Debug, Clone, Copy, PartialEq, Eq, Structural)]
pub struct Metrics {
    pub bytes: usize,
    pub chars: usize,
}

impl Metrics {
    /// The summary of a span with the given byte and character counts.
    pub fn new(bytes: usize, chars: usize) -> (r: Metrics)
        ensures
            r.bytes == bytes,
            r.chars == chars,
    {
        Metrics { bytes, chars }
    }

    /// The identity of the metric algebra: the summary of an empty span.
    pub fn zero() -> (r: Metrics)
        ensures
            r.bytes == 0,
            r.chars == 0,
    {
        Metrics { bytes: 0, chars: 0 }
    }

    /// Component-wise sum of two summaries.
    pub fn combine(self, other: Metrics) -> (r: Metrics)
        requires
            self.bytes + other.bytes <= usize::MAX,
            self.chars + other.chars <= usize::MAX,
        ensures
            r.bytes == self.bytes + other.bytes,
            r.chars == self.chars + other.chars,
    {
        Metrics { bytes: self.bytes + other.bytes, chars: self.chars + other.chars }
    }
}

/// Sum of the byte counts of the first `j` summaries of `cs`.
pub open spec fn prefix_bytes(cs: Seq<Metrics>, j: int) -> int
    decreases j,
{
    if j <= 0 {
        0
    } else {
        prefix_bytes(cs, j - 1) + cs[j - 1].bytes
    }
}

/// Sum of the character counts of the first `j` summaries of `cs`.
pub open spec fn prefix_chars(cs: Seq<Metrics>, j: int) -> int
    decreases j,
{
    if j <= 0 {
        0
    } else {
        prefix_chars(cs, j - 1) + cs[j - 1].chars
    }
}

/// Sum of the byte counts of all summaries of `cs`.
pub open spec fn sum_bytes(cs: Seq<Metrics>) -> int {
    prefix_bytes(cs, cs.len() as int)
}

/// Sum of the character counts of all summaries of `cs`.
pub open spec fn sum_chars(cs: Seq<Metrics>) -> int {
    prefix_chars(cs, cs.len() as int)
}

/// Prefix sums are monotone in the prefix length, and never negative.
pub proof fn lemma_prefix_monotone(cs: Seq<Metrics>, i: int, j: int)
    requires
        0 <= i <= j <= cs.len(),
    ensures
        0 <= prefix_bytes(cs, i) <= prefix_bytes(cs, j),
        0 <= prefix_chars(cs, i) <= prefix_chars(cs, j),
    decreases j,
{
    if j > 0 {
        if i == j {
            lemma_prefix_monotone(cs, i - 1, j - 1);
        } else {
            lemma_prefix_monotone(cs, i, j - 1);
        }
    }
}

/// How a prefix sum of a concatenation splits over the two halves.
pub proof fn lemma_prefix_concat(a: Seq<Metrics>, b: Seq<Metrics>, j: int)
    requires
        0 <= j <= a.len() + b.len(),
    ensures
        j <= a.len() ==> prefix_bytes(a + b, j) == prefix_bytes(a, j) && prefix_chars(a + b, j)
            == prefix_chars(a, j),
        j > a.len() ==> prefix_bytes(a + b, j) == sum_bytes(a) + prefix_bytes(b, j - a.len())
            && prefix_chars(a + b, j) == sum_chars(a) + prefix_chars(b, j - a.len()),
    decreases j,
{
    if j > 0 {
        lemma_prefix_concat(a, b, j - 1);
        assert(prefix_bytes(b, 0) == 0);
        assert(prefix_chars(b, 0) == 0);
    }
}

/// The total of a concatenation is the sum of the two totals.
pub proof fn lemma_sum_concat(a: Seq<Metrics>, b: Seq<Metrics>)
    ensures
        sum_bytes(a + b) == sum_bytes(a) + sum_bytes(b),
        sum_chars(a + b) == sum_chars(a) + sum_chars(b),
{
    lemma_prefix_concat(a, b, a.len() + b.len() as int);
    if b.len() == 0 {
        assert(a + b =~= a);
    }
}

/// Replacing one summary changes the total by exactly the difference at
/// that position.
pub proof fn lemma_sum_update(cs: Seq<Metrics>, i: int, m: Metrics, j: int)
    requires
        0 <= i < cs.len(),
        0 <= j <= cs.len(),
    ensures
        j <= i ==> prefix_bytes(cs.update(i, m), j) == prefix_bytes(cs, j) && prefix_chars(
            cs.update(i, m),
            j,
        ) == prefix_chars(cs, j),
        j > i ==> prefix_bytes(cs.update(i, m), j) == prefix_bytes(cs, j) - cs[i].bytes + m.bytes
            && prefix_chars(cs.update(i, m), j) == prefix_chars(cs, j) - cs[i].chars + m.chars,
    decreases j,
{
    if j > 0 {
        lemma_sum_update(cs, i, m, j - 1);
    }
}

/// The index of the chunk that covers running offset `k`: the least `t`
/// with `k <= prefix_bytes(cs, t + 1)`, found by the same left-to-right
/// scan that the tree's routing performs. Ties on a chunk's upper edge
/// resolve to that chunk, not the next one.
pub open spec fn target_index(cs: Seq<Metrics>, k: int) -> int
    recommends
        cs.len() > 0,
        0 <= k <= sum_bytes(cs),
    decreases cs.len(),
{
    if cs.len() <= 1 {
        0
    } else if k <= cs[0].bytes {
        0
    } else {
        1 + target_index(cs.subrange(1, cs.len() as int), k - cs[0].bytes)
    }
}

/// `target_index` really is the least index whose prefix reaches `k`, and
/// the residual offset it leaves lies within the chosen chunk.
pub proof fn lemma_target_index_props(cs: Seq<Metrics>, k: int)
    requires
        cs.len() > 0,
        0 <= k <= sum_bytes(cs),
    ensures
        0 <= target_index(cs, k) < cs.len(),
        k <= prefix_bytes(cs, target_index(cs, k) + 1),
        forall|i: int| 0 <= i < target_index(cs, k) ==> k > #[trigger] prefix_bytes(cs, i + 1),
        0 <= k - prefix_bytes(cs, target_index(cs, k)) <= cs[target_index(cs, k)].bytes,
    decreases cs.len(),
{
    let t = target_index(cs, k);
    if cs.len() <= 1 {
        assert(prefix_bytes(cs, 0) == 0);
        assert(prefix_bytes(cs, 1) == cs[0].bytes);
    } else if k <= cs[0].bytes {
        assert(prefix_bytes(cs, 0) == 0);
        assert(prefix_bytes(cs, 1) == cs[0].bytes);
    } else {
        let rest = cs.subrange(1, cs.len() as int);
        lemma_prefix_monotone(cs, 0, cs.len() as int);
        assert(sum_bytes(cs) == sum_bytes(seq![cs[0]] + rest)) by {
            assert(cs =~= seq![cs[0]] + rest);
        }
        lemma_sum_concat(seq![cs[0]], rest);
        assert(sum_bytes(seq![cs[0]]) == cs[0].bytes) by {
            assert(prefix_bytes(seq![cs[0]], 0) == 0);
            assert(prefix_bytes(seq![cs[0]], 1) == cs[0].bytes);
        }
        lemma_target_index_props(rest, k - cs[0].bytes);
        let tr = target_index(rest, k - cs[0].bytes);
        assert forall|j: int| 0 <= j <= rest.len() implies prefix_bytes(cs, j + 1) == cs[0].bytes
            + prefix_bytes(rest, j) by {
            lemma_prefix_shift(cs, j);
        }
        assert(k <= prefix_bytes(cs, t + 1));
        assert forall|i: int| 0 <= i < t implies k > #[trigger] prefix_bytes(cs, i + 1) by {
            if i > 0 {
                assert(k - cs[0].bytes > prefix_bytes(rest, i - 1 + 1));
                lemma_prefix_shift(cs, i);
            } else {
                assert(prefix_bytes(cs, 1) == cs[0].bytes);
            }
        }
        lemma_prefix_shift(cs, tr);
    }
}

/// Dropping the first element shifts prefix sums by that element's counts.
pub proof fn lemma_prefix_shift(cs: Seq<Metrics>, j: int)
    requires
        cs.len() > 0,
        0 <= j <= cs.len() - 1,
    ensures
        prefix_bytes(cs, j + 1) == cs[0].bytes + prefix_bytes(cs.subrange(1, cs.len() as int), j),
        prefix_chars(cs, j + 1) == cs[0].chars + prefix_chars(cs.subrange(1, cs.len() as int), j),
    decreases j,
{
    if j > 0 {
        lemma_prefix_shift(cs, j - 1);
    } else {
        assert(prefix_bytes(cs, 0) == 0);
        assert(prefix_chars(cs, 0) == 0);
        assert(prefix_bytes(cs, 1) == cs[0].bytes);
        assert(prefix_chars(cs, 1) == cs[0].chars);
    }
}

} // verus!
