//! The tree unit: a node is either a leaf holding an ordered run of chunk
//! summaries, or an internal node holding children plus one cached subtree
//! summary per child. This module states the tree's invariants and carries
//! the offset routing and the insertion-with-split algorithm.

use vstd::prelude::*;

use crate::metrics::{lemma_prefix_concat, lemma_prefix_monotone,
    lemma_prefix_shift, lemma_sum_concat, lemma_sum_update, lemma_target_index_props,
    prefix_bytes, prefix_chars, sum_bytes, sum_chars, target_index, Metrics};

verus! {

/// The branching parameter: the minimum fan-out a non-root node aims for.
pub const BRANCH_T: usize = 2;

/// Maximum number of children of an internal node.
pub const MAX_CHILDREN: usize = 2 * BRANCH_T;

/// Maximum number of chunk summaries in one leaf.
pub const MAX_CHUNKS: usize = 2 * BRANCH_T - 1;

/// One tree node: an internal node routes by per-child cached summaries, a
/// leaf holds the chunk summaries themselves.
pub enum Node {
    Internal { metrics: Vec<Metrics>, children: Vec<Node> },
    Leaf { data: Vec<Metrics> },
}

/// Depth of the subtree under `n`: leaves sit at height zero. Well-formed
/// trees keep every child at the same height, so following the first child
/// measures them all.
pub open spec fn height(n: Node) -> nat
    decreases n,
{
    match n {
        Node::Leaf { .. } => 0,
        Node::Internal { children, .. } => {
            if children@.len() == 0 {
                1
            } else {
                1 + height(children@[0])
            }
        },
    }
}

/// The chunk summaries under `n`, left to right across all its leaves.
pub open spec fn chunks_of(n: Node) -> Seq<Metrics>
    decreases n,
{
    match n {
        Node::Leaf { data } => data@,
        Node::Internal { children, .. } => seq_chunks(children@),
    }
}

/// The chunk summaries under a run of sibling nodes, left to right.
pub open spec fn seq_chunks(ns: Seq<Node>) -> Seq<Metrics>
    decreases ns,
{
    if ns.len() == 0 {
        Seq::empty()
    } else {
        chunks_of(ns[0]) + seq_chunks(ns.subrange(1, ns.len() as int))
    }
}

/// Total bytes accounted for under `n`.
pub open spec fn bytes_of(n: Node) -> int {
    sum_bytes(chunks_of(n))
}

/// Total characters accounted for under `n`.
pub open spec fn chars_of(n: Node) -> int {
    sum_chars(chunks_of(n))
}

/// Structural well-formedness of a subtree: no node is empty, every cached
/// summary equals the exact metric total of its child's subtree, and all
/// children of a node have the same height, which puts every leaf of the
/// tree at the same depth.
pub open spec fn tree_ok(n: Node) -> bool
    decreases n,
{
    match n {
        Node::Leaf { data } => data@.len() >= 1,
        Node::Internal { metrics, children } => {
            &&& children@.len() >= 1
            &&& metrics@.len() == children@.len()
            &&& (forall|i: int| 0 <= i < children@.len() ==> tree_ok(#[trigger] children@[i]))
            &&& (forall|i: int|
                0 <= i < children@.len() ==> height(#[trigger] children@[i]) == height(
                    children@[0],
                ))
            &&& (forall|i: int|
                0 <= i < children@.len() ==> (#[trigger] metrics@[i]).bytes == bytes_of(
                    children@[i],
                ) && metrics@[i].chars == chars_of(children@[i]))
        },
    }
}

/// Capacity discipline: every leaf holds at most `MAX_CHUNKS` summaries and
/// every internal node at most `MAX_CHILDREN` children.
pub open spec fn balanced(n: Node) -> bool
    decreases n,
{
    match n {
        Node::Leaf { data } => data@.len() <= MAX_CHUNKS,
        Node::Internal { children, .. } => {
            &&& children@.len() <= MAX_CHILDREN
            &&& (forall|i: int| 0 <= i < children@.len() ==> balanced(#[trigger] children@[i]))
        },
    }
}

/// Chunk flattening distributes over concatenation of sibling runs.
pub proof fn lemma_seq_chunks_concat(a: Seq<Node>, b: Seq<Node>)
    ensures
        seq_chunks(a + b) == seq_chunks(a) + seq_chunks(b),
    decreases a.len(),
{
    if a.len() == 0 {
        assert(a + b =~= b);
        assert(seq_chunks(a) =~= Seq::<Metrics>::empty());
        assert(seq_chunks(a) + seq_chunks(b) =~= seq_chunks(b));
    } else {
        let ab = a + b;
        assert(ab[0] == a[0]);
        assert(ab.subrange(1, ab.len() as int) =~= a.subrange(1, a.len() as int) + b);
        lemma_seq_chunks_concat(a.subrange(1, a.len() as int), b);
        assert(chunks_of(a[0]) + (seq_chunks(a.subrange(1, a.len() as int)) + seq_chunks(b))
            =~= (chunks_of(a[0]) + seq_chunks(a.subrange(1, a.len() as int))) + seq_chunks(b));
    }
}

/// The chunks under a single node, seen as a one-node run.
pub proof fn lemma_seq_chunks_singleton(n: Node)
    ensures
        seq_chunks(seq![n]) == chunks_of(n),
{
    let s = seq![n];
    assert(s.len() == 1 && s[0] == n);
    assert(seq_chunks(s) == chunks_of(n) + seq_chunks(s.subrange(1, 1)));
    assert(seq_chunks(s.subrange(1, 1)) =~= Seq::<Metrics>::empty());
    assert(chunks_of(n) + Seq::<Metrics>::empty() =~= chunks_of(n));
}

/// The flattened chunks of a run split around any one position.
pub proof fn lemma_seq_chunks_decompose(ns: Seq<Node>, c: int)
    requires
        0 <= c < ns.len(),
    ensures
        seq_chunks(ns) == seq_chunks(ns.subrange(0, c)) + chunks_of(ns[c]) + seq_chunks(
            ns.subrange(c + 1, ns.len() as int),
        ),
{
    let pre = ns.subrange(0, c);
    let post = ns.subrange(c + 1, ns.len() as int);
    assert(ns =~= pre + seq![ns[c]] + post);
    lemma_seq_chunks_concat(pre + seq![ns[c]], post);
    lemma_seq_chunks_concat(pre, seq![ns[c]]);
    lemma_seq_chunks_singleton(ns[c]);
}

/// A well-formed subtree always covers at least one chunk.
pub proof fn lemma_chunks_nonempty(n: Node)
    requires
        tree_ok(n),
    ensures
        chunks_of(n).len() >= 1,
    decreases n,
{
    match n {
        Node::Leaf { .. } => {},
        Node::Internal { children, .. } => {
            lemma_chunks_nonempty(children@[0]);
            assert(seq_chunks(children@) == chunks_of(children@[0]) + seq_chunks(
                children@.subrange(1, children@.len() as int),
            ));
        },
    }
}

/// In a well-formed internal node the cached summaries' prefix sums equal
/// the exact totals of the flattened chunks of the children they cover.
pub proof fn lemma_cache_prefix(metrics: Seq<Metrics>, children: Seq<Node>, j: int)
    requires
        metrics.len() == children.len(),
        forall|i: int|
            0 <= i < children.len() ==> (#[trigger] metrics[i]).bytes == bytes_of(children[i])
                && metrics[i].chars == chars_of(children[i]),
        0 <= j <= children.len(),
    ensures
        prefix_bytes(metrics, j) == sum_bytes(seq_chunks(children.subrange(0, j))),
        prefix_chars(metrics, j) == sum_chars(seq_chunks(children.subrange(0, j))),
    decreases j,
{
    if j == 0 {
        assert(children.subrange(0, 0) =~= Seq::<Node>::empty());
        assert(sum_bytes(Seq::<Metrics>::empty()) == 0);
        assert(sum_chars(Seq::<Metrics>::empty()) == 0);
    } else {
        lemma_cache_prefix(metrics, children, j - 1);
        let pre = children.subrange(0, j - 1);
        assert(children.subrange(0, j) =~= pre + seq![children[j - 1]]);
        lemma_seq_chunks_concat(pre, seq![children[j - 1]]);
        lemma_seq_chunks_singleton(children[j - 1]);
        lemma_sum_concat(seq_chunks(pre), chunks_of(children[j - 1]));
    }
}

/// Routing within the first part of a concatenation: when the offset falls
/// inside `a`, the scan of `a + b` lands where the scan of `a` alone does.
pub proof fn lemma_target_concat_left(a: Seq<Metrics>, b: Seq<Metrics>, k: int)
    requires
        a.len() >= 1,
        0 <= k <= sum_bytes(a),
    ensures
        target_index(a + b, k) == target_index(a, k),
        prefix_bytes(a + b, target_index(a, k)) == prefix_bytes(a, target_index(a, k)),
        (a + b)[target_index(a, k)] == a[target_index(a, k)],
    decreases a.len(),
{
    lemma_target_index_props(a, k);
    let t = target_index(a, k);
    lemma_prefix_concat(a, b, t);
    if a.len() == 1 {
        assert(prefix_bytes(a, 1) == prefix_bytes(a, 0) + a[0].bytes);
        if (a + b).len() > 1 && !(k <= (a + b)[0].bytes) {
            assert(k > a[0].bytes);
            assert(prefix_bytes(a, 1) == a[0].bytes);
            assert(false);
        }
    } else {
        if k <= a[0].bytes {
        } else {
            let ar = a.subrange(1, a.len() as int);
            assert((a + b).subrange(1, (a + b).len() as int) =~= ar + b);
            assert(prefix_bytes(a, 1) == prefix_bytes(a, 0) + a[0].bytes);
            assert(sum_bytes(a) == a[0].bytes + sum_bytes(ar)) by {
                assert(a =~= seq![a[0]] + ar);
                lemma_sum_concat(seq![a[0]], ar);
                assert(prefix_bytes(seq![a[0]], 1) == prefix_bytes(seq![a[0]], 0)
                    + seq![a[0]][0].bytes);
            }
            lemma_target_concat_left(ar, b, k - a[0].bytes);
        }
    }
}

/// Routing past the first part of a concatenation: when the offset lies
/// strictly beyond `a`, the scan of `a + b` skips all of `a` and continues
/// in `b` with the offset reduced by `a`'s total.
pub proof fn lemma_target_concat_right(a: Seq<Metrics>, b: Seq<Metrics>, k: int)
    requires
        b.len() >= 1,
        k > sum_bytes(a),
        k <= sum_bytes(a) + sum_bytes(b),
    ensures
        target_index(a + b, k) == a.len() + target_index(b, k - sum_bytes(a)),
        prefix_bytes(a + b, a.len() + target_index(b, k - sum_bytes(a))) == sum_bytes(a)
            + prefix_bytes(b, target_index(b, k - sum_bytes(a))),
        (a + b)[a.len() + target_index(b, k - sum_bytes(a))] == b[target_index(b, k - sum_bytes(a))],
    decreases a.len(),
{
    lemma_target_index_props(b, k - sum_bytes(a));
    let tb = target_index(b, k - sum_bytes(a));
    if a.len() == 0 {
        assert(a + b =~= b);
        assert(sum_bytes(a) == 0);
        lemma_prefix_concat(a, b, tb);
    } else {
        let ar = a.subrange(1, a.len() as int);
        assert(sum_bytes(a) == a[0].bytes + sum_bytes(ar)) by {
            assert(a =~= seq![a[0]] + ar);
            lemma_sum_concat(seq![a[0]], ar);
            assert(prefix_bytes(seq![a[0]], 1) == prefix_bytes(seq![a[0]], 0) + seq![a[0]][0].bytes);
        }
        lemma_prefix_monotone(ar, 0, ar.len() as int);
        lemma_prefix_monotone(b, 0, b.len() as int);
        assert(k > a[0].bytes);
        assert((a + b).len() > 1);
        assert((a + b).subrange(1, (a + b).len() as int) =~= ar + b);
        lemma_target_concat_right(ar, b, k - a[0].bytes);
        lemma_prefix_concat(a, b, a.len() + tb);
    }
}

/// Any index that the left-to-right scan would stop at — least with a
/// prefix reaching `k` — is the `target_index`.
pub proof fn lemma_target_index_unique(cs: Seq<Metrics>, k: int, t: int)
    requires
        0 <= t < cs.len(),
        0 <= k,
        k <= prefix_bytes(cs, t + 1),
        forall|j: int| 0 <= j < t ==> k > #[trigger] prefix_bytes(cs, j + 1),
    ensures
        target_index(cs, k) == t,
    decreases cs.len(),
{
    assert(prefix_bytes(cs, 1) == prefix_bytes(cs, 0) + cs[0].bytes);
    if cs.len() <= 1 {
    } else if k <= cs[0].bytes {
        if t >= 1 {
            assert(k > prefix_bytes(cs, 0int + 1));
            assert(false);
        }
    } else {
        assert(t >= 1);
        let rest = cs.subrange(1, cs.len() as int);
        assert forall|j: int| 0 <= j <= rest.len() implies prefix_bytes(cs, j + 1) == cs[0].bytes
            + #[trigger] prefix_bytes(rest, j) by {
            lemma_prefix_shift(cs, j);
        }
        assert forall|j: int| 0 <= j < t - 1 implies k - cs[0].bytes > #[trigger] prefix_bytes(
            rest,
            j + 1,
        ) by {
            assert(k > prefix_bytes(cs, (j + 1) + 1));
        }
        lemma_target_index_unique(rest, k - cs[0].bytes, t - 1);
    }
}

/// One routing step of a well-formed internal node: picking the child by
/// the cached summaries and reducing the offset by the summaries skipped
/// lands on exactly the chunk that a scan of the whole flattened sequence
/// would pick, with the same residual offset.
pub proof fn lemma_route(metrics: Seq<Metrics>, children: Seq<Node>, k: int)
    requires
        metrics.len() == children.len(),
        children.len() >= 1,
        forall|i: int| 0 <= i < children.len() ==> tree_ok(#[trigger] children[i]),
        forall|i: int|
            0 <= i < children.len() ==> (#[trigger] metrics[i]).bytes == bytes_of(children[i])
                && metrics[i].chars == chars_of(children[i]),
        0 <= k <= sum_bytes(seq_chunks(children)),
    ensures
        ({
            let n = children.len() as int;
            let c = target_index(metrics, k);
            let k2 = k - prefix_bytes(metrics, c);
            let cs = seq_chunks(children);
            let sub = chunks_of(children[c]);
            let tl = target_index(sub, k2);
            let tg = target_index(cs, k);
            &&& 0 <= c < n
            &&& 0 <= k2 <= bytes_of(children[c])
            &&& k2 == k - prefix_bytes(metrics, c)
            &&& tg == seq_chunks(children.subrange(0, c)).len() + tl
            &&& cs[tg] == sub[tl]
            &&& k - prefix_bytes(cs, tg) == k2 - prefix_bytes(sub, tl)
        }),
{
    let n = children.len() as int;
    lemma_cache_prefix(metrics, children, n);
    assert(children.subrange(0, n) =~= children);
    let cs = seq_chunks(children);
    lemma_target_index_props(metrics, k);
    let c = target_index(metrics, k);
    let k2 = k - prefix_bytes(metrics, c);
    lemma_cache_prefix(metrics, children, c);
    lemma_seq_chunks_decompose(children, c);
    lemma_chunks_nonempty(children[c]);
    let pre = seq_chunks(children.subrange(0, c));
    let sub = chunks_of(children[c]);
    let post = seq_chunks(children.subrange(c + 1, n));
    let tl = target_index(sub, k2);
    assert(cs == (pre + sub) + post);
    assert(cs =~= pre + (sub + post));
    lemma_sum_concat(sub, post);
    lemma_prefix_monotone(post, 0, post.len() as int);
    lemma_target_concat_left(sub, post, k2);
    lemma_target_index_props(sub, k2);
    if c == 0 {
        assert(children.subrange(0, 0) =~= Seq::<Node>::empty());
        assert(seq_chunks(Seq::<Node>::empty()) =~= Seq::<Metrics>::empty());
        assert(pre + (sub + post) =~= sub + post);
        assert(prefix_bytes(metrics, 0) == 0);
    } else {
        assert(k > prefix_bytes(metrics, c)) by {
            assert(k > prefix_bytes(metrics, (c - 1) + 1));
        }
        lemma_sum_concat(pre, sub + post);
        lemma_target_concat_right(pre, sub + post, k);
        assert(pre.len() == seq_chunks(children.subrange(0, c)).len());
    }
}

/// Left-to-right scan of a run of summaries for the chunk that covers
/// running offset `k`: the routing step shared by search and insertion.
/// Returns the stopping index and the residual offset at it.
fn scan_summaries(cs: &Vec<Metrics>, k: usize) -> (r: (usize, usize))
    requires
        cs@.len() >= 1,
        k as int <= sum_bytes(cs@),
    ensures
        r.0 as int == target_index(cs@, k as int),
        r.0 < cs@.len(),
        r.1 as int == k - prefix_bytes(cs@, r.0 as int),
        r.1 <= cs@[r.0 as int].bytes,
{
    let mut i: usize = 0;
    let mut rem: usize = k;
    while i < cs.len() - 1 && rem > cs[i].bytes
        invariant
            cs@.len() >= 1,
            0 <= i < cs@.len(),
            k as int <= sum_bytes(cs@),
            rem as int == k - prefix_bytes(cs@, i as int),
            forall|j: int| 0 <= j < i ==> k > #[trigger] prefix_bytes(cs@, j + 1),
        decreases cs@.len() - i,
    {
        proof {
            assert(prefix_bytes(cs@, i + 1) == prefix_bytes(cs@, i as int) + cs@[i as int].bytes);
        }
        rem = rem - cs[i].bytes;
        i = i + 1;
    }
    proof {
        assert(prefix_bytes(cs@, i + 1) == prefix_bytes(cs@, i as int) + cs@[i as int].bytes);
        if rem > cs@[i as int].bytes {
            assert(i + 1 == cs@.len());
            assert(sum_bytes(cs@) == prefix_bytes(cs@, i + 1));
            assert(false);
        }
        lemma_target_index_unique(cs@, k as int, i as int);
    }
    (i, rem)
}

/// Component-wise total of a run of summaries.
fn fold_summaries(cs: &Vec<Metrics>) -> (r: Metrics)
    requires
        sum_bytes(cs@) <= usize::MAX,
        sum_chars(cs@) <= usize::MAX,
    ensures
        r.bytes as int == sum_bytes(cs@),
        r.chars as int == sum_chars(cs@),
{
    let mut b: usize = 0;
    let mut c: usize = 0;
    let mut i: usize = 0;
    while i < cs.len()
        invariant
            0 <= i <= cs@.len(),
            sum_bytes(cs@) <= usize::MAX,
            sum_chars(cs@) <= usize::MAX,
            b as int == prefix_bytes(cs@, i as int),
            c as int == prefix_chars(cs@, i as int),
        decreases cs@.len() - i,
    {
        proof {
            assert(prefix_bytes(cs@, i + 1) == prefix_bytes(cs@, i as int) + cs@[i as int].bytes);
            assert(prefix_chars(cs@, i + 1) == prefix_chars(cs@, i as int) + cs@[i as int].chars);
            lemma_prefix_monotone(cs@, i + 1, cs@.len() as int);
        }
        b = b + cs[i].bytes;
        c = c + cs[i].chars;
        i = i + 1;
    }
    Metrics { bytes: b, chars: c }
}

/// Appending a node to a run appends its chunks to the run's chunks.
pub proof fn lemma_seq_chunks_push(ns: Seq<Node>, x: Node)
    ensures
        seq_chunks(ns.push(x)) == seq_chunks(ns) + chunks_of(x),
{
    assert(ns.push(x) =~= ns + seq![x]);
    lemma_seq_chunks_concat(ns, seq![x]);
    lemma_seq_chunks_singleton(x);
}

/// Each member of a sibling run accounts for a non-negative share of the
/// run's chunk totals, never more than the whole.
pub proof fn lemma_layer_member_sums(ns: Seq<Node>, i: int)
    requires
        0 <= i < ns.len(),
    ensures
        0 <= bytes_of(ns[i]) <= sum_bytes(seq_chunks(ns)),
        0 <= chars_of(ns[i]) <= sum_chars(seq_chunks(ns)),
        0 <= sum_bytes(seq_chunks(ns)),
        0 <= sum_chars(seq_chunks(ns)),
    decreases ns.len(),
{
    lemma_seq_chunks_decompose(ns, i);
    let pre = seq_chunks(ns.subrange(0, i));
    let sub = chunks_of(ns[i]);
    let post = seq_chunks(ns.subrange(i + 1, ns.len() as int));
    lemma_sum_concat(pre + sub, post);
    lemma_sum_concat(pre, sub);
    lemma_prefix_monotone(pre, 0, pre.len() as int);
    lemma_prefix_monotone(sub, 0, sub.len() as int);
    lemma_prefix_monotone(post, 0, post.len() as int);
}

/// Whether every leaf of the subtree under `n` sits exactly `d` levels
/// below `n`.
pub open spec fn leaves_at_depth(n: Node, d: int) -> bool
    decreases n,
{
    match n {
        Node::Leaf { .. } => d == 0,
        Node::Internal { children, .. } => forall|i: int|
            0 <= i < children@.len() ==> leaves_at_depth(#[trigger] children@[i], d - 1),
    }
}

/// Uniform depth: in a well-formed tree, every leaf sits at the same
/// depth below the root, namely the tree's height.
pub proof fn lemma_uniform_depth(n: Node)
    requires
        tree_ok(n),
    ensures
        leaves_at_depth(n, height(n) as int),
    decreases n,
{
    match n {
        Node::Leaf { .. } => {},
        Node::Internal { metrics, children } => {
            assert forall|i: int| 0 <= i < children@.len() implies leaves_at_depth(
                #[trigger] children@[i],
                height(n) as int - 1,
            ) by {
                lemma_uniform_depth(children@[i]);
            }
        },
    }
}

/// Searching at exactly the total byte count resolves to the last chunk,
/// provided that chunk covers at least one byte.
pub proof fn lemma_search_total_is_last(cs: Seq<Metrics>)
    requires
        cs.len() > 0,
        cs.last().bytes > 0,
    ensures
        target_index(cs, sum_bytes(cs)) == cs.len() - 1,
{
    let n = cs.len() as int;
    assert(prefix_bytes(cs, n) == prefix_bytes(cs, n - 1) + cs[n - 1].bytes);
    assert forall|j: int| 0 <= j < n - 1 implies sum_bytes(cs) > #[trigger] prefix_bytes(
        cs,
        j + 1,
    ) by {
        lemma_prefix_monotone(cs, j + 1, n - 1);
    }
    lemma_prefix_monotone(cs, 0, n);
    lemma_target_index_unique(cs, sum_bytes(cs), n - 1);
}

/// The chunk summaries after recording that `v` more bytes and characters
/// now sit at running offset `k`: the covering chunk grows by `v` in place,
/// every other chunk stays as it was.
pub open spec fn grown_chunks(cs: Seq<Metrics>, k: int, v: Metrics) -> Seq<Metrics> {
    let t = target_index(cs, k);
    cs.update(
        t,
        Metrics {
            bytes: (cs[t].bytes + v.bytes) as usize,
            chars: (cs[t].chars + v.chars) as usize,
        },
    )
}

impl Node {
    /// A leaf holding a single chunk summary.
    pub fn new_leaf(metric: Metrics) -> (r: Node)
        ensures
            chunks_of(r) == seq![metric],
            tree_ok(r),
            balanced(r),
            height(r) == 0,
    {
        let mut data: Vec<Metrics> = Vec::new();
        data.push(metric);
        proof {
            assert(data@ =~= seq![metric]);
        }
        Node::Leaf { data }
    }

    /// The exact metric total of this subtree, computed by folding the
    /// node's own summaries (cached per child at an internal node, per
    /// chunk at a leaf).
    pub fn metrics(&self) -> (r: Metrics)
        requires
            tree_ok(*self),
            bytes_of(*self) <= usize::MAX,
            chars_of(*self) <= usize::MAX,
        ensures
            r.bytes as int == bytes_of(*self),
            r.chars as int == chars_of(*self),
    {
        match self {
            Node::Leaf { data } => fold_summaries(data),
            Node::Internal { metrics, children } => {
                proof {
                    lemma_cache_prefix(metrics@, children@, children@.len() as int);
                    assert(children@.subrange(0, children@.len() as int) =~= children@);
                }
                fold_summaries(metrics)
            },
        }
    }

    /// Route running offset `k` down to the leaf chunk that covers it: the
    /// summary of that chunk and the residual offset within it. Offsets on
    /// a chunk's upper edge resolve to that chunk, not the next.
    pub fn leaf_search(&self, k: usize) -> (r: (Metrics, usize))
        requires
            tree_ok(*self),
            k as int <= bytes_of(*self),
        ensures
            ({
                let cs = chunks_of(*self);
                let t = target_index(cs, k as int);
                &&& r.0 == cs[t]
                &&& r.1 as int == k - prefix_bytes(cs, t)
                &&& r.1 <= r.0.bytes
            }),
        decreases *self,
    {
        match self {
            Node::Leaf { data } => {
                let (i, rem) = scan_summaries(data, k);
                (data[i], rem)
            },
            Node::Internal { metrics, children } => {
                proof {
                    lemma_cache_prefix(metrics@, children@, children@.len() as int);
                    assert(children@.subrange(0, children@.len() as int) =~= children@);
                }
                let (c, rem) = scan_summaries(metrics, k);
                proof {
                    lemma_route(metrics@, children@, k as int);
                }
                children[c].leaf_search(rem)
            },
        }
    }

    /// Record that `v` more bytes and characters now sit at running offset
    /// `k`: grow the covering chunk in place, split any node that this
    /// leaves over capacity at its midpoint, and hand the new right-hand
    /// sibling (if any) back to the caller to link in.
    #[verifier::rlimit(100)]
    pub fn insert(self, k: usize, v: Metrics) -> (r: (Node, Option<Node>))
        requires
            tree_ok(self),
            k as int <= bytes_of(self),
            bytes_of(self) + v.bytes <= usize::MAX,
            chars_of(self) + v.chars <= usize::MAX,
        ensures
            tree_ok(r.0),
            height(r.0) == height(self),
            r.1 is Some ==> tree_ok(r.1.unwrap()) && height(r.1.unwrap()) == height(self),
            ({
                let grown = grown_chunks(chunks_of(self), k as int, v);
                match r.1 {
                    None => chunks_of(r.0) == grown,
                    Some(s) => chunks_of(r.0) + chunks_of(s) == grown,
                }
            }),
            balanced(self) ==> r.1 is None && balanced(r.0),
        decreases self,
    {
        match self {
            Node::Leaf { mut data } => {
                let ghost d0 = data@;
                let (i, rem) = scan_summaries(&data, k);
                proof {
                    assert(prefix_bytes(d0, i + 1) == prefix_bytes(d0, i as int)
                        + d0[i as int].bytes);
                    assert(prefix_chars(d0, i + 1) == prefix_chars(d0, i as int)
                        + d0[i as int].chars);
                    lemma_prefix_monotone(d0, 0, i as int);
                    lemma_prefix_monotone(d0, i + 1, d0.len() as int);
                }
                let old_m = data[i];
                let new_m = old_m.combine(v);
                data.set(i, new_m);
                proof {
                    assert(data@ == grown_chunks(d0, k as int, v));
                }
                if data.len() > MAX_CHUNKS {
                    let n = data.len();
                    let mid = n / 2 + n % 2;
                    let right = data.split_off(mid);
                    proof {
                        assert(data@ + right@ =~= grown_chunks(d0, k as int, v));
                    }
                    (Node::Leaf { data }, Some(Node::Leaf { data: right }))
                } else {
                    (Node::Leaf { data }, None)
                }
            },
            Node::Internal { mut metrics, mut children } => {
                let ghost m0 = metrics@;
                let ghost c0 = children@;
                let ghost n0 = c0.len() as int;
                let ghost cs = seq_chunks(c0);
                proof {
                    lemma_cache_prefix(m0, c0, n0);
                    assert(c0.subrange(0, n0) =~= c0);
                }
                let (c, rem) = scan_summaries(&metrics, k);
                let ghost pre = seq_chunks(c0.subrange(0, c as int));
                let ghost sub = chunks_of(c0[c as int]);
                let ghost post = seq_chunks(c0.subrange(c as int + 1, n0));
                let ghost tl = target_index(sub, rem as int);
                let ghost tg = target_index(cs, k as int);
                let ghost comb = Metrics {
                    bytes: (sub[tl].bytes + v.bytes) as usize,
                    chars: (sub[tl].chars + v.chars) as usize,
                };
                proof {
                    lemma_route(m0, c0, k as int);
                    lemma_seq_chunks_decompose(c0, c as int);
                    lemma_sum_concat(pre + sub, post);
                    lemma_sum_concat(pre, sub);
                    lemma_prefix_monotone(pre, 0, pre.len() as int);
                    lemma_prefix_monotone(post, 0, post.len() as int);
                    lemma_prefix_monotone(sub, 0, sub.len() as int);
                    assert(bytes_of(c0[c as int]) + v.bytes <= usize::MAX);
                    assert(chars_of(c0[c as int]) + v.chars <= usize::MAX);
                }
                let child = children.remove(c);
                let (child2, sib) = child.insert(rem, v);
                let ghost grown_sub = grown_chunks(sub, rem as int, v);
                proof {
                    lemma_chunks_nonempty(c0[c as int]);
                    lemma_target_index_props(sub, rem as int);
                    assert(prefix_bytes(sub, tl + 1) == prefix_bytes(sub, tl) + sub[tl].bytes);
                    assert(prefix_chars(sub, tl + 1) == prefix_chars(sub, tl) + sub[tl].chars);
                    lemma_prefix_monotone(sub, 0, tl);
                    lemma_prefix_monotone(sub, tl + 1, sub.len() as int);
                    lemma_sum_update(sub, tl, comb, sub.len() as int);
                    assert(sum_bytes(grown_sub) == sum_bytes(sub) + v.bytes);
                    assert(sum_chars(grown_sub) == sum_chars(sub) + v.chars);
                    match &sib {
                        None => {},
                        Some(s) => {
                            lemma_sum_concat(chunks_of(child2), chunks_of(*s));
                            lemma_prefix_monotone(chunks_of(*s), 0, chunks_of(*s).len() as int);
                            lemma_prefix_monotone(
                                chunks_of(child2),
                                0,
                                chunks_of(child2).len() as int,
                            );
                        },
                    }
                }
                let m2 = child2.metrics();
                children.insert(c, child2);
                metrics.set(c, m2);
                let ghost h0 = height(c0[0]);
                match sib {
                    None => {
                        proof {
                            assert(children@ =~= c0.update(c as int, child2));
                            lemma_seq_chunks_decompose(children@, c as int);
                            assert(children@.subrange(0, c as int) =~= c0.subrange(0, c as int));
                            assert(children@.subrange(c as int + 1, n0) =~= c0.subrange(
                                c as int + 1,
                                n0,
                            ));
                            assert(chunks_of(Node::Internal { metrics, children }) == pre
                                + grown_sub + post);
                            assert(cs.update(tg, comb) =~= pre + grown_sub + post);
                            assert(comb == (Metrics {
                                bytes: (cs[tg].bytes + v.bytes) as usize,
                                chars: (cs[tg].chars + v.chars) as usize,
                            }));
                            assert forall|j: int| 0 <= j < children@.len() implies tree_ok(
                                #[trigger] children@[j],
                            ) && height(children@[j]) == height(children@[0]) && (metrics@[j]).bytes
                                == bytes_of(children@[j]) && (metrics@[j]).chars == chars_of(
                                children@[j],
                            ) by {
                                assert(c0[0] == children@[0] || c as int == 0);
                                assert(height(children@[0]) == h0);
                            }
                            assert(tree_ok(Node::Internal { metrics, children }));
                            assert(height(Node::Internal { metrics, children }) == height(self));
                        }
                        (Node::Internal { metrics, children }, None)
                    },
                    Some(s) => {
                        let ms = s.metrics();
                        let ghost schunks = chunks_of(s);
                        let ghost sheight = height(s);
                        let ghost c1 = children@;
                        let cl = children.len();
                        proof {
                            assert(c1.len() == n0);
                            assert((c as int) < (cl as int));
                        }
                        children.insert(c + 1, s);
                        metrics.insert(c + 1, ms);
                        proof {
                            assert(c1 =~= c0.update(c as int, child2));
                            assert(children@ =~= c1.insert(c as int + 1, s));
                            lemma_seq_chunks_decompose(children@, c as int + 1);
                            assert(children@.subrange(0, c as int + 1) =~= c0.subrange(
                                0,
                                c as int,
                            ) + seq![child2]);
                            assert(children@.subrange(c as int + 2, n0 + 1) =~= c0.subrange(
                                c as int + 1,
                                n0,
                            ));
                            lemma_seq_chunks_concat(c0.subrange(0, c as int), seq![child2]);
                            lemma_seq_chunks_singleton(child2);
                            assert(seq_chunks(children@) =~= pre + chunks_of(child2) + schunks
                                + post);
                            assert(chunks_of(child2) + schunks == grown_sub);
                            assert(seq_chunks(children@) =~= pre + grown_sub + post);
                            assert(cs.update(tg, comb) =~= pre + grown_sub + post);
                            assert(comb == (Metrics {
                                bytes: (cs[tg].bytes + v.bytes) as usize,
                                chars: (cs[tg].chars + v.chars) as usize,
                            }));
                            assert forall|j: int| 0 <= j < children@.len() implies tree_ok(
                                #[trigger] children@[j],
                            ) && height(children@[j]) == height(children@[0]) && (metrics@[j]).bytes
                                == bytes_of(children@[j]) && (metrics@[j]).chars == chars_of(
                                children@[j],
                            ) by {
                                assert(height(children@[0]) == h0);
                            }
                        }
                        if children.len() > MAX_CHILDREN {
                            let n = children.len();
                            let mid = n / 2 + n % 2;
                            let right_children = children.split_off(mid);
                            let right_metrics = metrics.split_off(mid);
                            proof {
                                let ghost call = children@ + right_children@;
                                assert(call =~= c1.insert(c as int + 1, s));
                                lemma_seq_chunks_concat(children@, right_children@);
                                let left = Node::Internal { metrics, children };
                                let rightn = Node::Internal {
                                    metrics: right_metrics,
                                    children: right_children,
                                };
                                assert(chunks_of(left) + chunks_of(rightn) == seq_chunks(call));
                                assert(seq_chunks(call) == cs.update(tg, comb));
                                assert(tree_ok(left));
                                assert(tree_ok(rightn));
                                assert(height(left) == height(self));
                                assert(height(rightn) == 1 + height(call[mid as int]));
                                assert(height(rightn) == height(self));
                            }
                            (
                                Node::Internal { metrics, children },
                                Some(
                                    Node::Internal {
                                        metrics: right_metrics,
                                        children: right_children,
                                    },
                                ),
                            )
                        } else {
                            proof {
                                assert(tree_ok(Node::Internal { metrics, children }));
                                assert(height(Node::Internal { metrics, children }) == height(
                                    self,
                                ));
                            }
                            (Node::Internal { metrics, children }, None)
                        }
                    },
                }
            },
        }
    }
}

} // verus!
