//! The tree that owns the root node: bulk construction from a buffer with
//! an optional gap region, offset search, insertion, and totals.

use vstd::prelude::*;

use crate::chunking::{char_count_range, chunk_region, lemma_char_count_bounds,
    lemma_region_chunks_sums, region_chunks};
use crate::metrics::{lemma_prefix_monotone, lemma_sum_concat, lemma_sum_update,
    lemma_target_index_props, prefix_bytes, sum_bytes, sum_chars, target_index, Metrics};
use crate::node::{balanced, bytes_of, chars_of, chunks_of, grown_chunks, height,
    lemma_chunks_nonempty, lemma_layer_member_sums, lemma_seq_chunks_concat,
    lemma_seq_chunks_push, lemma_seq_chunks_singleton, seq_chunks, tree_ok, Node, MAX_CHILDREN,
    MAX_CHUNKS};

verus! {

/// Why an operation was refused. Every error is reported before any
/// mutation, so a failed call leaves the tree exactly as it was.
#[derive(Debug, Clone, Copy, PartialEq, Eq, Structural)]
pub enum RopeError {
    /// An offset outside `[0, total_bytes]`.
    OutOfRange,
    /// A gap range that is inverted or runs past the buffer.
    InvalidArgument,
    /// A metric counter cannot represent the result of the operation.
    Overflow,
}

/// The balanced index tree over the chunks of an externally owned buffer.
pub struct Rope {
    pub root: Node,
}

/// The chunk summaries that a bulk build of `buffer` with the gap
/// `[gap_start, gap_end)` indexes: the chunked region before the gap, one
/// chunk for the gap itself (its bytes reserved, no characters yet), then
/// the chunked region after the gap.
pub open spec fn build_chunks(buffer: Seq<u8>, gap_start: int, gap_end: int) -> Seq<Metrics> {
    region_chunks(buffer, 0, gap_start) + seq![
        (Metrics { bytes: (gap_end - gap_start) as usize, chars: 0 }),
    ] + region_chunks(buffer, gap_end, buffer.len() as int)
}

/// Move up to `MAX_CHILDREN` nodes from the front of `from` into `vec`.
fn fill_vec(vec: &mut Vec<Node>, from: &mut Vec<Node>)
    requires
        old(vec)@.len() == 0,
    ensures
        ({
            let took = if old(from)@.len() < MAX_CHILDREN {
                old(from)@.len() as int
            } else {
                MAX_CHILDREN as int
            };
            &&& final(vec)@ == old(from)@.subrange(0, took)
            &&& final(from)@ == old(from)@.subrange(took, old(from)@.len() as int)
        }),
{
    proof {
        assert(old(from)@.subrange(0, old(from)@.len() as int) =~= old(from)@);
        assert(old(from)@.subrange(0, 0) =~= vec@);
    }
    while vec.len() < MAX_CHILDREN && from.len() > 0
        invariant
            vec@.len() <= MAX_CHILDREN,
            vec@.len() + from@.len() == old(from)@.len(),
            vec@ == old(from)@.subrange(0, vec@.len() as int),
            from@ == old(from)@.subrange(vec@.len() as int, old(from)@.len() as int),
        decreases from@.len(),
    {
        let ghost taken = vec@.len() as int;
        let n = from.remove(0);
        vec.push(n);
        proof {
            assert(n == old(from)@[taken]);
            assert(vec@ =~= old(from)@.subrange(0, taken + 1));
            assert(from@ =~= old(from)@.subrange(taken + 1, old(from)@.len() as int));
        }
    }
}

/// Group one layer's nodes, in order, into parent internal nodes of at most
/// `MAX_CHILDREN` children each, caching each parent's per-child summary.
/// Empties `from`; the parents land in `to`.
fn fill_rope_layer(to: &mut Vec<Node>, from: &mut Vec<Node>)
    requires
        old(to)@.len() == 0,
        old(from)@.len() >= 1,
        forall|i: int|
            0 <= i < old(from)@.len() ==> tree_ok(#[trigger] old(from)@[i]) && balanced(
                old(from)@[i],
            ) && height(old(from)@[i]) == height(old(from)@[0]),
        sum_bytes(seq_chunks(old(from)@)) <= usize::MAX,
        sum_chars(seq_chunks(old(from)@)) <= usize::MAX,
    ensures
        final(from)@.len() == 0,
        1 <= final(to)@.len() <= old(from)@.len(),
        old(from)@.len() >= 2 ==> final(to)@.len() < old(from)@.len(),
        seq_chunks(final(to)@) == seq_chunks(old(from)@),
        forall|i: int|
            0 <= i < final(to)@.len() ==> tree_ok(#[trigger] final(to)@[i]) && balanced(
                final(to)@[i],
            ) && height(final(to)@[i]) == height(old(from)@[0]) + 1,
{
    let ghost whole = old(from)@;
    let ghost h0 = height(old(from)@[0]);
    proof {
        assert(seq_chunks(Seq::<Node>::empty()) =~= Seq::<Metrics>::empty());
        assert(seq_chunks(to@) + seq_chunks(from@) =~= seq_chunks(whole));
    }
    while from.len() > 0
        invariant
            seq_chunks(to@) + seq_chunks(from@) == seq_chunks(whole),
            to@.len() + from@.len() <= whole.len(),
            from@.len() < whole.len() ==> to@.len() >= 1,
            whole.len() >= 2 ==> to@.len() == 0 || to@.len() + 1 <= whole.len() - from@.len(),
            sum_bytes(seq_chunks(whole)) <= usize::MAX,
            sum_chars(seq_chunks(whole)) <= usize::MAX,
            forall|i: int|
                0 <= i < from@.len() ==> tree_ok(#[trigger] from@[i]) && balanced(from@[i])
                    && height(from@[i]) == h0,
            forall|i: int|
                0 <= i < to@.len() ==> tree_ok(#[trigger] to@[i]) && balanced(to@[i]) && height(
                    to@[i],
                ) == h0 + 1,
        decreases from@.len(),
    {
        let ghost from_before = from@;
        let ghost to_before = to@;
        let mut children: Vec<Node> = Vec::new();
        fill_vec(&mut children, from);
        proof {
            assert(from_before =~= children@ + from@);
            lemma_seq_chunks_concat(children@, from@);
            lemma_sum_concat(seq_chunks(to_before), seq_chunks(from_before));
            lemma_sum_concat(seq_chunks(children@), seq_chunks(from@));
            lemma_prefix_monotone(seq_chunks(to_before), 0, seq_chunks(to_before).len() as int);
            lemma_prefix_monotone(seq_chunks(from@), 0, seq_chunks(from@).len() as int);
            lemma_prefix_monotone(
                seq_chunks(children@),
                0,
                seq_chunks(children@).len() as int,
            );
        }
        let mut metrics: Vec<Metrics> = Vec::new();
        let mut i: usize = 0;
        while i < children.len()
            invariant
                i as int <= children@.len(),
                metrics@.len() == i as int,
                sum_bytes(seq_chunks(children@)) <= usize::MAX,
                sum_chars(seq_chunks(children@)) <= usize::MAX,
                forall|j: int|
                    0 <= j < children@.len() ==> tree_ok(#[trigger] children@[j]) && balanced(
                        children@[j],
                    ) && height(children@[j]) == h0,
                forall|j: int|
                    0 <= j < i as int ==> (#[trigger] metrics@[j]).bytes == bytes_of(children@[j])
                        && metrics@[j].chars == chars_of(children@[j]),
            decreases children@.len() - i,
        {
            proof {
                lemma_layer_member_sums(children@, i as int);
            }
            let m = children[i].metrics();
            metrics.push(m);
            i = i + 1;
        }
        let node = Node::Internal { metrics, children };
        proof {
            assert(tree_ok(node));
            assert(balanced(node));
            assert(height(node) == h0 + 1);
            lemma_seq_chunks_push(to_before, node);
        }
        to.push(node);
        proof {
            assert(seq_chunks(to@) + seq_chunks(from@) =~= seq_chunks(whole));
        }
    }
    proof {
        assert(seq_chunks(from@) =~= Seq::<Metrics>::empty());
        assert(seq_chunks(to@) =~= seq_chunks(whole));
    }
}

/// Pack a run of chunk summaries, in order, into leaves of at most
/// `MAX_CHUNKS` chunks each, appended to `out`.
fn pack_leaves(chunks: Vec<Metrics>, out: &mut Vec<Node>)
    ensures
        final(out)@.len() >= old(out)@.len(),
        forall|i: int| 0 <= i < old(out)@.len() ==> final(out)@[i] == old(out)@[i],
        forall|i: int|
            old(out)@.len() <= i < final(out)@.len() ==> tree_ok(#[trigger] final(out)@[i])
                && balanced(final(out)@[i]) && height(final(out)@[i]) == 0,
        seq_chunks(final(out)@) == seq_chunks(old(out)@) + chunks@,
{
    let mut i: usize = 0;
    proof {
        assert(seq_chunks(out@) + chunks@.subrange(0, 0) =~= seq_chunks(out@));
    }
    while i < chunks.len()
        invariant
            i as int <= chunks@.len(),
            out@.len() >= old(out)@.len(),
            forall|j: int| 0 <= j < old(out)@.len() ==> out@[j] == old(out)@[j],
            forall|j: int|
                old(out)@.len() <= j < out@.len() ==> tree_ok(#[trigger] out@[j]) && balanced(
                    out@[j],
                ) && height(out@[j]) == 0,
            seq_chunks(out@) == seq_chunks(old(out)@) + chunks@.subrange(0, i as int),
        decreases chunks@.len() - i,
    {
        let ghost start = i as int;
        let ghost out_before = out@;
        let mut data: Vec<Metrics> = Vec::new();
        proof {
            assert(data@ =~= chunks@.subrange(start, start));
        }
        let mut j: usize = 0;
        while j < MAX_CHUNKS && i < chunks.len()
            invariant
                0 <= start <= i as int <= chunks@.len(),
                j as int == i as int - start,
                j <= MAX_CHUNKS,
                data@ == chunks@.subrange(start, i as int),
            decreases chunks@.len() - i,
        {
            let m = chunks[i];
            data.push(m);
            proof {
                assert(data@ =~= chunks@.subrange(start, i as int + 1));
            }
            i = i + 1;
            j = j + 1;
        }
        let leaf = Node::Leaf { data };
        proof {
            assert(chunks_of(leaf) == chunks@.subrange(start, i as int));
            lemma_seq_chunks_push(out_before, leaf);
            assert(seq_chunks(out_before) + chunks@.subrange(start, i as int) + Seq::<
                Metrics,
            >::empty() =~= seq_chunks(out_before) + chunks@.subrange(start, i as int));
            assert(seq_chunks(old(out)@) + chunks@.subrange(0, start) + chunks@.subrange(
                start,
                i as int,
            ) =~= seq_chunks(old(out)@) + chunks@.subrange(0, i as int));
        }
        out.push(leaf);
    }
    proof {
        assert(chunks@.subrange(0, chunks@.len() as int) =~= chunks@);
    }
}

/// Rebuild the root after an insertion: if the old root split, its two
/// halves become the children of a new internal root — the only way the
/// tree ever gains height, which keeps every leaf at one depth.
pub fn root_with_sibling(node: Node, sibling: Option<Node>) -> (r: Node)
    requires
        tree_ok(node),
        bytes_of(node) <= usize::MAX,
        chars_of(node) <= usize::MAX,
        sibling matches Some(s) ==> tree_ok(s) && height(s) == height(node) && bytes_of(s)
            <= usize::MAX && chars_of(s) <= usize::MAX,
    ensures
        tree_ok(r),
        chunks_of(r) == chunks_of(node) + (match sibling {
            None => Seq::<Metrics>::empty(),
            Some(s) => chunks_of(s),
        }),
        sibling is None ==> r == node,
        sibling matches Some(s) ==> height(r) == height(node) + 1 && (balanced(node) && balanced(
            s,
        ) ==> balanced(r)),
{
    match sibling {
        None => {
            proof {
                assert(chunks_of(node) + Seq::<Metrics>::empty() =~= chunks_of(node));
            }
            node
        },
        Some(s) => {
            let m0 = node.metrics();
            let m1 = s.metrics();
            let mut metrics: Vec<Metrics> = Vec::new();
            metrics.push(m0);
            metrics.push(m1);
            let mut children: Vec<Node> = Vec::new();
            children.push(node);
            children.push(s);
            let root = Node::Internal { metrics, children };
            proof {
                assert(children@ =~= seq![node, s]);
                assert(seq_chunks(children@) == chunks_of(node) + seq_chunks(
                    children@.subrange(1, 2),
                ));
                assert(children@.subrange(1, 2) =~= seq![s]);
                lemma_seq_chunks_singleton(s);
                assert(tree_ok(root));
            }
            root
        },
    }
}

impl Rope {
    /// What every public operation preserves: the tree is structurally
    /// well-formed (exact cached summaries, uniform leaf depth, no empty
    /// node), every node is within capacity, and the running totals fit
    /// the metric counters.
    pub open spec fn wf(self) -> bool {
        &&& tree_ok(self.root)
        &&& balanced(self.root)
        &&& bytes_of(self.root) <= usize::MAX
        &&& chars_of(self.root) <= usize::MAX
    }

    /// The chunk summaries the tree indexes, left to right.
    pub open spec fn chunks(self) -> Seq<Metrics> {
        chunks_of(self.root)
    }

    /// Bulk construction: index `buffer`, treating `[gap_start, gap_end)`
    /// as reserved capacity that holds no characters yet. The regions
    /// around the gap are cut into character-aligned chunks, packed into
    /// leaves, and assembled bottom-up into a balanced tree.
    pub fn build(buffer: &[u8], gap_start: usize, gap_end: usize) -> (r: Result<Rope, RopeError>)
        ensures
            r is Ok <==> gap_start <= gap_end <= buffer@.len(),
            r is Err ==> r == Err::<Rope, RopeError>(RopeError::InvalidArgument),
            r is Ok ==> ({
                let rope = r.unwrap();
                &&& rope.wf()
                &&& rope.chunks() == build_chunks(buffer@, gap_start as int, gap_end as int)
                &&& sum_bytes(rope.chunks()) == buffer@.len()
                &&& sum_chars(rope.chunks()) == char_count_range(buffer@, 0, gap_start as int)
                    + char_count_range(buffer@, gap_end as int, buffer@.len() as int)
            }),
    {
        if gap_start > gap_end || gap_end > buffer.len() {
            return Err(RopeError::InvalidArgument);
        }
        let ghost target = build_chunks(buffer@, gap_start as int, gap_end as int);
        let pre = chunk_region(buffer, 0, gap_start);
        let post = chunk_region(buffer, gap_end, buffer.len());
        let mut nodes: Vec<Node> = Vec::new();
        pack_leaves(pre, &mut nodes);
        let gap_leaf = Node::new_leaf(Metrics::new(gap_end - gap_start, 0));
        proof {
            lemma_seq_chunks_push(nodes@, gap_leaf);
        }
        nodes.push(gap_leaf);
        pack_leaves(post, &mut nodes);
        proof {
            assert(seq_chunks(Seq::<Node>::empty()) =~= Seq::<Metrics>::empty());
            assert(seq_chunks(nodes@) =~= target);
            lemma_region_chunks_sums(buffer@, 0, gap_start as int);
            lemma_region_chunks_sums(buffer@, gap_end as int, buffer@.len() as int);
            lemma_char_count_bounds(buffer@, 0, gap_start as int);
            lemma_char_count_bounds(buffer@, gap_end as int, buffer@.len() as int);
            lemma_sum_concat(
                region_chunks(buffer@, 0, gap_start as int) + seq![
                    (Metrics { bytes: (gap_end - gap_start) as usize, chars: 0 }),
                ],
                region_chunks(buffer@, gap_end as int, buffer@.len() as int),
            );
            lemma_sum_concat(
                region_chunks(buffer@, 0, gap_start as int),
                seq![(Metrics { bytes: (gap_end - gap_start) as usize, chars: 0 })],
            );
            lemma_seq_chunks_singleton(gap_leaf);
            assert(sum_bytes(seq![(Metrics { bytes: (gap_end - gap_start) as usize, chars: 0 })])
                == gap_end - gap_start && sum_chars(
                seq![(Metrics { bytes: (gap_end - gap_start) as usize, chars: 0 })],
            ) == 0) by {
                let g = seq![(Metrics { bytes: (gap_end - gap_start) as usize, chars: 0 })];
                assert(prefix_bytes(g, 1) == prefix_bytes(g, 0) + g[0].bytes);
                assert(crate::metrics::prefix_chars(g, 1) == crate::metrics::prefix_chars(g, 0)
                    + g[0].chars);
            }
            assert(sum_bytes(target) == buffer@.len());
            assert(sum_chars(target) == char_count_range(buffer@, 0, gap_start as int)
                + char_count_range(buffer@, gap_end as int, buffer@.len() as int));
        }
        let mut output: Vec<Node> = Vec::new();
        while nodes.len() > 1
            invariant
                nodes@.len() >= 1,
                output@.len() == 0,
                seq_chunks(nodes@) == target,
                sum_bytes(target) <= usize::MAX,
                sum_chars(target) <= usize::MAX,
                forall|i: int|
                    0 <= i < nodes@.len() ==> tree_ok(#[trigger] nodes@[i]) && balanced(nodes@[i])
                        && height(nodes@[i]) == height(nodes@[0]),
            decreases nodes@.len(),
        {
            fill_rope_layer(&mut output, &mut nodes);
            core::mem::swap(&mut output, &mut nodes);
        }
        let ghost layer = nodes@;
        let root = match nodes.pop() {
            Some(n) => n,
            None => {
                proof {
                    assert(false);
                }
                Node::new_leaf(Metrics::new(0, 0))
            },
        };
        proof {
            assert(layer =~= seq![root]);
            assert(seq_chunks(seq![root]) == target);
            lemma_seq_chunks_singleton(root);
            lemma_layer_member_sums(seq![root], 0);
        }
        Ok(Rope { root })
    }

    /// The tree's aggregate metric: the exact component-wise total over
    /// every chunk it indexes. Never fails.
    pub fn total(&self) -> (r: Metrics)
        requires
            self.wf(),
        ensures
            r.bytes as int == sum_bytes(self.chunks()),
            r.chars as int == sum_chars(self.chunks()),
    {
        self.root.metrics()
    }

    /// Map a global byte offset to the chunk that covers it: the chunk's
    /// summary and the residual offset within the chunk. Offsets on a
    /// chunk's upper edge resolve to that chunk, so `total_bytes` itself
    /// addresses the position after the last byte and is accepted.
    pub fn search(&self, offset: usize) -> (r: Result<(Metrics, usize), RopeError>)
        requires
            self.wf(),
        ensures
            r is Ok <==> offset as int <= sum_bytes(self.chunks()),
            r is Err ==> r == Err::<(Metrics, usize), RopeError>(RopeError::OutOfRange),
            r is Ok ==> ({
                let cs = self.chunks();
                let t = target_index(cs, offset as int);
                &&& r.unwrap().0 == cs[t]
                &&& r.unwrap().1 as int == offset - prefix_bytes(cs, t)
                &&& r.unwrap().1 <= r.unwrap().0.bytes
            }),
    {
        let tot = self.root.metrics();
        if offset > tot.bytes {
            return Err(RopeError::OutOfRange);
        }
        Ok(self.root.leaf_search(offset))
    }

    /// Record that `delta` more bytes and characters were written at
    /// `offset`: the chunk covering `offset` grows by `delta` in place and
    /// every cached summary on the path is refreshed, so the total grows
    /// by exactly `delta`. Fails without touching the tree when the offset
    /// is out of range or a counter would overflow.
    pub fn insert(&mut self, offset: usize, delta: Metrics) -> (r: Result<(), RopeError>)
        requires
            old(self).wf(),
        ensures
            final(self).wf(),
            r is Ok <==> (offset as int <= sum_bytes(old(self).chunks()) && sum_bytes(
                old(self).chunks(),
            ) + delta.bytes <= usize::MAX && sum_chars(old(self).chunks()) + delta.chars
                <= usize::MAX),
            r is Err ==> *final(self) == *old(self),
            r is Err ==> (if offset as int > sum_bytes(old(self).chunks()) {
                r == Err::<(), RopeError>(RopeError::OutOfRange)
            } else {
                r == Err::<(), RopeError>(RopeError::Overflow)
            }),
            r is Ok ==> final(self).chunks() == grown_chunks(
                old(self).chunks(),
                offset as int,
                delta,
            ),
            r is Ok ==> sum_bytes(final(self).chunks()) == sum_bytes(old(self).chunks())
                + delta.bytes,
            r is Ok ==> sum_chars(final(self).chunks()) == sum_chars(old(self).chunks())
                + delta.chars,
    {
        let tot = self.root.metrics();
        if offset > tot.bytes {
            return Err(RopeError::OutOfRange);
        }
        if delta.bytes > usize::MAX - tot.bytes || delta.chars > usize::MAX - tot.chars {
            return Err(RopeError::Overflow);
        }
        let ghost cs = chunks_of(self.root);
        let mut root = Node::new_leaf(Metrics::new(0, 0));
        core::mem::swap(&mut root, &mut self.root);
        let (node, sibling) = root.insert(offset, delta);
        proof {
            lemma_chunks_nonempty(root);
            lemma_target_index_props(cs, offset as int);
            let t = target_index(cs, offset as int);
            assert(prefix_bytes(cs, t + 1) == prefix_bytes(cs, t) + cs[t].bytes);
            assert(crate::metrics::prefix_chars(cs, t + 1) == crate::metrics::prefix_chars(cs, t)
                + cs[t].chars);
            lemma_prefix_monotone(cs, 0, t);
            lemma_prefix_monotone(cs, t + 1, cs.len() as int);
            let grown = grown_chunks(cs, offset as int, delta);
            lemma_sum_update(
                cs,
                t,
                Metrics {
                    bytes: (cs[t].bytes + delta.bytes) as usize,
                    chars: (cs[t].chars + delta.chars) as usize,
                },
                cs.len() as int,
            );
            assert(sum_bytes(grown) == sum_bytes(cs) + delta.bytes);
            assert(sum_chars(grown) == sum_chars(cs) + delta.chars);
        }
        let new_root = root_with_sibling(node, sibling);
        self.root = new_root;
        Ok(())
    }
}

} // verus!
