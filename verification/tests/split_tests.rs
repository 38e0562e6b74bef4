//! Exercises the node-level split machinery directly: a node over capacity
//! splits at its midpoint and reports the new right-hand sibling, and a
//! root split grows the tree by exactly one level.

use rope_index::metrics::Metrics;
use rope_index::node::Node;
use rope_index::rope::{root_with_sibling, Rope};

fn unit_chunks(n: usize) -> Vec<Metrics> {
    std::iter::repeat(Metrics::new(1, 1)).take(n).collect()
}

#[test]
fn leaf_within_capacity_does_not_split() {
    let leaf = Node::Leaf { data: unit_chunks(3) };
    let (node, sibling) = leaf.insert(0, Metrics::new(1, 0));
    assert!(sibling.is_none());
    assert_eq!(node.metrics(), Metrics::new(4, 3));
}

#[test]
fn overfull_leaf_splits_at_midpoint() {
    // Five chunks exceed the three-chunk capacity: ceil(5/2) = 3 stay,
    // floor(5/2) = 2 move to the new sibling.
    let leaf = Node::Leaf { data: unit_chunks(5) };
    let (node, sibling) = leaf.insert(0, Metrics::new(1, 0));
    let sibling = sibling.expect("an over-capacity leaf must split");
    assert_eq!(node.metrics(), Metrics::new(4, 3));
    assert_eq!(sibling.metrics(), Metrics::new(2, 2));
}

#[test]
fn split_propagates_and_splits_the_parent() {
    // A parent with five children whose first child is an over-capacity
    // leaf: the leaf split hands the parent a sixth child, so the parent
    // splits too, three children each.
    let first = Node::Leaf { data: unit_chunks(4) };
    let mut metrics = vec![first.metrics()];
    let mut children = vec![first];
    for _ in 0..4 {
        let leaf = Node::Leaf { data: unit_chunks(1) };
        metrics.push(leaf.metrics());
        children.push(leaf);
    }
    let parent = Node::Internal { metrics, children };
    assert_eq!(parent.metrics(), Metrics::new(8, 8));
    let (node, sibling) = parent.insert(0, Metrics::new(1, 0));
    let sibling = sibling.expect("an over-capacity internal node must split");
    assert_eq!(node.metrics(), Metrics::new(6, 5));
    assert_eq!(sibling.metrics(), Metrics::new(3, 3));
}

#[test]
fn root_split_grows_a_new_root() {
    let first = Node::Leaf { data: unit_chunks(4) };
    let mut metrics = vec![first.metrics()];
    let mut children = vec![first];
    for _ in 0..4 {
        let leaf = Node::Leaf { data: unit_chunks(1) };
        metrics.push(leaf.metrics());
        children.push(leaf);
    }
    let parent = Node::Internal { metrics, children };
    let (node, sibling) = parent.insert(0, Metrics::new(1, 0));
    assert!(sibling.is_some());
    let root = root_with_sibling(node, sibling);
    let rope = Rope { root };
    assert_eq!(rope.total(), Metrics::new(9, 8));
    let (chunk, residual) = rope.search(0).expect("in range");
    assert_eq!(chunk, Metrics::new(2, 1));
    assert_eq!(residual, 0);
    let (chunk, residual) = rope.search(9).expect("in range");
    assert_eq!(chunk, Metrics::new(1, 1));
    assert_eq!(residual, 1);
}

#[test]
fn root_without_sibling_is_unchanged() {
    let leaf = Node::Leaf { data: unit_chunks(2) };
    let root = root_with_sibling(leaf, None);
    assert_eq!(root.metrics(), Metrics::new(2, 2));
}
