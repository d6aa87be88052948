//! The Huffman merge: which nodes a heap of weighted nodes pops, and the tree it builds.
use super::tree::{fork_first, forks_distinct, heap_gt, node_lt, tree_ok, Node};
use vstd::prelude::*;

verus! {

/// The entry at `k` is a greatest one of the heap: none is greater.
pub open spec fn is_max_at(heap: Seq<(i64, Node)>, k: int) -> bool {
    &&& 0 <= k < heap.len()
    &&& forall|m: int| 0 <= m < heap.len() ==> !heap_gt(#[trigger] heap[m], heap[k])
}

/// The entry at `k` is the first greatest one: greater than each entry before it.
pub open spec fn is_first_max_at(heap: Seq<(i64, Node)>, k: int) -> bool {
    &&& is_max_at(heap, k)
    &&& forall|m: int| 0 <= m < k ==> heap_gt(heap[k], #[trigger] heap[m])
}

/// The position of the first greatest entry of the heap: the one a pop takes.
pub open spec fn first_max(heap: Seq<(i64, Node)>) -> int {
    choose|k: int| is_first_max_at(heap, k)
}

/// The heap of leaves for the counts, each with its count negated.
pub open spec fn leaf_heap(counts: Seq<i64>) -> Seq<(i64, Node)> {
    Seq::new(counts.len(), |k: int| ((-counts[k]) as i64, Node::Leaf(k as usize)))
}

/// The nodes of the Huffman tree that the heap builds onto `tree`: while two entries are
/// left, the two greatest (those of least count) are popped and pushed to the tree, and
/// their fork, with the sum of their counts, is pushed to the heap; the last entry is the
/// root.
pub open spec fn merge_nodes(heap: Seq<(i64, Node)>, tree: Seq<Node>) -> Seq<Node>
    decreases heap.len(),
{
    if heap.len() == 0 {
        tree
    } else if heap.len() == 1 {
        tree.push(heap[0].1)
    } else {
        let k1 = first_max(heap);
        let h1 = heap.remove(k1);
        let k2 = first_max(h1);
        let h2 = h1.remove(k2);
        if 0 <= k1 < heap.len() && 0 <= k2 < h1.len() {
            merge_nodes(
                h2.push(((heap[k1].0 + h1[k2].0) as i64, Node::Fork(tree.len() as usize, (tree.len() + 1) as usize))),
                tree.push(heap[k1].1).push(h1[k2].1),
            )
        } else {
            tree
        }
    }
}

/// A pop of `before` took `r`, its first greatest entry, and left `after`.
pub closed spec fn pops_first(before: Seq<(i64, Node)>, r: (i64, Node), after: Seq<(i64, Node)>) -> bool {
    &&& 0 <= first_max(before) < before.len()
    &&& r == before[first_max(before)]
    &&& after == before.remove(first_max(before))
}

/// Taking the first greatest entry is the pop of [`pops_first`].
pub proof fn lemma_pops_first(before: Seq<(i64, Node)>, k: int, r: (i64, Node), after: Seq<(i64, Node)>)
    requires
        is_first_max_at(before, k),
        r == before[k],
        after == before.remove(k),
    ensures
        pops_first(before, r, after),
{
    lemma_first_max_unique(before, k);
}

/// One merge: the two first greatest entries popped in turn go to the tree, and their fork
/// to the heap.
pub proof fn lemma_merge_step(
    h0: Seq<(i64, Node)>,
    r1: (i64, Node),
    h1: Seq<(i64, Node)>,
    r2: (i64, Node),
    h2: Seq<(i64, Node)>,
    tree: Seq<Node>,
)
    requires
        h0.len() > 1,
        pops_first(h0, r1, h1),
        pops_first(h1, r2, h2),
    ensures
        merge_nodes(h0, tree) == merge_nodes(
            h2.push(((r1.0 + r2.0) as i64, Node::Fork(tree.len() as usize, (tree.len() + 1) as usize))),
            tree.push(r1.1).push(r2.1),
        ),
{
}

/// With one entry left, it is the root.
pub proof fn lemma_merge_last(heap: Seq<(i64, Node)>, tree: Seq<Node>)
    requires
        heap.len() == 1,
    ensures
        merge_nodes(heap, tree) == tree.push(heap[0].1),
{
}

/// Heap order is a strict order that is total on distinct entries, and an entry that is
/// not greater is at most as great.
pub proof fn lemma_heap_order(a: (i64, Node), b: (i64, Node), c: (i64, Node))
    ensures
        !heap_gt(a, a),
        heap_gt(a, b) ==> !heap_gt(b, a),
        heap_gt(a, b) && heap_gt(b, c) ==> heap_gt(a, c),
        heap_gt(a, b) && !heap_gt(c, b) ==> heap_gt(a, c),
        a != b ==> heap_gt(a, b) || heap_gt(b, a),
{
}

/// A heap has at most one first greatest entry, so a pop that takes one takes
/// [`first_max`].
pub proof fn lemma_first_max_unique(heap: Seq<(i64, Node)>, k: int)
    requires
        is_first_max_at(heap, k),
    ensures
        first_max(heap) == k,
{
    let j = first_max(heap);
    assert(is_first_max_at(heap, j));
    if j < k {
        assert(heap_gt(heap[k], heap[j]));
    } else if k < j {
        assert(heap_gt(heap[j], heap[k]));
    }
}

/// No leaf occurs twice among the tree's nodes and the heap's entries.
pub open spec fn leaves_distinct(tree: Seq<Node>, heap: Seq<(i64, Node)>) -> bool {
    &&& forall|p1: int, p2: int|
        0 <= p1 < p2 < tree.len() && (#[trigger] tree[p1]) is Leaf ==> tree[p1] != #[trigger] tree[p2]
    &&& forall|k1: int, k2: int|
        0 <= k1 < k2 < heap.len() && (#[trigger] heap[k1]).1 is Leaf ==> heap[k1].1 != (#[trigger] heap[k2]).1
    &&& forall|p: int, k: int|
        0 <= p < tree.len() && 0 <= k < heap.len() && (#[trigger] tree[p]) is Leaf ==> tree[p] != (#[trigger] heap[k]).1
}

/// The leaves of the first heap are distinct.
pub proof fn lemma_leaves_init(counts: Seq<i64>)
    requires
        counts.len() <= usize::MAX,
    ensures
        leaves_distinct(Seq::empty(), leaf_heap(counts)),
{
    let h = leaf_heap(counts);
    assert forall|k1: int, k2: int| 0 <= k1 < k2 < h.len() && (#[trigger] h[k1]).1 is Leaf implies h[k1].1 != (#[trigger] h[k2]).1 by {
        assert(h[k1].1 == Node::Leaf(k1 as usize));
        assert(h[k2].1 == Node::Leaf(k2 as usize));
    }
}

/// An entry of a heap with one entry removed is an entry of the heap at another position.
proof fn lemma_removed_entry(heap: Seq<(i64, Node)>, k: int, m: int)
    requires
        0 <= k < heap.len(),
        0 <= m < heap.len() - 1,
    ensures
        heap.remove(k)[m] == heap[if m < k { m } else { m + 1 }],
{
}

/// A merge moves two entries from the heap to the tree and pushes a fork: leaves stay
/// distinct.
pub proof fn lemma_leaves_step(
    t0: Seq<Node>,
    h0: Seq<(i64, Node)>,
    r1: (i64, Node),
    h1: Seq<(i64, Node)>,
    r2: (i64, Node),
    h2: Seq<(i64, Node)>,
    fork: (i64, Node),
)
    requires
        leaves_distinct(t0, h0),
        h0.len() > 1,
        pops_first(h0, r1, h1),
        pops_first(h1, r2, h2),
        fork.1 is Fork,
    ensures
        leaves_distinct(t0.push(r1.1).push(r2.1), h2.push(fork)),
{
    let k1 = first_max(h0);
    let k2 = first_max(h1);
    let t = t0.push(r1.1).push(r2.1);
    let h = h2.push(fork);
    // Position in `h0` of the entry of `h2` at `m`.
    let src = |m: int| {
        let m1 = if m < k2 { m } else { m + 1 };
        if m1 < k1 { m1 } else { m1 + 1 }
    };
    let k2_0 = if k2 < k1 { k2 } else { k2 + 1 };
    assert(h1 == h0.remove(k1));
    assert(h2 == h1.remove(k2));
    assert(r2 == h0[k2_0]) by {
        lemma_removed_entry(h0, k1, k2);
    }
    assert forall|m: int| 0 <= m < h2.len() implies #[trigger] h2[m] == h0[src(m)] && src(m) != k1 && src(m) != k2_0
        && 0 <= src(m) < h0.len() by {
        lemma_removed_entry(h1, k2, m);
        let m1 = if m < k2 { m } else { m + 1 };
        lemma_removed_entry(h0, k1, m1);
    }
    assert forall|m1: int, m2: int| 0 <= m1 < m2 < h2.len() implies #[trigger] src(m1) < #[trigger] src(m2) by {
    }
    assert forall|p1: int, p2: int| 0 <= p1 < p2 < t.len() && (#[trigger] t[p1]) is Leaf implies t[p1] != #[trigger] t[p2] by {
        if p2 < t0.len() {
            assert(t[p1] == t0[p1] && t[p2] == t0[p2]);
        } else if p2 == t0.len() {
            assert(t[p1] == t0[p1]);
            assert(t[p2] == h0[k1].1);
        } else if p1 < t0.len() {
            assert(t[p1] == t0[p1]);
            assert(t[p2] == h0[k2_0].1);
        } else {
            assert(t[p1] == h0[k1].1);
            assert(t[p2] == h0[k2_0].1);
            if k1 < k2_0 {
                assert(h0[k1].1 != h0[k2_0].1);
            } else {
                assert(h0[k2_0].1 != h0[k1].1);
            }
        }
    }
    assert forall|m1: int, m2: int| 0 <= m1 < m2 < h.len() && (#[trigger] h[m1]).1 is Leaf implies h[m1].1 != (#[trigger] h[m2]).1 by {
        if m2 < h2.len() {
            assert(h[m1] == h0[src(m1)] && h[m2] == h0[src(m2)]);
            if src(m1) < src(m2) {
                assert(h0[src(m1)].1 != h0[src(m2)].1);
            } else {
                assert(h0[src(m2)].1 != h0[src(m1)].1);
            }
        }
    }
    assert forall|p: int, m: int| 0 <= p < t.len() && 0 <= m < h.len() && (#[trigger] t[p]) is Leaf implies t[p] != (#[trigger] h[m]).1 by {
        if m < h2.len() {
            assert(h[m] == h0[src(m)]);
            if p < t0.len() {
                assert(t[p] == t0[p]);
            } else if p == t0.len() {
                assert(t[p] == h0[k1].1);
                if k1 < src(m) {
                    assert(h0[k1].1 != h0[src(m)].1);
                } else {
                    assert(h0[src(m)].1 != h0[k1].1);
                }
            } else {
                assert(t[p] == h0[k2_0].1);
                if k2_0 < src(m) {
                    assert(h0[k2_0].1 != h0[src(m)].1);
                } else {
                    assert(h0[src(m)].1 != h0[k2_0].1);
                }
            }
        }
    }
}

/// The last entry of the heap goes to the tree as its root: leaves stay distinct.
pub proof fn lemma_leaves_last(t0: Seq<Node>, h: Seq<(i64, Node)>)
    requires
        leaves_distinct(t0, h),
        h.len() == 1,
    ensures
        leaves_distinct(t0.push(h[0].1), Seq::empty()),
{
    let t = t0.push(h[0].1);
    assert forall|p1: int, p2: int| 0 <= p1 < p2 < t.len() && (#[trigger] t[p1]) is Leaf implies t[p1] != #[trigger] t[p2] by {
        assert(t[p1] == t0[p1]);
        if p2 < t0.len() {
            assert(t[p2] == t0[p2]);
        }
    }
}

/// The node at `p` is a child of the fork at `f`.
pub open spec fn child_of(tree: Seq<Node>, f: int, p: int) -> bool {
    &&& 0 <= f < tree.len()
    &&& match tree[f] {
        Node::Fork(a, b) => p == a || p == b,
        Node::Leaf(_) => false,
    }
}

/// The node at `p` lies `d` forks below the root, the last node.
pub open spec fn at_depth(tree: Seq<Node>, p: int, d: nat) -> bool
    decreases d,
{
    if d == 0 {
        tree.len() > 0 && p == tree.len() - 1
    } else {
        exists|f: int| #[trigger] child_of(tree, f, p) && at_depth(tree, f, (d - 1) as nat)
    }
}

/// A leaf for symbol `i` lies `d` forks below the root.
pub open spec fn leaf_at_depth(tree: Seq<Node>, i: int, d: nat) -> bool {
    exists|p: int| 0 <= p < tree.len() && tree[p] == Node::Leaf(i as usize) && #[trigger] at_depth(tree, p, d)
}

/// The depth of the leaf for symbol `i`: the length of its code.
pub open spec fn leaf_depth(tree: Seq<Node>, i: int) -> nat {
    choose|d: nat| leaf_at_depth(tree, i, d)
}

/// Every leaf of the Huffman tree of the counts lies at most 57 forks below its root, so
/// that each code has at most 57 bits, and some leaf, if there is one, lies at most 8 forks
/// below it, so that the shortest code fits in a byte.
#[verifier::opaque]
pub open spec fn codes_fit(counts: Seq<i64>) -> bool {
    &&& forall|i: int| 0 <= i < counts.len() ==> #[trigger] leaf_depth(huffman_tree(counts), i) <= 57
    &&& counts.len() == 0 || exists|i: int| 0 <= i < counts.len() && #[trigger] leaf_depth(huffman_tree(counts), i) <= 8
}

/// The Huffman tree of the counts: the nodes that merging their leaves gives, root last.
pub open spec fn huffman_tree(counts: Seq<i64>) -> Seq<Node> {
    merge_nodes(leaf_heap(counts), Seq::empty())
}

/// A node is the child of at most one fork.
pub proof fn lemma_parent_unique(tree: Seq<Node>, n: nat, f1: int, f2: int, p: int)
    requires
        tree_ok(tree, n),
        forks_distinct(tree, Seq::empty()),
        child_of(tree, f1, p),
        child_of(tree, f2, p),
    ensures
        f1 == f2,
{
    assert(tree[f1] is Fork && tree[f2] is Fork);
    let a1 = fork_first(tree[f1]);
    let a2 = fork_first(tree[f2]);
    assert(a1 % 2 == 0 && a2 % 2 == 0);
    assert(a1 == a2);
    if f1 < f2 {
        assert(fork_first(tree[f1]) != fork_first(tree[f2]));
    } else if f2 < f1 {
        assert(fork_first(tree[f2]) != fork_first(tree[f1]));
    }
}

/// A node lies at one depth only.
pub proof fn lemma_depth_unique(tree: Seq<Node>, n: nat, p: int, d1: nat, d2: nat)
    requires
        tree_ok(tree, n),
        forks_distinct(tree, Seq::empty()),
        at_depth(tree, p, d1),
        at_depth(tree, p, d2),
    ensures
        d1 == d2,
    decreases d1,
{
    if d1 == 0 && d2 > 0 {
        let f = choose|f: int| #[trigger] child_of(tree, f, p) && at_depth(tree, f, (d2 - 1) as nat);
        assert(child_of(tree, f, p));
    } else if d2 == 0 && d1 > 0 {
        let f = choose|f: int| #[trigger] child_of(tree, f, p) && at_depth(tree, f, (d1 - 1) as nat);
        assert(child_of(tree, f, p));
    } else if d1 > 0 && d2 > 0 {
        let f1 = choose|f: int| #[trigger] child_of(tree, f, p) && at_depth(tree, f, (d1 - 1) as nat);
        let f2 = choose|f: int| #[trigger] child_of(tree, f, p) && at_depth(tree, f, (d2 - 1) as nat);
        lemma_parent_unique(tree, n, f1, f2, p);
        lemma_depth_unique(tree, n, f1, (d1 - 1) as nat, (d2 - 1) as nat);
    }
}

/// In a tree whose leaves are distinct, a leaf found at some depth is at [`leaf_depth`].
pub proof fn lemma_leaf_depth(tree: Seq<Node>, n: nat, i: int, d: nat)
    requires
        tree_ok(tree, n),
        forks_distinct(tree, Seq::empty()),
        leaves_distinct(tree, Seq::empty()),
        leaf_at_depth(tree, i, d),
    ensures
        leaf_depth(tree, i) == d,
{
    let d2 = leaf_depth(tree, i);
    assert(leaf_at_depth(tree, i, d2));
    let p = choose|p: int| 0 <= p < tree.len() && tree[p] == Node::Leaf(i as usize) && #[trigger] at_depth(tree, p, d);
    let p2 = choose|p: int| 0 <= p < tree.len() && tree[p] == Node::Leaf(i as usize) && #[trigger] at_depth(tree, p, d2);
    if p < p2 {
        assert(tree[p] != tree[p2]);
    } else if p2 < p {
        assert(tree[p2] != tree[p]);
    }
    lemma_depth_unique(tree, n, p, d, d2);
}

} // verus!
