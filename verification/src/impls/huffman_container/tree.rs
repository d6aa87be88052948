//! The Huffman tree: repeatedly merging the two lightest nodes, then reading off the depth
//! of every leaf.
use vstd::arithmetic::power2::{lemma_pow2_adds, lemma_pow2_pos, lemma_pow2_strictly_increases, pow2};
use super::merge::{
    at_depth, child_of, leaf_at_depth, leaf_heap, leaves_distinct, lemma_heap_order, lemma_leaves_init, lemma_leaves_last, lemma_leaves_step, lemma_merge_last,
    lemma_merge_step, lemma_pops_first, merge_nodes, pops_first,
};
use vstd::prelude::*;

verus! {

/// A node of the Huffman tree: a leaf for the symbol at an index of the counts, or a fork
/// of the two tree nodes at the given positions.
///
/// Nodes order as a derived order would: leaves before forks, leaves by index, forks by
/// their positions.
#[derive(Clone, Copy, PartialEq, Eq, Structural)]
pub enum Node {
    Leaf(usize),
    Fork(usize, usize),
}

/// `a` orders before `b`.
pub open spec fn node_lt(a: Node, b: Node) -> bool {
    match (a, b) {
        (Node::Leaf(i), Node::Leaf(j)) => i < j,
        (Node::Leaf(_), Node::Fork(_, _)) => true,
        (Node::Fork(_, _), Node::Leaf(_)) => false,
        (Node::Fork(a0, a1), Node::Fork(b0, b1)) => a0 < b0 || (a0 == b0 && a1 < b1),
    }
}

fn node_less(a: Node, b: Node) -> (r: bool)
    ensures
        r == node_lt(a, b),
{
    match (a, b) {
        (Node::Leaf(i), Node::Leaf(j)) => i < j,
        (Node::Leaf(_), Node::Fork(_, _)) => true,
        (Node::Fork(_, _), Node::Leaf(_)) => false,
        (Node::Fork(a0, a1), Node::Fork(b0, b1)) => a0 < b0 || (a0 == b0 && a1 < b1),
    }
}

/// `a` comes out of the heap before `b`: it has the larger negated count, then the larger
/// node.
pub open spec fn heap_gt(a: (i64, Node), b: (i64, Node)) -> bool {
    a.0 > b.0 || (a.0 == b.0 && node_lt(b.1, a.1))
}

/// The number of forks among `tree[lo..hi]`.
pub open spec fn count_forks(tree: Seq<Node>, lo: int, hi: int) -> nat
    decreases hi - lo,
{
    if hi <= lo {
        0
    } else {
        count_forks(tree, lo, hi - 1) + (if tree[hi - 1] is Fork {
            1nat
        } else {
            0nat
        })
    }
}

/// The number of forks in a heap.
pub open spec fn heap_forks(heap: Seq<(i64, Node)>) -> nat
    decreases heap.len(),
{
    if heap.len() == 0 {
        0
    } else {
        heap_forks(heap.drop_last()) + (if heap.last().1 is Fork {
            1nat
        } else {
            0nat
        })
    }
}

/// The sum of the counts in a heap, whose entries hold negated counts.
pub open spec fn heap_total(heap: Seq<(i64, Node)>) -> int
    decreases heap.len(),
{
    if heap.len() == 0 {
        0
    } else {
        heap_total(heap.drop_last()) - heap.last().0
    }
}

/// The leaf for symbol `i` lies under the node at position `p` of the tree.
pub open spec fn under(tree: Seq<Node>, p: int, i: int) -> bool
    decreases p,
{
    if 0 <= p < tree.len() {
        match tree[p] {
            Node::Leaf(j) => j == i,
            Node::Fork(a, b) => (a < p && under(tree, a as int, i)) || (b < p && under(tree, b as int, i)),
        }
    } else {
        false
    }
}

/// The leaf for symbol `i` lies under `node`, whose children are in the tree.
pub open spec fn node_under(tree: Seq<Node>, node: Node, i: int) -> bool {
    match node {
        Node::Leaf(j) => j == i,
        Node::Fork(a, b) => under(tree, a as int, i) || under(tree, b as int, i),
    }
}

/// The heap holds negated counts, leaves for symbols and forks of neighbouring tree
/// positions.
pub open spec fn heap_ok(heap: Seq<(i64, Node)>, tree_len: nat, n: nat) -> bool {
    forall|k: int|
        0 <= k < heap.len() ==> (#[trigger] heap[k]).0 <= 0 && match heap[k].1 {
            Node::Leaf(j) => j < n,
            Node::Fork(a, b) => b == a + 1 && b < tree_len,
        }
}

/// The heap after two pops, at `k1` and then at `k2`, and the push of their fork.
pub open spec fn merged(heap: Seq<(i64, Node)>, k1: int, k2: int, a: usize, count: i64) -> Seq<(i64, Node)> {
    heap.remove(k1).remove(k2).push((count, Node::Fork(a, (a + 1) as usize)))
}

/// The tree after the two popped nodes are pushed.
pub open spec fn grown(tree: Seq<Node>, heap: Seq<(i64, Node)>, k1: int, k2: int) -> Seq<Node> {
    tree.push(heap[k1].1).push(heap.remove(k1)[k2].1)
}

proof fn lemma_remove_index(heap: Seq<(i64, Node)>, k1: int, k2: int, k: int)
    requires
        0 <= k1 < heap.len(),
        0 <= k2 < heap.len() - 1,
        0 <= k < heap.len() - 2,
    ensures
        ({
            let k_1 = if k < k2 { k } else { k + 1 };
            let k_0 = if k_1 < k1 { k_1 } else { k_1 + 1 };
            &&& heap.remove(k1).remove(k2)[k] == heap[k_0]
            &&& 0 <= k_0 < heap.len()
            &&& k_0 != k1
            &&& k_1 != k2
        }),
{
}

proof fn lemma_merge_tree(tree: Seq<Node>, heap: Seq<(i64, Node)>, k1: int, k2: int, n: nat)
    requires
        tree_ok(tree, n),
        heap_ok(heap, tree.len(), n),
        0 <= k1 < heap.len(),
        0 <= k2 < heap.len() - 1,
    ensures
        tree_ok(grown(tree, heap, k1, k2), n),
{
    let t2 = grown(tree, heap, k1, k2);
    let h1 = heap.remove(k1);
    assert forall|p: int| 0 <= p < t2.len() implies match #[trigger] t2[p] {
        Node::Leaf(j) => j < n,
        Node::Fork(a, b) => b == a + 1 && b < p,
    } by {
        if p < tree.len() {
            assert(t2[p] == tree[p]);
        } else if p == tree.len() {
            assert(t2[p] == heap[k1].1);
        } else {
            assert(t2[p] == h1[k2].1);
            if k2 < k1 {
                assert(h1[k2] == heap[k2]);
            } else {
                assert(h1[k2] == heap[k2 + 1]);
            }
        }
    }
}

proof fn lemma_merge_heap(tree: Seq<Node>, heap: Seq<(i64, Node)>, k1: int, k2: int, n: nat, count: i64, a: usize)
    requires
        a == tree.len(),
        a + 1 <= usize::MAX,
        heap_ok(heap, tree.len(), n),
        0 <= k1 < heap.len(),
        0 <= k2 < heap.len() - 1,
        count <= 0,
    ensures
        heap_ok(merged(heap, k1, k2, a, count), tree.len() + 2, n),
{
    let h3 = merged(heap, k1, k2, a, count);
    assert forall|k: int| 0 <= k < h3.len() implies (#[trigger] h3[k]).0 <= 0 && match h3[k].1 {
        Node::Leaf(j) => j < n,
        Node::Fork(a, b) => b == a + 1 && b < tree.len() + 2,
    } by {
        if k < h3.len() - 1 {
            lemma_remove_index(heap, k1, k2, k);
        }
    }
}

proof fn lemma_merge_covers(tree: Seq<Node>, heap: Seq<(i64, Node)>, k1: int, k2: int, n: nat, count: i64, a: usize)
    requires
        a == tree.len(),
        a + 1 <= usize::MAX,
        tree_ok(tree, n),
        heap_ok(heap, tree.len(), n),
        0 <= k1 < heap.len(),
        0 <= k2 < heap.len() - 1,
        forall|s: int| 0 <= s < n ==> #[trigger] heap_covers(tree, heap, s),
    ensures
        forall|s: int|
            0 <= s < n ==> #[trigger] heap_covers(
                grown(tree, heap, k1, k2),
                merged(heap, k1, k2, a, count),
                s,
            ),
{
    let t1 = tree.push(heap[k1].1);
    let h1 = heap.remove(k1);
    let least1 = heap[k1].1;
    let least2 = h1[k2].1;
    let t2 = grown(tree, heap, k1, k2);
    let h3 = merged(heap, k1, k2, a, count);
    assert(h1[k2] == heap[if k2 < k1 { k2 } else { k2 + 1 }]);
    assert forall|s: int| 0 <= s < n implies #[trigger] heap_covers(t2, h3, s) by {
        assert(heap_covers(tree, heap, s));
        let k = choose|k: int| 0 <= k < heap.len() && #[trigger] node_under(tree, heap[k].1, s);
        let node = heap[k].1;
        let new_k = h3.len() - 1;
        if let Node::Fork(a, b) = node {
            lemma_under_push(tree, least1, a as int, s);
            lemma_under_push(t1, least2, a as int, s);
            lemma_under_push(tree, least1, b as int, s);
            lemma_under_push(t1, least2, b as int, s);
        }
        if k == k1 {
            assert(t2[tree.len() as int] == least1);
            assert(under(t2, tree.len() as int, s)) by {
                if let Node::Fork(a, b) = least1 {
                    assert(a < tree.len() && b < tree.len());
                }
            }
            assert(node_under(t2, h3[new_k].1, s));
        } else {
            let k_1 = if k < k1 { k } else { k - 1 };
            assert(h1[k_1] == heap[k]);
            if k_1 == k2 {
                assert(t2[tree.len() as int + 1] == least2);
                assert(under(t2, tree.len() as int + 1, s)) by {
                    if let Node::Fork(a, b) = least2 {
                        assert(a < tree.len() && b < tree.len());
                    }
                }
                assert(node_under(t2, h3[new_k].1, s));
            } else {
                let k_2 = if k_1 < k2 { k_1 } else { k_1 - 1 };
                assert(h1.remove(k2)[k_2] == h1[k_1]);
                assert(h3[k_2] == h1.remove(k2)[k_2]);
                assert(node_under(t2, h3[k_2].1, s));
            }
        }
    }
}

/// The first child position of a fork.
pub open spec fn fork_first(node: Node) -> int {
    match node {
        Node::Fork(a, _) => a as int,
        Node::Leaf(_) => -1,
    }
}

/// The forks of the tree and of the heap have distinct, even first children.
pub open spec fn forks_distinct(tree: Seq<Node>, heap: Seq<(i64, Node)>) -> bool {
    &&& forall|p: int| 0 <= p < tree.len() && (#[trigger] tree[p]) is Fork ==> fork_first(tree[p]) % 2 == 0
    &&& forall|k: int| 0 <= k < heap.len() && (#[trigger] heap[k]).1 is Fork ==> fork_first(heap[k].1) % 2 == 0
    &&& forall|p1: int, p2: int|
        0 <= p1 < p2 < tree.len() && (#[trigger] tree[p1]) is Fork && (#[trigger] tree[p2]) is Fork
            ==> fork_first(tree[p1]) != fork_first(tree[p2])
    &&& forall|k1: int, k2: int|
        0 <= k1 < k2 < heap.len() && (#[trigger] heap[k1]).1 is Fork && (#[trigger] heap[k2]).1 is Fork
            ==> fork_first(heap[k1].1) != fork_first(heap[k2].1)
    &&& forall|p: int, k: int|
        0 <= p < tree.len() && 0 <= k < heap.len() && (#[trigger] tree[p]) is Fork && (#[trigger] heap[k]).1 is Fork
            ==> fork_first(tree[p]) != fork_first(heap[k].1)
}

proof fn lemma_merge_distinct(tree: Seq<Node>, heap: Seq<(i64, Node)>, k1: int, k2: int, n: nat, count: i64, a: usize)
    requires
        a == tree.len(),
        a + 1 <= usize::MAX,
        a % 2 == 0,
        tree_ok(tree, n),
        heap_ok(heap, tree.len(), n),
        forks_distinct(tree, heap),
        0 <= k1 < heap.len(),
        0 <= k2 < heap.len() - 1,
    ensures
        forks_distinct(grown(tree, heap, k1, k2), merged(heap, k1, k2, a, count)),
{
    let t2 = grown(tree, heap, k1, k2);
    let h3 = merged(heap, k1, k2, a, count);
    let h1 = heap.remove(k1);
    let k2o = if k2 < k1 { k2 } else { k2 + 1 };
    assert(h1[k2] == heap[k2o]);
    assert(t2[a as int] == heap[k1].1);
    assert(t2[a as int + 1] == heap[k2o].1);
    // Every fork's first child lies before the tree's end, so the fresh fork's is new.
    assert forall|p: int| 0 <= p < tree.len() && (#[trigger] tree[p]) is Fork implies fork_first(tree[p]) < a by {}
    assert forall|k: int| 0 <= k < heap.len() && (#[trigger] heap[k]).1 is Fork implies fork_first(heap[k].1) < a by {}
    // Where the entries of the new tree and heap come from.
    assert forall|p: int| 0 <= p < t2.len() implies {
        ||| (p < tree.len() && #[trigger] t2[p] == tree[p])
        ||| (p == tree.len() && t2[p] == heap[k1].1)
        ||| (p == tree.len() + 1 && t2[p] == heap[k2o].1)
    } by {
        if p < tree.len() {
            assert(t2[p] == tree[p]);
        }
    }
    assert forall|k: int| 0 <= k < h3.len() - 1 implies {
        let k_1 = if k < k2 { k } else { k + 1 };
        let k_0 = if k_1 < k1 { k_1 } else { k_1 + 1 };
        &&& #[trigger] h3[k] == heap[k_0]
        &&& 0 <= k_0 < heap.len()
        &&& k_0 != k1
        &&& k_0 != k2o
    } by {
        lemma_remove_index(heap, k1, k2, k);
        assert(h3[k] == heap.remove(k1).remove(k2)[k]);
    }
    assert(h3[h3.len() - 1].1 == Node::Fork(a, (a + 1) as usize));
}

/// The leaf for symbol `s` lies under some node of the heap.
pub open spec fn heap_covers(tree: Seq<Node>, heap: Seq<(i64, Node)>, s: int) -> bool {
    exists|k: int| 0 <= k < heap.len() && #[trigger] node_under(tree, heap[k].1, s)
}

/// Each fork of the tree refers to two neighbouring earlier positions, and each leaf to a
/// symbol.
pub open spec fn tree_ok(tree: Seq<Node>, n: nat) -> bool {
    forall|p: int|
        0 <= p < tree.len() ==> match #[trigger] tree[p] {
            Node::Leaf(j) => j < n,
            Node::Fork(a, b) => b == a + 1 && b < p,
        }
}

/// The weight `2^(64 - level)` of a leaf at that depth.
pub open spec fn level_weight(level: usize) -> nat {
    pow2((64 - level) as nat)
}

/// The summed weights of the depths in `todo` (position, depth).
pub open spec fn todo_weight(todo: Seq<(usize, usize)>) -> nat
    decreases todo.len(),
{
    if todo.len() == 0 {
        0
    } else {
        todo_weight(todo.drop_last()) + level_weight(todo.last().1)
    }
}

/// The summed weights of the depths in `levels` (depth, symbol).
pub open spec fn levels_weight(levels: Seq<(usize, usize)>) -> nat
    decreases levels.len(),
{
    if levels.len() == 0 {
        0
    } else {
        levels_weight(levels.drop_last()) + level_weight(levels.last().0)
    }
}

/// A measure of the work left in `todo`: the positions, weighted by powers of two.
pub open spec fn todo_measure(todo: Seq<(usize, usize)>) -> nat
    decreases todo.len(),
{
    if todo.len() == 0 {
        0
    } else {
        todo_measure(todo.drop_last()) + pow2(todo.last().0 as nat)
    }
}

proof fn lemma_heap_remove(heap: Seq<(i64, Node)>, k: int)
    requires
        0 <= k < heap.len(),
    ensures
        heap_forks(heap.remove(k)) + (if heap[k].1 is Fork {
            1nat
        } else {
            0nat
        }) == heap_forks(heap),
        heap_total(heap.remove(k)) - heap[k].0 == heap_total(heap),
    decreases heap.len(),
{
    if k == heap.len() - 1 {
        assert(heap.remove(k) == heap.drop_last());
    } else {
        lemma_heap_remove(heap.drop_last(), k);
        assert(heap.remove(k).drop_last() == heap.drop_last().remove(k));
        assert(heap.remove(k).last() == heap.last());
    }
}

proof fn lemma_heap_total_bounds(heap: Seq<(i64, Node)>, k: int)
    requires
        0 <= k < heap.len(),
        forall|m: int| 0 <= m < heap.len() ==> (#[trigger] heap[m]).0 <= 0,
    ensures
        -heap[k].0 <= heap_total(heap),
        heap_total(heap) >= 0,
    decreases heap.len(),
{
    let d = heap.drop_last();
    assert forall|m: int| 0 <= m < d.len() implies (#[trigger] d[m]).0 <= 0 by {
        assert(d[m] == heap[m]);
    }
    assert(heap.last().0 <= 0);
    assert(heap_total(heap) == heap_total(d) - heap.last().0);
    if k < heap.len() - 1 {
        lemma_heap_total_bounds(d, k);
        assert(d[k] == heap[k]);
    } else if heap.len() > 1 {
        lemma_heap_total_bounds(d, 0);
    }
}

proof fn lemma_count_forks_split(tree: Seq<Node>, lo: int, mid: int, hi: int)
    requires
        lo <= mid <= hi,
    ensures
        count_forks(tree, lo, hi) == count_forks(tree, lo, mid) + count_forks(tree, mid, hi),
    decreases hi - mid,
{
    if hi > mid {
        lemma_count_forks_split(tree, lo, mid, hi - 1);
    }
}

proof fn lemma_count_forks_push(tree: Seq<Node>, x: Node, lo: int, hi: int)
    requires
        0 <= lo,
        hi <= tree.len(),
    ensures
        count_forks(tree.push(x), lo, hi) == count_forks(tree, lo, hi),
    decreases hi - lo,
{
    if hi > lo {
        lemma_count_forks_push(tree, x, lo, hi - 1);
        assert(tree.push(x)[hi - 1] == tree[hi - 1]);
    }
}

proof fn lemma_count_forks_bound(tree: Seq<Node>, lo: int, hi: int)
    ensures
        count_forks(tree, lo, hi) <= if hi <= lo {
            0
        } else {
            hi - lo
        },
    decreases hi - lo,
{
    if hi > lo {
        lemma_count_forks_bound(tree, lo, hi - 1);
    }
}

proof fn lemma_under_push(tree: Seq<Node>, x: Node, p: int, i: int)
    requires
        0 <= p < tree.len(),
    ensures
        under(tree.push(x), p, i) == under(tree, p, i),
    decreases p,
{
    assert(tree.push(x)[p] == tree[p]);
    match tree[p] {
        Node::Leaf(_) => {},
        Node::Fork(a, b) => {
            if a < p {
                lemma_under_push(tree, x, a as int, i);
            }
            if b < p {
                lemma_under_push(tree, x, b as int, i);
            }
        },
    }
}

proof fn lemma_todo_measure_push(todo: Seq<(usize, usize)>, x: (usize, usize))
    ensures
        todo_measure(todo.push(x)) == todo_measure(todo) + pow2(x.0 as nat),
        todo_weight(todo.push(x)) == todo_weight(todo) + level_weight(x.1),
{
    assert(todo.push(x).drop_last() == todo);
}

proof fn lemma_levels_weight_push(levels: Seq<(usize, usize)>, x: (usize, usize))
    ensures
        levels_weight(levels.push(x)) == levels_weight(levels) + level_weight(x.0),
{
    assert(levels.push(x).drop_last() == levels);
}

/// Pops the entry that a max-heap would pop.
fn heap_pop(heap: &mut Vec<(i64, Node)>) -> (r: (i64, Node))
    requires
        old(heap).len() > 0,
    ensures
        exists|k: int|
            0 <= k < old(heap)@.len() && r == old(heap)@[k] && final(heap)@ == old(heap)@.remove(k),
        forall|m: int| 0 <= m < old(heap)@.len() ==> !heap_gt(#[trigger] old(heap)@[m], r),
        pops_first(old(heap)@, r, final(heap)@),
{
    let mut best: usize = 0;
    let mut i: usize = 1;
    while i < heap.len()
        invariant
            heap@ == old(heap)@,
            0 <= best < i <= heap@.len(),
            forall|m: int| 0 <= m < i ==> !heap_gt(#[trigger] heap@[m], heap@[best as int]),
            forall|m: int| 0 <= m < best ==> heap_gt(heap@[best as int], #[trigger] heap@[m]),
        decreases heap@.len() - i,
    {
        let a = heap[i];
        let b = heap[best];
        if a.0 > b.0 || (a.0 == b.0 && node_less(b.1, a.1)) {
            proof {
                assert forall|m: int| 0 <= m < i implies heap_gt(a, #[trigger] heap@[m]) by {
                    lemma_heap_order(a, b, heap@[m]);
                }
            }
            best = i;
        }
        i = i + 1;
    }
    let ghost before = heap@;
    let r = heap.remove(best);
    proof {
        lemma_pops_first(before, best as int, r, heap@);
    }
    r
}

/// The tree of a Huffman code over symbols with the given counts: its nodes, with the root
/// last.
#[verifier::rlimit(40)]
pub fn build_tree(counts: &Vec<i64>) -> (tree: Vec<Node>)
    requires
        2 <= counts@.len() <= usize::MAX / 4,
        forall|i: int| 0 <= i < counts@.len() ==> 0 <= #[trigger] counts@[i],
        sum_counts(counts@) <= i64::MAX,
    ensures
        tree@.len() > 0,
        tree_ok(tree@, counts@.len()),
        tree@.last() is Fork,
        count_forks(tree@, 0, tree@.len() as int) == counts@.len() - 1,
        forall|i: int| 0 <= i < counts@.len() ==> #[trigger] under(tree@, tree@.len() - 1, i),
        forks_distinct(tree@, Seq::empty()),
        tree@.len() == 2 * counts@.len() - 1,
        tree@ == merge_nodes(leaf_heap(counts@), Seq::empty()),
        leaves_distinct(tree@, Seq::empty()),
{
    let n = counts.len();
    let mut heap: Vec<(i64, Node)> = Vec::new();
    let mut i: usize = 0;
    while i < n
        invariant
            n == counts@.len(),
            0 <= i <= n,
            heap@.len() == i,
            forall|k: int| 0 <= k < i ==> (#[trigger] heap@[k]).0 == -counts@[k] && heap@[k].1 == Node::Leaf(k as usize),
            heap_forks(heap@) == 0,
            heap_total(heap@) == sum_counts(counts@.take(i as int)),
            forall|k: int| 0 <= k < counts@.len() ==> 0 <= #[trigger] counts@[k],
            sum_counts(counts@) <= i64::MAX,
        decreases n - i,
    {
        proof {
            lemma_sum_counts_take(counts@, i as int);
        }
        let ghost before = heap@;
        heap.push((-counts[i], Node::Leaf(i)));
        proof {
            assert(heap@.drop_last() == before);
            assert(heap@.drop_last() =~= heap@.take(i as int));
        }
        i = i + 1;
    }
    proof {
        assert(counts@.take(n as int) == counts@);
        assert(heap@ =~= leaf_heap(counts@));
        lemma_leaves_init(counts@);
    }
    let mut tree: Vec<Node> = Vec::new();
    proof {
        assert forall|s: int| 0 <= s < n implies #[trigger] heap_covers(tree@, heap@, s) by {
            assert(node_under(tree@, heap@[s].1, s));
        }
    }
    while heap.len() > 1
        invariant
            n == counts@.len(),
            2 <= n <= usize::MAX / 4,
            1 <= heap@.len() <= n,
            tree@.len() == 2 * (n - heap@.len()),
            tree_ok(tree@, n as nat),
            heap_ok(heap@, tree@.len(), n as nat),
            heap_total(heap@) <= i64::MAX,
            count_forks(tree@, 0, tree@.len() as int) + heap_forks(heap@) == n - heap@.len(),
            heap@.len() < n ==> heap@.last().1 is Fork,
            forall|s: int| 0 <= s < n ==> #[trigger] heap_covers(tree@, heap@, s),
            forks_distinct(tree@, heap@),
            merge_nodes(heap@, tree@) == merge_nodes(leaf_heap(counts@), Seq::empty()),
            leaves_distinct(tree@, heap@),
        decreases heap@.len(),
    {
        let ghost h0 = heap@;
        let (count1, least1) = heap_pop(&mut heap);
        let ghost h1 = heap@;
        let ghost k1 = choose|k: int| 0 <= k < h0.len() && (count1, least1) == h0[k] && h1 == h0.remove(k);
        let (count2, least2) = heap_pop(&mut heap);
        let ghost h2 = heap@;
        let ghost k2 = choose|k: int| 0 <= k < h1.len() && (count2, least2) == h1[k] && h2 == h1.remove(k);
        proof {
            lemma_heap_remove(h0, k1);
            lemma_heap_remove(h1, k2);
            assert forall|m: int| 0 <= m < h1.len() implies (#[trigger] h1[m]).0 <= 0 by {
                if m < k1 {
                    assert(h1[m] == h0[m]);
                } else {
                    assert(h1[m] == h0[m + 1]);
                }
            }
            lemma_heap_total_bounds(h1, k2);
        }
        let fork = Node::Fork(tree.len(), tree.len() + 1);
        let ghost t0 = tree@;
        tree.push(least1);
        let ghost t1 = tree@;
        tree.push(least2);
        heap.push((count1 + count2, fork));
        proof {
            assert(tree@ == t0.push(least1).push(least2));
            assert(least1 == h0[k1].1 && least2 == h1[k2].1);
            lemma_merge_tree(t0, h0, k1, k2, n as nat);
            lemma_merge_heap(t0, h0, k1, k2, n as nat, (count1 + count2) as i64, t0.len() as usize);
            lemma_merge_covers(t0, h0, k1, k2, n as nat, (count1 + count2) as i64, t0.len() as usize);
            lemma_merge_distinct(t0, h0, k1, k2, n as nat, (count1 + count2) as i64, t0.len() as usize);
            lemma_count_forks_push(t0, least1, 0, t0.len() as int);
            lemma_count_forks_push(t0.push(least1), least2, 0, t0.len() as int + 1);
            assert(heap@.drop_last() == h2);
            lemma_merge_step(h0, (count1, least1), h1, (count2, least2), h2, t0);
            lemma_leaves_step(t0, h0, (count1, least1), h1, (count2, least2), h2, ((count1 + count2) as i64, fork));
            assert(heap@ == h2.push(((count1 + count2) as i64, Node::Fork(t0.len() as usize, (t0.len() + 1) as usize))));
        }
    }
    let ghost last_heap = heap@;
    proof {
        assert forall|s: int| 0 <= s < n implies node_under(tree@, last_heap[0].1, s) by {
            assert(heap_covers(tree@, last_heap, s));
        }
        assert(last_heap.drop_last().len() == 0);
    }
    let root = match heap.pop() {
        Some((_, root)) => root,
        None => Node::Leaf(0),
    };
    let ghost t0 = tree@;
    proof {
        assert(root == last_heap[0].1);
        assert(last_heap.last() == last_heap[0]);
        assert(heap_forks(last_heap.drop_last()) == 0);
        assert(heap_forks(last_heap) == (if root is Fork { 1nat } else { 0nat }));
        lemma_merge_last(last_heap, t0);
        lemma_leaves_last(t0, last_heap);
    }
    tree.push(root);
    proof {
        let t = tree@;
        lemma_count_forks_push(t0, root, 0, t0.len() as int);
        assert(t[t0.len() as int] == last_heap[0].1);
        assert forall|p: int| 0 <= p < t.len() && (#[trigger] t[p]) is Fork implies fork_first(t[p]) % 2 == 0 by {
            if p < t0.len() {
                assert(t[p] == t0[p]);
            }
        }
        assert forall|p1: int, p2: int|
            0 <= p1 < p2 < t.len() && (#[trigger] t[p1]) is Fork && (#[trigger] t[p2]) is Fork implies fork_first(t[p1]) != fork_first(t[p2]) by {
            assert(t[p1] == t0[p1]);
            if p2 < t0.len() {
                assert(t[p2] == t0[p2]);
            }
        }
        assert forall|s: int| 0 <= s < n implies #[trigger] under(t, t.len() - 1, s) by {
            assert(node_under(t0, root, s));
            if let Node::Fork(a, b) = root {
                lemma_under_push(t0, root, a as int, s);
                lemma_under_push(t0, root, b as int, s);
            }
        }
    }
    tree
}

/// The sum of counts.
pub open spec fn sum_counts(counts: Seq<i64>) -> int
    decreases counts.len(),
{
    if counts.len() == 0 {
        0
    } else {
        sum_counts(counts.drop_last()) + counts.last()
    }
}

proof fn lemma_sum_counts_take(counts: Seq<i64>, i: int)
    requires
        0 <= i < counts.len(),
        forall|k: int| 0 <= k < counts.len() ==> 0 <= #[trigger] counts[k],
    ensures
        sum_counts(counts.take(i + 1)) == sum_counts(counts.take(i)) + counts[i],
        sum_counts(counts.take(i + 1)) <= sum_counts(counts),
    decreases counts.len(),
{
    assert(counts.take(i + 1).drop_last() == counts.take(i));
    if i + 1 < counts.len() {
        lemma_sum_counts_take(counts.drop_last(), i);
        assert(counts.drop_last().take(i + 1) == counts.take(i + 1));
        assert(counts.drop_last().take(i) == counts.take(i));
    } else {
        assert(counts.take(i + 1) == counts);
    }
}


/// Position `q` is a child of a visited fork.
pub open spec fn has_parent(tree: Seq<Node>, visited: Set<int>, q: int) -> bool {
    exists|p: int|
        visited.contains(p) && 0 <= p < tree.len() && #[trigger] tree[p] is Fork && (q == fork_first(tree[p]) || q
            == fork_first(tree[p]) + 1)
}

/// A position that is a child of the fork at `p` is a child of no other fork.
proof fn lemma_parent_unique(tree: Seq<Node>, p: int, q: int, c: int)
    requires
        forks_distinct(tree, Seq::empty()),
        0 <= p < tree.len(),
        0 <= q < tree.len(),
        tree[p] is Fork,
        tree[q] is Fork,
        c == fork_first(tree[p]) || c == fork_first(tree[p]) + 1,
        c == fork_first(tree[q]) || c == fork_first(tree[q]) + 1,
    ensures
        p == q,
{
    assert(fork_first(tree[p]) % 2 == 0);
    assert(fork_first(tree[q]) % 2 == 0);
    if p < q {
        assert(fork_first(tree[p]) != fork_first(tree[q]));
    } else if q < p {
        assert(fork_first(tree[q]) != fork_first(tree[p]));
    }
}

/// Symbol `i` has a depth in `levels` (depth, symbol).
pub open spec fn has_level(levels: Seq<(usize, usize)>, i: int) -> bool {
    exists|k: int| 0 <= k < levels.len() && #[trigger] levels[k].1 == i
}

/// The leaf for symbol `i` lies under a node of `todo` (position, depth).
pub open spec fn pending(tree: Seq<Node>, todo: Seq<(usize, usize)>, i: int) -> bool {
    exists|t: int| 0 <= t < todo.len() && #[trigger] under(tree, todo[t].0 as int, i)
}

proof fn lemma_fork_weight(level: usize)
    requires
        level < 64,
    ensures
        level_weight(level) == 2 * level_weight((level + 1) as usize),
{
    assert((64 - level) as nat == ((64 - (level + 1)) as nat) + 1);
    lemma_pow2_adds((64 - (level + 1)) as nat, 1);
    vstd::arithmetic::power2::lemma2_to64();
}

proof fn lemma_measure_drop(a: nat, p: nat)
    requires
        a + 1 < p,
    ensures
        pow2(a) + pow2(a + 1) < pow2(p),
{
    lemma_pow2_adds(a, 1);
    lemma_pow2_adds(a, 2);
    vstd::arithmetic::power2::lemma2_to64();
    lemma_pow2_pos(a);
    if a + 2 < p {
        lemma_pow2_strictly_increases(a + 2, p);
    }
}

/// No leaf lies more than 57 forks below the root.
pub open spec fn depths_bounded(tree: Seq<Node>, n: nat) -> bool {
    forall|i: int, d: nat| 0 <= i < n && #[trigger] leaf_at_depth(tree, i, d) ==> d <= 57
}

/// Below a node at depth `d` lies a leaf at depth `d` or more.
proof fn lemma_deeper_leaf(tree: Seq<Node>, n: nat, p: int, d: nat) -> (r: (int, nat))
    requires
        tree_ok(tree, n),
        0 <= p < tree.len(),
        at_depth(tree, p, d),
    ensures
        0 <= r.0 < n,
        r.1 >= d,
        r.1 == d <==> tree[p] is Leaf,
        leaf_at_depth(tree, r.0, r.1),
    decreases p,
{
    match tree[p] {
        Node::Leaf(j) => {
            assert(tree[p] == Node::Leaf(j as usize));
            (j as int, d)
        },
        Node::Fork(a, b) => {
            assert(child_of(tree, p, a as int));
            assert(at_depth(tree, a as int, d + 1));
            let r = lemma_deeper_leaf(tree, n, a as int, d + 1);
            r
        },
    }
}

/// The tree the depth-first walk runs over.
pub open spec fn walk_tree_ok(tree: Seq<Node>, n: nat) -> bool {
    &&& tree.len() > 0
    &&& 2 <= n
    &&& tree_ok(tree, n)
    &&& depths_bounded(tree, n)
    &&& count_forks(tree, 0, tree.len() as int) == n - 1
    &&& forks_distinct(tree, Seq::empty())
}

/// Each position to visit has a depth no greater than the forks after it; the root's depth
/// is zero.
pub open spec fn walk_todo_ok(tree: Seq<Node>, todo: Seq<(usize, usize)>) -> bool {
    forall|t: int|
        0 <= t < todo.len() ==> (#[trigger] todo[t]).0 < tree.len() && todo[t].1 <= count_forks(
            tree,
            todo[t].0 + 1,
            tree.len() as int,
        ) && (todo[t].1 == 0 ==> tree[todo[t].0 as int] is Fork)
}

/// The depths found and to find keep the weight of the whole tree.
pub open spec fn walk_weight_ok(todo: Seq<(usize, usize)>, levels: Seq<(usize, usize)>, n: nat) -> bool {
    &&& todo_weight(todo) + levels_weight(levels) == pow2(64)
    &&& forall|k: int| 0 <= k < levels.len() ==> 1 <= (#[trigger] levels[k]).0 <= 57 && levels[k].1 < n
}

/// Each symbol has a depth or lies under a position to visit.
pub open spec fn walk_cover_ok(tree: Seq<Node>, n: nat, todo: Seq<(usize, usize)>, levels: Seq<(usize, usize)>) -> bool {
    forall|i: int| 0 <= i < n ==> #[trigger] has_level(levels, i) || pending(tree, todo, i)
}

/// Positions are visited at most once, and every visited or waiting position but the root
/// is a child of a visited fork.
pub open spec fn walk_visit_ok(tree: Seq<Node>, todo: Seq<(usize, usize)>, levels: Seq<(usize, usize)>, visited: Set<int>) -> bool {
    let len = tree.len() as int;
    &&& visited.finite()
    &&& visited.subset_of(vstd::set_lib::set_int_range(0, len))
    &&& levels.len() <= visited.len()
    &&& forall|t: int| 0 <= t < todo.len() ==> !visited.contains((#[trigger] todo[t]).0 as int)
    &&& forall|t1: int, t2: int| 0 <= t1 < t2 < todo.len() ==> (#[trigger] todo[t1]).0 != (#[trigger] todo[t2]).0
    &&& forall|q: int| #![trigger visited.contains(q)] visited.contains(q) && q != len - 1 ==> has_parent(tree, visited, q)
    &&& forall|t: int| 0 <= t < todo.len() && (#[trigger] todo[t]).0 != len - 1 ==> has_parent(tree, visited, todo[t].0 as int)
}

proof fn lemma_walk_measure(todo: Seq<(usize, usize)>)
    requires
        todo.len() > 0,
    ensures
        todo_measure(todo) == todo_measure(todo.drop_last()) + pow2(todo.last().0 as nat),
        todo_weight(todo) == todo_weight(todo.drop_last()) + level_weight(todo.last().1),
        pow2(todo.last().0 as nat) > 0,
{
    lemma_todo_measure_push(todo.drop_last(), todo.last());
    assert(todo.drop_last().push(todo.last()) == todo);
    lemma_pow2_pos(todo.last().0 as nat);
}

proof fn lemma_walk_visit_pop(tree: Seq<Node>, todo: Seq<(usize, usize)>, levels: Seq<(usize, usize)>, visited: Set<int>)
    requires
        walk_visit_ok(tree, todo, levels, visited),
        walk_todo_ok(tree, todo),
        todo.len() > 0,
    ensures
        ({
            let pos = todo.last().0;
            let rest = todo.drop_last();
            let v = visited.insert(pos as int);
            &&& !visited.contains(pos as int)
            &&& v.len() == visited.len() + 1
            &&& v.finite()
            &&& v.subset_of(vstd::set_lib::set_int_range(0, tree.len() as int))
            &&& forall|t: int| 0 <= t < rest.len() ==> (#[trigger] rest[t]).0 != pos
            &&& forall|t: int| 0 <= t < rest.len() ==> !v.contains((#[trigger] rest[t]).0 as int)
            &&& forall|t1: int, t2: int| 0 <= t1 < t2 < rest.len() ==> (#[trigger] rest[t1]).0 != (#[trigger] rest[t2]).0
            &&& forall|q: int| #![trigger v.contains(q)] v.contains(q) && q != tree.len() - 1 ==> has_parent(tree, v, q)
            &&& forall|t: int| 0 <= t < rest.len() && (#[trigger] rest[t]).0 != tree.len() - 1 ==> has_parent(tree, v, rest[t].0 as int)
        }),
{
    let len = tree.len() as int;
    let pos = todo.last().0;
    let rest = todo.drop_last();
    let v = visited.insert(pos as int);
    assert(todo[todo.len() - 1].0 == pos);
    assert(!visited.contains(pos as int));
    assert(pos < tree.len());
    assert forall|t: int| 0 <= t < rest.len() implies (#[trigger] rest[t]).0 != pos by {
        assert(rest[t] == todo[t]);
        assert(todo[t].0 != todo[todo.len() - 1].0);
    }
    assert forall|t: int| 0 <= t < rest.len() implies !v.contains((#[trigger] rest[t]).0 as int) by {
        assert(rest[t] == todo[t]);
    }
    assert forall|t1: int, t2: int| 0 <= t1 < t2 < rest.len() implies (#[trigger] rest[t1]).0 != (#[trigger] rest[t2]).0 by {
        assert(rest[t1] == todo[t1] && rest[t2] == todo[t2]);
    }
    assert forall|q: int| #![trigger v.contains(q)] v.contains(q) && q != len - 1 implies has_parent(tree, v, q) by {
        if q == pos {
            assert(has_parent(tree, visited, todo[todo.len() - 1].0 as int));
        } else {
            assert(has_parent(tree, visited, q));
        }
        let pp = choose|pp: int|
            visited.contains(pp) && 0 <= pp < tree.len() && #[trigger] tree[pp] is Fork && (q == fork_first(tree[pp]) || q
                == fork_first(tree[pp]) + 1);
        assert(v.contains(pp));
    }
    assert forall|t: int| 0 <= t < rest.len() && (#[trigger] rest[t]).0 != len - 1 implies has_parent(tree, v, rest[t].0 as int) by {
        assert(rest[t] == todo[t]);
        assert(has_parent(tree, visited, todo[t].0 as int));
        let q = todo[t].0 as int;
        let pp = choose|pp: int|
            visited.contains(pp) && 0 <= pp < tree.len() && #[trigger] tree[pp] is Fork && (q == fork_first(tree[pp]) || q
                == fork_first(tree[pp]) + 1);
        assert(v.contains(pp));
    }
}

proof fn lemma_walk_leaf_visit(
    tree: Seq<Node>,
    todo: Seq<(usize, usize)>,
    levels: Seq<(usize, usize)>,
    visited: Set<int>,
    sym: usize,
)
    requires
        walk_todo_ok(tree, todo),
        walk_visit_ok(tree, todo, levels, visited),
        todo.len() > 0,
    ensures
        walk_visit_ok(tree, todo.drop_last(), levels.push((todo.last().1, sym)), visited.insert(todo.last().0 as int)),
{
    lemma_walk_visit_pop(tree, todo, levels, visited);
}

proof fn lemma_walk_leaf(
    tree: Seq<Node>,
    n: nat,
    todo: Seq<(usize, usize)>,
    levels: Seq<(usize, usize)>,
    sym: usize,
)
    requires
        walk_tree_ok(tree, n),
        walk_todo_ok(tree, todo),
        walk_weight_ok(todo, levels, n),
        walk_cover_ok(tree, n, todo, levels),
        todo.len() > 0,
        tree[todo.last().0 as int] == Node::Leaf(sym),
        at_depth(tree, todo.last().0 as int, todo.last().1 as nat),
    ensures
        walk_todo_ok(tree, todo.drop_last()),
        walk_weight_ok(todo.drop_last(), levels.push((todo.last().1, sym)), n),
        walk_cover_ok(tree, n, todo.drop_last(), levels.push((todo.last().1, sym))),
        todo_measure(todo.drop_last()) < todo_measure(todo),
{
    let (pos, level) = todo.last();
    let rest = todo.drop_last();
    let nl = levels.push((level, sym));
    assert(todo[todo.len() - 1] == (pos, level));
    assert(leaf_at_depth(tree, sym as int, level as nat));
    assert(sym < n);
    lemma_walk_measure(todo);
    lemma_levels_weight_push(levels, (level, sym));
    assert(todo[todo.len() - 1] == (pos, level));
    lemma_count_forks_split(tree, 0, pos as int + 1, tree.len() as int);
    lemma_count_forks_bound(tree, 0, pos as int + 1);
    assert forall|t: int|
        0 <= t < rest.len() implies (#[trigger] rest[t]).0 < tree.len() && rest[t].1 <= count_forks(tree, rest[t].0 + 1, tree.len() as int) && (
        rest[t].1 == 0 ==> tree[rest[t].0 as int] is Fork) by {
        assert(rest[t] == todo[t]);
    }
    assert forall|i: int| 0 <= i < n implies #[trigger] has_level(nl, i) || pending(tree, rest, i) by {
        assert(has_level(levels, i) || pending(tree, todo, i));
        if has_level(levels, i) {
            let k = choose|k: int| 0 <= k < levels.len() && #[trigger] levels[k].1 == i;
            assert(nl[k] == levels[k]);
        } else {
            let t = choose|t: int| 0 <= t < todo.len() && #[trigger] under(tree, todo[t].0 as int, i);
            if t == todo.len() - 1 {
                assert(nl[nl.len() - 1].1 == i);
            } else {
                assert(rest[t] == todo[t]);
                assert(under(tree, rest[t].0 as int, i));
            }
        }
    }
}

/// A child of the fork at the last waiting position is neither visited nor waiting.
proof fn lemma_child_fresh(tree: Seq<Node>, n: nat, todo: Seq<(usize, usize)>, visited: Set<int>, c: int)
    requires
        walk_tree_ok(tree, n),
        walk_todo_ok(tree, todo),
        visited.finite(),
        forall|t: int| 0 <= t < todo.len() ==> !visited.contains((#[trigger] todo[t]).0 as int),
        forall|t1: int, t2: int| 0 <= t1 < t2 < todo.len() ==> (#[trigger] todo[t1]).0 != (#[trigger] todo[t2]).0,
        forall|q: int| #![trigger visited.contains(q)] visited.contains(q) && q != tree.len() - 1 ==> has_parent(tree, visited, q),
        forall|t: int| 0 <= t < todo.len() && (#[trigger] todo[t]).0 != tree.len() - 1 ==> has_parent(tree, visited, todo[t].0 as int),
        todo.len() > 0,
        tree[todo.last().0 as int] is Fork,
        c == fork_first(tree[todo.last().0 as int]) || c == fork_first(tree[todo.last().0 as int]) + 1,
    ensures
        !visited.contains(c),
        forall|t: int| 0 <= t < todo.len() ==> (#[trigger] todo[t]).0 != c,
{
    let pos = todo.last().0 as int;
    assert(todo[todo.len() - 1].0 == pos);
    assert(!visited.contains(pos));
    assert(pos < tree.len());
    assert(c < pos);
    if visited.contains(c) {
        assert(has_parent(tree, visited, c));
        let pp = choose|pp: int|
            visited.contains(pp) && 0 <= pp < tree.len() && #[trigger] tree[pp] is Fork && (c == fork_first(tree[pp]) || c
                == fork_first(tree[pp]) + 1);
        lemma_parent_unique(tree, pos, pp, c);
    }
    assert forall|t: int| 0 <= t < todo.len() implies (#[trigger] todo[t]).0 != c by {
        if todo[t].0 == c {
            assert(has_parent(tree, visited, todo[t].0 as int));
            let pp = choose|pp: int|
                visited.contains(pp) && 0 <= pp < tree.len() && #[trigger] tree[pp] is Fork && (c == fork_first(tree[pp]) || c
                    == fork_first(tree[pp]) + 1);
            lemma_parent_unique(tree, pos, pp, c);
        }
    }
}

proof fn lemma_walk_fork_visit(
    tree: Seq<Node>,
    n: nat,
    todo: Seq<(usize, usize)>,
    levels: Seq<(usize, usize)>,
    visited: Set<int>,
    a: usize,
    b: usize,
)
    requires
        walk_tree_ok(tree, n),
        walk_todo_ok(tree, todo),
        walk_visit_ok(tree, todo, levels, visited),
        todo.len() > 0,
        tree[todo.last().0 as int] == Node::Fork(a, b),
    ensures
        walk_visit_ok(
            tree,
            todo.drop_last().push((a, (todo.last().1 + 1) as usize)).push((b, (todo.last().1 + 1) as usize)),
            levels,
            visited.insert(todo.last().0 as int),
        ),
{
    let len = tree.len() as int;
    let (pos, level) = todo.last();
    let rest = todo.drop_last();
    let v = visited.insert(pos as int);
    let nlevel = (level + 1) as usize;
    let nt = rest.push((a, nlevel)).push((b, nlevel));
    lemma_walk_visit_pop(tree, todo, levels, visited);
    assert(b == a + 1);
    assert(fork_first(tree[pos as int]) == a);
    lemma_child_fresh(tree, n, todo, visited, a as int);
    lemma_child_fresh(tree, n, todo, visited, b as int);
    assert(a < pos && b < pos);
    assert forall|t: int| 0 <= t < rest.len() implies (#[trigger] rest[t]).0 != a && rest[t].0 != b by {
        assert(rest[t] == todo[t]);
    }
    assert forall|t: int| 0 <= t < nt.len() implies !v.contains((#[trigger] nt[t]).0 as int) by {
        if t < rest.len() {
            assert(nt[t] == rest[t]);
        }
    }
    assert forall|t1: int, t2: int| 0 <= t1 < t2 < nt.len() implies (#[trigger] nt[t1]).0 != (#[trigger] nt[t2]).0 by {
        if t2 < rest.len() {
            assert(nt[t1] == rest[t1] && nt[t2] == rest[t2]);
        } else if t1 < rest.len() {
            assert(nt[t1] == rest[t1]);
        }
    }
    assert forall|t: int| 0 <= t < nt.len() && (#[trigger] nt[t]).0 != len - 1 implies has_parent(tree, v, nt[t].0 as int) by {
        if t < rest.len() {
            assert(nt[t] == rest[t]);
        } else {
            assert(v.contains(pos as int));
            assert(tree[pos as int] is Fork);
        }
    }
}

proof fn lemma_walk_fork(
    tree: Seq<Node>,
    n: nat,
    todo: Seq<(usize, usize)>,
    levels: Seq<(usize, usize)>,
    a: usize,
    b: usize,
)
    requires
        walk_tree_ok(tree, n),
        walk_todo_ok(tree, todo),
        walk_weight_ok(todo, levels, n),
        walk_cover_ok(tree, n, todo, levels),
        todo.len() > 0,
        tree[todo.last().0 as int] == Node::Fork(a, b),
        at_depth(tree, todo.last().0 as int, todo.last().1 as nat),
    ensures
        todo.last().1 < 57,
        walk_todo_ok(tree, todo.drop_last().push((a, (todo.last().1 + 1) as usize)).push((b, (todo.last().1 + 1) as usize))),
        walk_weight_ok(todo.drop_last().push((a, (todo.last().1 + 1) as usize)).push((b, (todo.last().1 + 1) as usize)), levels, n),
        walk_cover_ok(tree, n, todo.drop_last().push((a, (todo.last().1 + 1) as usize)).push((b, (todo.last().1 + 1) as usize)), levels),
        todo_measure(todo.drop_last().push((a, (todo.last().1 + 1) as usize)).push((b, (todo.last().1 + 1) as usize)))
            < todo_measure(todo),
{
    let len = tree.len() as int;
    let (pos, level) = todo.last();
    let rest = todo.drop_last();
    let nlevel = (level + 1) as usize;
    let mid = rest.push((a, nlevel));
    let nt = mid.push((b, nlevel));
    lemma_walk_measure(todo);
    assert(todo[todo.len() - 1] == (pos, level));
    assert(b == a + 1 && b < pos);
    let deep = lemma_deeper_leaf(tree, n, pos as int, level as nat);
    assert(deep.1 <= 57);
    lemma_count_forks_split(tree, 0, pos as int + 1, len);
    lemma_count_forks_bound(tree, 0, pos as int + 1);
    lemma_count_forks_split(tree, a as int + 1, pos as int, pos as int + 1);
    lemma_count_forks_split(tree, a as int + 1, pos as int + 1, len);
    lemma_count_forks_split(tree, b as int + 1, pos as int, pos as int + 1);
    lemma_count_forks_split(tree, b as int + 1, pos as int + 1, len);
    lemma_count_forks_split(tree, 0, a as int + 1, len);
    lemma_count_forks_bound(tree, 0, a as int + 1);
    lemma_fork_weight(level);
    lemma_measure_drop(a as nat, pos as nat);
    lemma_todo_measure_push(rest, (a, nlevel));
    lemma_todo_measure_push(mid, (b, nlevel));
    assert forall|t: int|
        0 <= t < nt.len() implies (#[trigger] nt[t]).0 < len && nt[t].1 <= count_forks(tree, nt[t].0 + 1, len) && (
        nt[t].1 == 0 ==> tree[nt[t].0 as int] is Fork) by {
        if t < rest.len() {
            assert(nt[t] == todo[t]);
        }
    }
    assert forall|i: int| 0 <= i < n implies #[trigger] has_level(levels, i) || pending(tree, nt, i) by {
        assert(has_level(levels, i) || pending(tree, todo, i));
        if !has_level(levels, i) {
            let t = choose|t: int| 0 <= t < todo.len() && #[trigger] under(tree, todo[t].0 as int, i);
            if t == todo.len() - 1 {
                assert(todo[t].0 == pos);
                assert(under(tree, pos as int, i));
                if under(tree, a as int, i) {
                    assert(nt[rest.len() as int].0 == a);
                    assert(under(tree, nt[rest.len() as int].0 as int, i));
                } else {
                    assert(nt[rest.len() as int + 1].0 == b);
                    assert(under(tree, nt[rest.len() as int + 1].0 as int, i));
                }
            } else {
                assert(nt[t] == todo[t]);
                assert(under(tree, nt[t].0 as int, i));
            }
        }
    }
}

/// The depths of the leaves of the tree, in the order in which a depth-first walk from the
/// root (the last node) meets them, each with its symbol.
#[verifier::rlimit(60)]
pub fn leaf_levels(tree: &Vec<Node>, n: usize) -> (levels: Vec<(usize, usize)>)
    requires
        2 <= n,
        depths_bounded(tree@, n as nat),
        tree@.len() > 0,
        tree_ok(tree@, n as nat),
        tree@.last() is Fork,
        count_forks(tree@, 0, tree@.len() as int) == n - 1,
        forall|i: int| 0 <= i < n ==> #[trigger] under(tree@, tree@.len() - 1, i),
        forks_distinct(tree@, Seq::empty()),
    ensures
        levels@.len() <= tree@.len(),
        levels_weight(levels@) == pow2(64),
        forall|k: int|
            0 <= k < levels@.len() ==> 1 <= (#[trigger] levels@[k]).0 <= 57 && levels@[k].1 < n,
        forall|i: int| 0 <= i < n ==> #[trigger] has_level(levels@, i),
        forall|k: int| 0 <= k < levels@.len() ==> leaf_at_depth(tree@, (#[trigger] levels@[k]).1 as int, levels@[k].0 as nat),
{
    let len = tree.len();
    let mut levels: Vec<(usize, usize)> = Vec::new();
    let mut todo: Vec<(usize, usize)> = Vec::new();
    let ghost mut visited: Set<int> = Set::empty();
    todo.push((len - 1, 0));
    proof {
        lemma_todo_measure_push(Seq::empty(), ((len - 1) as usize, 0usize));
        assert(todo@ == Seq::<(usize, usize)>::empty().push(((len - 1) as usize, 0usize)));
        vstd::arithmetic::power2::lemma2_to64();
        lemma_count_forks_split(tree@, 0, len as int, len as int);
        assert forall|i: int| 0 <= i < n implies #[trigger] pending(tree@, todo@, i) by {
            assert(under(tree@, todo@[0].0 as int, i));
        }
        assert(visited.subset_of(vstd::set_lib::set_int_range(0, len as int)));
        assert(at_depth(tree@, todo@[0].0 as int, 0));
        reveal(todo_at_depth);
        reveal(levels_at_depth);
    }
    loop
        invariant
            len == tree@.len(),
            walk_tree_ok(tree@, n as nat),
            walk_todo_ok(tree@, todo@),
            walk_weight_ok(todo@, levels@, n as nat),
            walk_cover_ok(tree@, n as nat, todo@, levels@),
            walk_visit_ok(tree@, todo@, levels@, visited),
            todo_at_depth(tree@, todo@),
            levels_at_depth(tree@, levels@),
        ensures
            levels_at_depth(tree@, levels@),
            levels@.len() <= len,
            levels_weight(levels@) == pow2(64),
            forall|k: int|
                0 <= k < levels@.len() ==> 1 <= (#[trigger] levels@[k]).0 <= 57 && levels@[k].1 < n,
            forall|i: int| 0 <= i < n ==> #[trigger] has_level(levels@, i),
        decreases todo_measure(todo@),
    {
        let ghost before = todo@;
        let ghost before_levels = levels@;
        let ghost v0 = visited;
        let popped = todo.pop();
        match popped {
            None => {
                proof {
                    vstd::set_lib::lemma_int_range(0, len as int);
                    vstd::set_lib::lemma_len_subset(visited, vstd::set_lib::set_int_range(0, len as int));
                    assert forall|i: int| 0 <= i < n implies #[trigger] has_level(levels@, i) by {
                        assert(has_level(levels@, i) || pending(tree@, todo@, i));
                    }
                    assert(todo_weight(todo@) == 0);
                }
                break;
            },
            Some((pos, level)) => {
                proof {
                    assert(before.drop_last() == todo@);
                    assert(before.last() == (pos, level));
                    visited = visited.insert(pos as int);
                    lemma_todo_last_depth(tree@, before);
                }
                match tree[pos] {
                    Node::Leaf(sym) => {
                        proof {
                            lemma_walk_leaf(tree@, n as nat, before, before_levels, sym);
                            lemma_walk_leaf_visit(tree@, before, before_levels, v0, sym);
                            lemma_depth_leaf(tree@, before, before_levels, sym);
                        }
                        levels.push((level, sym));
                    },
                    Node::Fork(a, b) => {
                        proof {
                            lemma_walk_fork(tree@, n as nat, before, before_levels, a, b);
                            lemma_walk_fork_visit(tree@, n as nat, before, before_levels, v0, a, b);
                        }
                        proof {
                            lemma_depth_fork(tree@, before, a, b);
                        }
                        todo.push((a, level + 1));
                        todo.push((b, level + 1));
                        proof {
                            assert(todo@ == before.drop_last().push((a, (level + 1) as usize)).push((b, (level + 1) as usize)));
                        }
                    },
                }
            },
        }
    }
    proof {
        reveal(levels_at_depth);
    }
    levels
}

/// Each pending node of a walk lies at the depth recorded beside it.
#[verifier::opaque]
spec fn todo_at_depth(tree: Seq<Node>, todo: Seq<(usize, usize)>) -> bool {
    forall|t: int| 0 <= t < todo.len() ==> at_depth(tree, (#[trigger] todo[t]).0 as int, todo[t].1 as nat)
}

/// Each recorded depth is that of a leaf for the recorded symbol.
#[verifier::opaque]
spec fn levels_at_depth(tree: Seq<Node>, levels: Seq<(usize, usize)>) -> bool {
    forall|k: int| 0 <= k < levels.len() ==> leaf_at_depth(tree, (#[trigger] levels[k]).1 as int, levels[k].0 as nat)
}

proof fn lemma_todo_last_depth(tree: Seq<Node>, todo: Seq<(usize, usize)>)
    requires
        todo_at_depth(tree, todo),
        todo.len() > 0,
    ensures
        at_depth(tree, todo.last().0 as int, todo.last().1 as nat),
{
    reveal(todo_at_depth);
    assert(at_depth(tree, todo[todo.len() - 1].0 as int, todo[todo.len() - 1].1 as nat));
}

proof fn lemma_depth_leaf(tree: Seq<Node>, before: Seq<(usize, usize)>, levels: Seq<(usize, usize)>, sym: usize)
    requires
        todo_at_depth(tree, before),
        levels_at_depth(tree, levels),
        before.len() > 0,
        before.last().0 < tree.len(),
        tree[before.last().0 as int] == Node::Leaf(sym),
    ensures
        todo_at_depth(tree, before.drop_last()),
        levels_at_depth(tree, levels.push((before.last().1, sym))),
{
    reveal(todo_at_depth);
    reveal(levels_at_depth);
    let last = before.last();
    assert(at_depth(tree, before[before.len() - 1].0 as int, before[before.len() - 1].1 as nat));
    assert(leaf_at_depth(tree, sym as int, last.1 as nat));
    let nl = levels.push((last.1, sym));
    assert forall|k: int| 0 <= k < nl.len() implies leaf_at_depth(tree, (#[trigger] nl[k]).1 as int, nl[k].0 as nat) by {
        if k < levels.len() {
            assert(nl[k] == levels[k]);
        }
    }
    let nt = before.drop_last();
    assert forall|t: int| 0 <= t < nt.len() implies at_depth(tree, (#[trigger] nt[t]).0 as int, nt[t].1 as nat) by {
        assert(nt[t] == before[t]);
    }
}

proof fn lemma_depth_fork(tree: Seq<Node>, before: Seq<(usize, usize)>, a: usize, b: usize)
    requires
        todo_at_depth(tree, before),
        before.len() > 0,
        before.last().0 < tree.len(),
        before.last().1 + 1 <= usize::MAX,
        tree[before.last().0 as int] == Node::Fork(a, b),
    ensures
        todo_at_depth(tree, before.drop_last().push((a, (before.last().1 + 1) as usize)).push((b, (before.last().1 + 1) as usize))),
{
    reveal(todo_at_depth);
    let last = before.last();
    let pos = last.0 as int;
    let d = (last.1 + 1) as usize;
    assert(at_depth(tree, before[before.len() - 1].0 as int, before[before.len() - 1].1 as nat));
    assert(child_of(tree, pos, a as int));
    assert(child_of(tree, pos, b as int));
    assert(at_depth(tree, a as int, d as nat));
    assert(at_depth(tree, b as int, d as nat));
    let nt = before.drop_last().push((a, d)).push((b, d));
    assert forall|t: int| 0 <= t < nt.len() implies at_depth(tree, (#[trigger] nt[t]).0 as int, nt[t].1 as nat) by {
        if t < before.len() - 1 {
            assert(nt[t] == before[t]);
        }
    }
}

pub proof fn lemma_levels_weight_concat(a: Seq<(usize, usize)>, b: Seq<(usize, usize)>)
    ensures
        levels_weight(a + b) == levels_weight(a) + levels_weight(b),
    decreases b.len(),
{
    if b.len() == 0 {
        assert(a + b == a);
    } else {
        lemma_levels_weight_concat(a, b.drop_last());
        assert((a + b).drop_last() == a + b.drop_last());
    }
}

proof fn lemma_levels_weight_swap(s: Seq<(usize, usize)>, j: int)
    requires
        0 < j < s.len(),
    ensures
        levels_weight(s.update(j, s[j - 1]).update(j - 1, s[j])) == levels_weight(s),
{
    let t = s.update(j, s[j - 1]).update(j - 1, s[j]);
    let p = s.take(j - 1);
    let q = s.skip(j + 1);
    assert(s == p + seq![s[j - 1], s[j]] + q);
    assert(t == p + seq![s[j], s[j - 1]] + q);
    lemma_levels_weight_concat(p + seq![s[j - 1], s[j]], q);
    lemma_levels_weight_concat(p + seq![s[j], s[j - 1]], q);
    lemma_levels_weight_concat(p, seq![s[j - 1], s[j]]);
    lemma_levels_weight_concat(p, seq![s[j], s[j - 1]]);
    let x = s[j - 1];
    let y = s[j];
    lemma_levels_weight_push(Seq::empty(), x);
    lemma_levels_weight_push(Seq::empty(), y);
    lemma_levels_weight_push(seq![x], y);
    lemma_levels_weight_push(seq![y], x);
    assert(Seq::<(usize, usize)>::empty().push(x) == seq![x]);
    assert(Seq::<(usize, usize)>::empty().push(y) == seq![y]);
    assert(seq![x].push(y) == seq![x, y]);
    assert(seq![y].push(x) == seq![y, x]);
}

/// Depths ordered from shallow to deep.
pub open spec fn sorted_by_level(s: Seq<(usize, usize)>) -> bool {
    forall|a: int, b: int| 0 <= a <= b < s.len() ==> (#[trigger] s[a]).0 <= (#[trigger] s[b]).0
}

/// Sorts the depths from shallow to deep, keeping the order of equal depths.
pub fn sort_levels(levels: &mut Vec<(usize, usize)>, n: usize)
    requires
        levels_weight(old(levels)@) == pow2(64),
        forall|k: int|
            0 <= k < old(levels)@.len() ==> 1 <= (#[trigger] old(levels)@[k]).0 <= 57 && old(levels)@[k].1 < n,
        forall|i: int| 0 <= i < n ==> #[trigger] has_level(old(levels)@, i),
    ensures
        final(levels)@.len() == old(levels)@.len(),
        sorted_by_level(final(levels)@),
        levels_weight(final(levels)@) == pow2(64),
        forall|k: int|
            0 <= k < final(levels)@.len() ==> 1 <= (#[trigger] final(levels)@[k]).0 <= 57 && final(levels)@[k].1 < n,
        forall|i: int| 0 <= i < n ==> #[trigger] has_level(final(levels)@, i),
        forall|k: int| 0 <= k < final(levels)@.len() ==> #[trigger] old(levels)@.contains(final(levels)@[k]),
{
    let len = levels.len();
    let mut i: usize = 1;
    if len == 0 {
        return;
    }
    proof {
        assert forall|k: int| 0 <= k < levels@.len() implies #[trigger] old(levels)@.contains(levels@[k]) by {
            assert(old(levels)@[k] == levels@[k]);
        }
    }
    while i < len
        invariant
            1 <= i <= len,
            len == levels@.len(),
            sorted_by_level(levels@.take(i as int)),
            levels_weight(levels@) == pow2(64),
            forall|k: int|
                0 <= k < levels@.len() ==> 1 <= (#[trigger] levels@[k]).0 <= 57 && levels@[k].1 < n,
            forall|x: int| 0 <= x < n ==> #[trigger] has_level(levels@, x),
            forall|k: int| 0 <= k < levels@.len() ==> #[trigger] old(levels)@.contains(levels@[k]),
        decreases len - i,
    {
        let mut j: usize = i;
        proof {
            assert forall|a: int, b: int| 0 <= a < b < j implies (#[trigger] levels@[a]).0 <= (#[trigger] levels@[b]).0 by {
                assert(levels@.take(i as int)[a] == levels@[a]);
                assert(levels@.take(i as int)[b] == levels@[b]);
            }
        }
        while j > 0 && levels[j - 1].0 > levels[j].0
            invariant
                0 <= j <= i < len,
                len == levels@.len(),
                forall|a: int, b: int| 0 <= a < b < j ==> (#[trigger] levels@[a]).0 <= (#[trigger] levels@[b]).0,
                forall|a: int, b: int| j < a < b <= i ==> (#[trigger] levels@[a]).0 <= (#[trigger] levels@[b]).0,
                forall|a: int, b: int| 0 <= a < j && j < b <= i ==> (#[trigger] levels@[a]).0 <= (#[trigger] levels@[b]).0,
                forall|b: int| j < b <= i ==> levels@[j as int].0 < (#[trigger] levels@[b]).0,
                levels_weight(levels@) == pow2(64),
                forall|k: int|
                    0 <= k < levels@.len() ==> 1 <= (#[trigger] levels@[k]).0 <= 57 && levels@[k].1 < n,
                forall|x: int| 0 <= x < n ==> #[trigger] has_level(levels@, x),
                forall|k: int| 0 <= k < levels@.len() ==> #[trigger] old(levels)@.contains(levels@[k]),
            decreases j,
        {
            let ghost s = levels@;
            let x = levels[j];
            let y = levels[j - 1];
            levels.set(j, y);
            levels.set(j - 1, x);
            proof {
                assert(levels@ == s.update(j as int, s[j - 1]).update(j - 1, s[j as int]));
                lemma_levels_weight_swap(s, j as int);
                assert forall|k: int| 0 <= k < levels@.len() implies #[trigger] old(levels)@.contains(levels@[k]) by {
                    if k == j {
                        assert(old(levels)@.contains(s[j - 1]));
                    } else if k == j - 1 {
                        assert(old(levels)@.contains(s[j as int]));
                    } else {
                        assert(old(levels)@.contains(s[k]));
                    }
                }
                assert forall|v: int| 0 <= v < n implies #[trigger] has_level(levels@, v) by {
                    assert(has_level(s, v));
                    let k = choose|k: int| 0 <= k < s.len() && #[trigger] s[k].1 == v;
                    if k == j {
                        assert(levels@[j - 1].1 == v);
                    } else if k == j - 1 {
                        assert(levels@[j as int].1 == v);
                    } else {
                        assert(levels@[k].1 == v);
                    }
                }
            }
            j = j - 1;
        }
        proof {
            assert forall|a: int, b: int| 0 <= a <= b < i + 1 implies (#[trigger] levels@.take(i + 1)[a]).0
                <= (#[trigger] levels@.take(i + 1)[b]).0 by {
                assert(levels@.take(i + 1)[a] == levels@[a]);
                assert(levels@.take(i + 1)[b] == levels@[b]);
                if a < j && b == j {
                    assert(levels@[j - 1].0 <= levels@[j as int].0);
                    if a < j - 1 {
                        assert(levels@[a].0 <= levels@[j - 1].0);
                    }
                }
            }
        }
        i = i + 1;
    }
    proof {
        assert(levels@.take(len as int) == levels@);
    }
}
} // verus!
