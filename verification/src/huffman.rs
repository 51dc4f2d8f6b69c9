//! Huffman coding of byte strings: building the code tree from the bytes' frequencies,
//! and encoding and decoding with it.
//!
//! The tree is kept in a vector of nodes; an internal node refers to its children by
//! their positions, which are smaller than its own.

use vstd::prelude::*;

verus! {

/// A node of a Huffman tree.
#[derive(Debug, Clone, Copy, PartialEq, Eq, Structural)]
pub enum HuffmanNode {
    /// A byte and its number of occurrences.
    Leaf { ch: u8, freq: usize },
    /// The joint frequency of two subtrees, which stand at the positions `left` and `right`.
    Internal { freq: usize, left: usize, right: usize },
}

/// The frequency that node `n` records.
pub open spec fn node_freq(n: HuffmanNode) -> usize {
    match n {
        HuffmanNode::Leaf { freq, .. } => freq,
        HuffmanNode::Internal { freq, .. } => freq,
    }
}

impl HuffmanNode {
    /// The frequency that this node records.
    pub fn freq(&self) -> (f: usize)
        ensures
            f == node_freq(*self),
    {
        match self {
            HuffmanNode::Leaf { freq, .. } => *freq,
            HuffmanNode::Internal { freq, .. } => *freq,
        }
    }
}

/// The number of occurrences of byte `c` in `s`.
pub open spec fn count_byte(s: Seq<u8>, c: u8) -> nat
    decreases s.len(),
{
    if s.len() == 0 {
        0
    } else {
        count_byte(s.drop_last(), c) + if s.last() == c {
            1nat
        } else {
            0nat
        }
    }
}

/// The node reached from node `k` by the step `bit` (`false` to the left child, `true` to
/// the right one); -1 from a leaf.
pub open spec fn step(nodes: Seq<HuffmanNode>, k: int, bit: bool) -> int {
    match nodes[k] {
        HuffmanNode::Internal { left, right, .. } => if bit {
            right as int
        } else {
            left as int
        },
        HuffmanNode::Leaf { .. } => -1,
    }
}

/// The node reached from node `k` along the path `p`, through internal nodes; -1 when the
/// path leaves the tree.
pub open spec fn walk(nodes: Seq<HuffmanNode>, k: int, p: Seq<bool>) -> int
    decreases p.len(),
{
    if p.len() == 0 {
        k
    } else if 0 <= k < nodes.len() && nodes[k] is Internal {
        walk(nodes, step(nodes, k, p[0]), p.drop_first())
    } else {
        -1
    }
}

/// The path `p` leads from node `k` to a leaf of byte `c`.
pub open spec fn leads_to(nodes: Seq<HuffmanNode>, k: int, p: Seq<bool>, c: u8) -> bool {
    let t = walk(nodes, k, p);
    0 <= t < nodes.len() && nodes[t] == (HuffmanNode::Leaf { ch: c, freq: node_freq(nodes[t]) })
}

/// Some path leads from node `k` to a leaf of byte `c`.
pub open spec fn has_leaf(nodes: Seq<HuffmanNode>, k: int, c: u8) -> bool {
    exists|p: Seq<bool>| #[trigger] leads_to(nodes, k, p, c)
}

/// The code of byte `c`: the path from the root to its leaf.
pub open spec fn code_of(nodes: Seq<HuffmanNode>, root: int, c: u8) -> Seq<bool> {
    choose|p: Seq<bool>| #[trigger] leads_to(nodes, root, p, c)
}

/// The number of times node `k` is a child of one of the first `n` nodes.
pub open spec fn child_count(nodes: Seq<HuffmanNode>, n: int, k: int) -> nat
    decreases n,
{
    if n <= 0 {
        0
    } else {
        child_count(nodes, n - 1, k) + match nodes[n - 1] {
            HuffmanNode::Internal { left, right, .. } => (if left == k {
                1nat
            } else {
                0nat
            }) + (if right == k {
                1nat
            } else {
                0nat
            }),
            HuffmanNode::Leaf { .. } => 0nat,
        }
    }
}

/// The children of each internal node stand before it.
pub open spec fn children_before(nodes: Seq<HuffmanNode>) -> bool {
    forall|k: int|
        0 <= k < nodes.len() ==> match #[trigger] nodes[k] {
            HuffmanNode::Internal { left, right, .. } => left < k && right < k,
            HuffmanNode::Leaf { .. } => true,
        }
}

/// The nodes form one tree with root `root`: every other node is a child exactly once, the
/// root never, and no two leaves hold the same byte.
pub open spec fn is_code_tree(nodes: Seq<HuffmanNode>, root: int) -> bool {
    &&& 0 <= root < nodes.len()
    &&& children_before(nodes)
    &&& child_count(nodes, nodes.len() as int, root) == 0
    &&& forall|k: int|
        0 <= k < nodes.len() && k != root ==> #[trigger] child_count(nodes, nodes.len() as int, k)
            == 1
    &&& forall|k1: int, k2: int|
        0 <= k1 < nodes.len() && 0 <= k2 < nodes.len() && k1 != k2 && #[trigger] nodes[k1] is Leaf
            && #[trigger] nodes[k2] is Leaf ==> nodes[k1]->Leaf_ch != nodes[k2]->Leaf_ch
}

/// Extending a path by one step extends the walk by one step.
proof fn lemma_walk_push(nodes: Seq<HuffmanNode>, k: int, p: Seq<bool>, b: bool)
    ensures
        walk(nodes, k, p.push(b)) == {
            let w = walk(nodes, k, p);
            if 0 <= w < nodes.len() && nodes[w] is Internal {
                step(nodes, w, b)
            } else {
                -1
            }
        },
    decreases p.len(),
{
    if p.len() == 0 {
        assert(p.push(b).drop_first() =~= Seq::<bool>::empty());
        assert(p.push(b)[0] == b);
        if 0 <= k < nodes.len() && nodes[k] is Internal {
            assert(walk(nodes, step(nodes, k, b), Seq::<bool>::empty()) == step(nodes, k, b));
        }
    } else {
        assert(p.push(b).drop_first() =~= p.drop_first().push(b));
        assert(p.push(b)[0] == p[0]);
        if 0 <= k < nodes.len() && nodes[k] is Internal {
            lemma_walk_push(nodes, step(nodes, k, p[0]), p.drop_first(), b);
        }
    }
}

/// Walks from a node stay among the nodes before it, so appending nodes does not change them.
proof fn lemma_walk_append(nodes: Seq<HuffmanNode>, x: HuffmanNode, k: int, p: Seq<bool>)
    requires
        children_before(nodes),
        0 <= k < nodes.len(),
    ensures
        walk(nodes.push(x), k, p) == walk(nodes, k, p),
    decreases p.len(),
{
    if p.len() > 0 && nodes[k] is Internal {
        lemma_walk_append(nodes, x, step(nodes, k, p[0]), p.drop_first());
    }
}

/// The count of children among the first `n` nodes depends on those nodes only.
proof fn lemma_child_count_prefix(a: Seq<HuffmanNode>, b: Seq<HuffmanNode>, n: int, k: int)
    requires
        0 <= n <= a.len(),
        n <= b.len(),
        forall|i: int| 0 <= i < n ==> a[i] == b[i],
    ensures
        child_count(a, n, k) == child_count(b, n, k),
    decreases n,
{
    if n > 0 {
        lemma_child_count_prefix(a, b, n - 1, k);
    }
}

/// A node that is some node's child is counted as a child.
proof fn lemma_child_count_pos(nodes: Seq<HuffmanNode>, n: int, j: int, s: bool)
    requires
        0 <= j < n <= nodes.len(),
        nodes[j] is Internal,
    ensures
        child_count(nodes, n, step(nodes, j, s)) >= 1,
    decreases n,
{
    if j < n - 1 {
        lemma_child_count_pos(nodes, n - 1, j, s);
    }
}

/// A node counted once as a child has one parent, by one side.
proof fn lemma_child_unique(
    nodes: Seq<HuffmanNode>,
    n: int,
    j1: int,
    s1: bool,
    j2: int,
    s2: bool,
)
    requires
        0 <= j1 < n <= nodes.len(),
        0 <= j2 < n,
        nodes[j1] is Internal,
        nodes[j2] is Internal,
        step(nodes, j1, s1) == step(nodes, j2, s2),
        child_count(nodes, n, step(nodes, j1, s1)) == 1,
    ensures
        j1 == j2,
        s1 == s2,
    decreases n,
{
    let t = step(nodes, j1, s1);
    if j1 < n - 1 && j2 < n - 1 {
        lemma_child_count_pos(nodes, n - 1, j1, s1);
        lemma_child_unique(nodes, n - 1, j1, s1, j2, s2);
    } else if j1 < n - 1 {
        lemma_child_count_pos(nodes, n - 1, j1, s1);
    } else if j2 < n - 1 {
        lemma_child_count_pos(nodes, n - 1, j2, s2);
    }
}

/// A node counted as a child has a parent.
proof fn lemma_child_parent(nodes: Seq<HuffmanNode>, n: int, t: int) -> (js: (int, bool))
    requires
        0 <= n <= nodes.len(),
        child_count(nodes, n, t) >= 1,
    ensures
        0 <= js.0 < n,
        nodes[js.0] is Internal,
        step(nodes, js.0, js.1) == t,
    decreases n,
{
    if child_count(nodes, n - 1, t) >= 1 {
        lemma_child_parent(nodes, n - 1, t)
    } else {
        match nodes[n - 1] {
            HuffmanNode::Internal { left, right, .. } => {
                if left == t {
                    (n - 1, false)
                } else {
                    (n - 1, true)
                }
            },
            HuffmanNode::Leaf { .. } => (0, false),
        }
    }
}

/// In a code tree, one path at most leads from the root to any node.
proof fn lemma_path_unique(nodes: Seq<HuffmanNode>, root: int, p: Seq<bool>, q: Seq<bool>)
    requires
        is_code_tree(nodes, root),
        0 <= walk(nodes, root, p) < nodes.len(),
        walk(nodes, root, p) == walk(nodes, root, q),
    ensures
        p == q,
    decreases p.len(),
{
    let n = nodes.len() as int;
    let t = walk(nodes, root, p);
    if p.len() > 0 {
        assert(p =~= p.drop_last().push(p.last()));
        lemma_walk_push(nodes, root, p.drop_last(), p.last());
        let j1 = walk(nodes, root, p.drop_last());
        lemma_child_count_pos(nodes, n, j1, p.last());
    }
    if q.len() > 0 {
        assert(q =~= q.drop_last().push(q.last()));
        lemma_walk_push(nodes, root, q.drop_last(), q.last());
        let j2 = walk(nodes, root, q.drop_last());
        lemma_child_count_pos(nodes, n, j2, q.last());
    }
    if p.len() > 0 && q.len() > 0 {
        let j1 = walk(nodes, root, p.drop_last());
        let j2 = walk(nodes, root, q.drop_last());
        lemma_child_unique(nodes, n, j1, p.last(), j2, q.last());
        lemma_path_unique(nodes, root, p.drop_last(), q.drop_last());
    }
}

/// In a code tree every node is reached from the root.
proof fn lemma_reachable(nodes: Seq<HuffmanNode>, root: int, k: int) -> (p: Seq<bool>)
    requires
        is_code_tree(nodes, root),
        0 <= k < nodes.len(),
    ensures
        walk(nodes, root, p) == k,
    decreases nodes.len() - k,
{
    if k == root {
        Seq::empty()
    } else {
        let js = lemma_child_parent(nodes, nodes.len() as int, k);
        let pj = lemma_reachable(nodes, root, js.0);
        lemma_walk_push(nodes, root, pj, js.1);
        pj.push(js.1)
    }
}

/// `count_byte` never exceeds the length.
proof fn lemma_count_byte_le(s: Seq<u8>, c: u8)
    ensures
        count_byte(s, c) <= s.len(),
    decreases s.len(),
{
    if s.len() > 0 {
        lemma_count_byte_le(s.drop_last(), c);
    }
}

/// A byte that occurs is at some position.
proof fn lemma_count_byte_pos(s: Seq<u8>, c: u8) -> (i: int)
    requires
        count_byte(s, c) > 0,
    ensures
        0 <= i < s.len(),
        s[i] == c,
    decreases s.len(),
{
    if s.last() == c {
        s.len() - 1
    } else {
        lemma_count_byte_pos(s.drop_last(), c)
    }
}

/// A byte at some position occurs.
proof fn lemma_count_byte_at(s: Seq<u8>, i: int)
    requires
        0 <= i < s.len(),
    ensures
        count_byte(s, s[i]) > 0,
    decreases s.len(),
{
    if i < s.len() - 1 {
        lemma_count_byte_at(s.drop_last(), i);
    }
}

/// The number of bytes of `s` that are less than `m`.
pub open spec fn count_below(s: Seq<u8>, m: int) -> nat
    decreases m,
{
    if m <= 0 {
        0
    } else {
        count_below(s, m - 1) + count_byte(s, (m - 1) as u8)
    }
}

proof fn lemma_count_below_last(s: Seq<u8>, m: int)
    requires
        s.len() > 0,
        0 <= m <= 256,
    ensures
        count_below(s, m) == count_below(s.drop_last(), m) + if (s.last() as int) < m {
            1nat
        } else {
            0nat
        },
    decreases m,
{
    if m > 0 {
        lemma_count_below_last(s, m - 1);
        assert(((m - 1) as u8) as int == m - 1);
    }
}

proof fn lemma_count_below_all(s: Seq<u8>)
    ensures
        count_below(s, 256) == s.len(),
    decreases s.len(),
{
    if s.len() == 0 {
        assert forall|m: int| 0 <= m <= 256 implies count_below(s, m) == 0 by {
            lemma_count_below_empty(s, m);
        }
    } else {
        lemma_count_below_last(s, 256);
        lemma_count_below_all(s.drop_last());
    }
}

proof fn lemma_count_below_empty(s: Seq<u8>, m: int)
    requires
        s.len() == 0,
    ensures
        count_below(s, m) == 0,
    decreases m,
{
    if m > 0 {
        lemma_count_below_empty(s, m - 1);
    }
}

proof fn lemma_count_below_mono(s: Seq<u8>, m: int, m2: int)
    requires
        m <= m2,
    ensures
        count_below(s, m) <= count_below(s, m2),
    decreases m2 - m,
{
    if m < m2 {
        lemma_count_below_mono(s, m, m2 - 1);
    }
}

/// An entry of the priority queue that builds the tree: a node's position and frequency.
#[derive(Debug, Clone, Copy, PartialEq, Eq, Structural)]
pub struct HeapNode {
    pub index: usize,
    pub freq: usize,
}

/// Some entry of `h` refers to node `k`.
pub open spec fn heap_has(h: Seq<HeapNode>, k: int) -> bool {
    exists|q: int| 0 <= q < h.len() && #[trigger] h[q].index == k
}

/// The sum of the frequencies of the entries of `h`.
pub open spec fn freq_total(h: Seq<HeapNode>) -> nat
    decreases h.len(),
{
    if h.len() == 0 {
        0
    } else {
        freq_total(h.drop_last()) + h.last().freq as nat
    }
}

proof fn lemma_freq_total_remove(h: Seq<HeapNode>, i: int)
    requires
        0 <= i < h.len(),
    ensures
        freq_total(h.remove(i)) + h[i].freq == freq_total(h),
    decreases h.len(),
{
    if i < h.len() - 1 {
        assert(h.remove(i).drop_last() =~= h.drop_last().remove(i));
        lemma_freq_total_remove(h.drop_last(), i);
    } else {
        assert(h.remove(i) =~= h.drop_last());
    }
}

/// No node is a child of nodes that stand before it, where children stand before parents.
proof fn lemma_child_count_new(nodes: Seq<HuffmanNode>, n: int, k: int)
    requires
        children_before(nodes),
        0 <= n <= nodes.len(),
        n <= k,
    ensures
        child_count(nodes, n, k) == 0,
    decreases n,
{
    if n > 0 {
        lemma_child_count_new(nodes, n - 1, k);
    }
}

/// The position of an entry of least frequency: the first such entry.
fn min_position(heap: &Vec<HeapNode>) -> (pos: usize)
    requires
        heap@.len() >= 1,
    ensures
        pos < heap@.len(),
        forall|q: int| 0 <= q < heap@.len() ==> heap@[pos as int].freq <= #[trigger] heap@[q].freq,
        forall|q: int| 0 <= q < pos ==> heap@[pos as int].freq < #[trigger] heap@[q].freq,
{
    let mut pos: usize = 0;
    let n = heap.len();
    for q in 1..n
        invariant
            n == heap@.len(),
            pos < n,
            pos < q,
            forall|r: int| 0 <= r < q ==> heap@[pos as int].freq <= #[trigger] heap@[r].freq,
            forall|r: int| 0 <= r < pos ==> heap@[pos as int].freq < #[trigger] heap@[r].freq,
    {
        if heap[q].freq < heap[pos].freq {
            pos = q;
        }
    }
    pos
}

/// The leaves hold the bytes that occur in `text`, each with its number of occurrences,
/// and every internal node the sum of its children's frequencies.
#[verifier::opaque]
pub open spec fn frequencies_of(nodes: Seq<HuffmanNode>, text: Seq<u8>) -> bool {
    forall|k: int|
        0 <= k < nodes.len() ==> match #[trigger] nodes[k] {
            HuffmanNode::Leaf { ch, freq } => freq == count_byte(text, ch) && freq > 0,
            HuffmanNode::Internal { freq, left, right, .. } => freq == node_freq(nodes[left as int])
                + node_freq(nodes[right as int]),
        }
}

/// `nodes`, with root `root`, is a Huffman tree of `text`: a code tree with a leaf for
/// every byte that occurs in `text` and for no other, and the frequencies of `text`.
pub open spec fn tree_of(nodes: Seq<HuffmanNode>, root: int, text: Seq<u8>) -> bool {
    &&& is_code_tree(nodes, root)
    &&& frequencies_of(nodes, text)
    &&& forall|c: u8| #[trigger] has_leaf(nodes, root, c) <==> count_byte(text, c) > 0
    &&& (nodes[root] is Internal <==> exists|i: int, j: int|
        0 <= i < text.len() && 0 <= j < text.len() && text[i] != text[j])
}

/// The leaves hold distinct bytes.
#[verifier::opaque]
pub open spec fn leaves_distinct(nodes: Seq<HuffmanNode>) -> bool {
    forall|k1: int, k2: int|
        0 <= k1 < nodes.len() && 0 <= k2 < nodes.len() && k1 != k2 && #[trigger] nodes[k1] is Leaf
            && #[trigger] nodes[k2] is Leaf ==> nodes[k1]->Leaf_ch != nodes[k2]->Leaf_ch
}

/// Every byte below `m` that occurs in `text` has a leaf with its number of occurrences.
#[verifier::opaque]
pub open spec fn leaves_for(nodes: Seq<HuffmanNode>, text: Seq<u8>, m: int) -> bool {
    forall|c: int|
        0 <= c < m && #[trigger] count_byte(text, c as u8) > 0 ==> exists|k: int|
            0 <= k < nodes.len() && #[trigger] nodes[k] == (HuffmanNode::Leaf {
                ch: c as u8,
                freq: count_byte(text, c as u8) as usize,
            })
}

/// Every entry of `heap` refers to a node that is nobody's child, with its frequency.
#[verifier::opaque]
pub open spec fn heap_entries_ok(nodes: Seq<HuffmanNode>, heap: Seq<HeapNode>) -> bool {
    forall|q: int|
        0 <= q < heap.len() ==> #[trigger] heap[q].index < nodes.len() && heap[q].freq == node_freq(
            nodes[heap[q].index as int],
        ) && child_count(nodes, nodes.len() as int, heap[q].index as int) == 0
}

/// No two entries of `heap` refer to the same node.
#[verifier::opaque]
pub open spec fn heap_distinct(heap: Seq<HeapNode>) -> bool {
    forall|q1: int, q2: int|
        0 <= q1 < heap.len() && 0 <= q2 < heap.len() && q1 != q2 ==> #[trigger] heap[q1].index
            != #[trigger] heap[q2].index
}

/// Every node is either the child of exactly one node or referred to by an entry of `heap`.
#[verifier::opaque]
pub open spec fn counts_ok(nodes: Seq<HuffmanNode>, heap: Seq<HeapNode>) -> bool {
    forall|k: int|
        0 <= k < nodes.len() ==> #[trigger] child_count(nodes, nodes.len() as int, k) == 0
            && heap_has(heap, k) || child_count(nodes, nodes.len() as int, k) == 1
}

/// The state of the tree building: a forest whose roots are the entries of `heap`.
#[verifier::opaque]
pub open spec fn forest_inv(nodes: Seq<HuffmanNode>, heap: Seq<HeapNode>, text: Seq<u8>) -> bool {
    &&& heap.len() >= 1
    &&& children_before(nodes)
    &&& frequencies_of(nodes, text)
    &&& leaves_distinct(nodes)
    &&& leaves_for(nodes, text, 256)
    &&& heap_entries_ok(nodes, heap)
    &&& heap_distinct(heap)
    &&& counts_ok(nodes, heap)
    &&& freq_total(heap) <= text.len()
}

proof fn lemma_forest_elim(nodes: Seq<HuffmanNode>, heap: Seq<HeapNode>, text: Seq<u8>)
    requires
        forest_inv(nodes, heap, text),
    ensures
        heap.len() >= 1,
        children_before(nodes),
        frequencies_of(nodes, text),
        leaves_distinct(nodes),
        leaves_for(nodes, text, 256),
        heap_entries_ok(nodes, heap),
        heap_distinct(heap),
        counts_ok(nodes, heap),
        freq_total(heap) <= text.len(),
{
    reveal(forest_inv);
}

proof fn lemma_forest_intro(nodes: Seq<HuffmanNode>, heap: Seq<HeapNode>, text: Seq<u8>)
    requires
        heap.len() >= 1,
        children_before(nodes),
        frequencies_of(nodes, text),
        leaves_distinct(nodes),
        leaves_for(nodes, text, 256),
        heap_entries_ok(nodes, heap),
        heap_distinct(heap),
        counts_ok(nodes, heap),
        freq_total(heap) <= text.len(),
    ensures
        forest_inv(nodes, heap, text),
{
    reveal(forest_inv);
}

proof fn lemma_heap_entry(nodes: Seq<HuffmanNode>, heap: Seq<HeapNode>, q: int)
    requires
        heap_entries_ok(nodes, heap),
        0 <= q < heap.len(),
    ensures
        heap[q].index < nodes.len(),
        heap[q].freq == node_freq(nodes[heap[q].index as int]),
        child_count(nodes, nodes.len() as int, heap[q].index as int) == 0,
{
    reveal(heap_entries_ok);
}

proof fn lemma_forest_facts(nodes: Seq<HuffmanNode>, heap: Seq<HeapNode>, text: Seq<u8>)
    requires
        forest_inv(nodes, heap, text),
    ensures
        heap.len() >= 1,
        freq_total(heap) <= text.len(),
{
    reveal(forest_inv);
}

/// The number of occurrences of every byte in `text`.
fn count_frequencies(text: &[u8]) -> (freq_map: Vec<usize>)
    ensures
        freq_map@.len() == 256,
        forall|c: int| 0 <= c < 256 ==> #[trigger] freq_map@[c] == count_byte(text@, c as u8),
{
    let ghost t = text@;
    let mut freq_map: Vec<usize> = vec![0usize; 256];
    let n = text.len();
    for i in 0..n
        invariant
            n == t.len(),
            t == text@,
            freq_map@.len() == 256,
            forall|c: int| 0 <= c < 256 ==> #[trigger] freq_map@[c] == count_byte(
                t.take(i as int),
                c as u8,
            ),
    {
        let byte = text[i];
        proof {
            assert(t.take(i + 1).drop_last() =~= t.take(i as int));
            lemma_count_byte_le(t.take(i as int), byte);
        }
        let f = freq_map[byte as usize];
        freq_map.set(byte as usize, f + 1);
        proof {
            assert forall|c: int| 0 <= c < 256 implies #[trigger] freq_map@[c] == count_byte(
                t.take(i + 1),
                c as u8,
            ) by {
                assert((c as u8) as int == c);
            }
        }
    }
    assert(t.take(n as int) =~= t);
    freq_map
}

/// Adding a leaf and its queue entry keeps every entry at the position of its node.
proof fn lemma_leaf_entries_push(nodes: Seq<HuffmanNode>, heap: Seq<HeapNode>, leaf: HuffmanNode, entry: HeapNode)
    requires
        nodes.len() == heap.len(),
        forall|q: int| 0 <= q < heap.len() ==> #[trigger] heap[q].index == q && heap[q].freq == node_freq(nodes[q]),
        entry.index == nodes.len(),
        entry.freq == node_freq(leaf),
    ensures
        forall|q: int|
            0 <= q < heap.len() + 1 ==> #[trigger] heap.push(entry)[q].index == q && heap.push(entry)[q].freq
                == node_freq(nodes.push(leaf)[q]),
{
    let h2 = heap.push(entry);
    let n2 = nodes.push(leaf);
    assert forall|q: int| 0 <= q < heap.len() + 1 implies #[trigger] h2[q].index == q && h2[q].freq == node_freq(
        n2[q],
    ) by {
        if q < heap.len() {
            assert(h2[q] == heap[q]);
            assert(n2[q] == nodes[q]);
        }
    }
}

/// A leaf for every byte that occurs, in increasing order, and a queue entry for each.
#[verifier::spinoff_prover]
fn make_leaves(freq_map: &Vec<usize>, Ghost(t): Ghost<Seq<u8>>) -> (res: (
    Vec<HuffmanNode>,
    Vec<HeapNode>,
))
    requires
        t.len() > 0,
        freq_map@.len() == 256,
        forall|c: int| 0 <= c < 256 ==> #[trigger] freq_map@[c] == count_byte(t, c as u8),
    ensures
        forest_inv(res.0@, res.1@, t),
        res.0@.len() == res.1@.len(),
        res.0@.len() <= 256,
        forall|k: int| 0 <= k < res.0@.len() ==> #[trigger] res.0@[k] is Leaf,
        forall|q: int| 0 <= q < res.1@.len() ==> #[trigger] res.1@[q].index == q,
        leaves_in_byte_order(res.0@),
        res.1@.len() >= 2 <==> exists|i: int, j: int|
            0 <= i < t.len() && 0 <= j < t.len() && t[i] != t[j],
{
    let mut nodes: Vec<HuffmanNode> = Vec::new();
    let mut heap: Vec<HeapNode> = Vec::new();
    proof {
        reveal(frequencies_of);
        reveal(leaves_for);
    }
    for ch in 0..256usize
        invariant
            freq_map@.len() == 256,
            forall|c: int| 0 <= c < 256 ==> #[trigger] freq_map@[c] == count_byte(t, c as u8),
            nodes@.len() == heap@.len(),
            nodes@.len() <= ch,
            forall|q: int|
                0 <= q < heap@.len() ==> #[trigger] heap@[q].index == q && heap@[q].freq
                    == node_freq(nodes@[q]),
            forall|k: int|
                0 <= k < nodes@.len() ==> #[trigger] nodes@[k] is Leaf && nodes@[k]->Leaf_ch < ch,
            forall|k1: int, k2: int|
                0 <= k1 < k2 < nodes@.len() ==> #[trigger] nodes@[k1]->Leaf_ch
                    < #[trigger] nodes@[k2]->Leaf_ch,
            leaves_for(nodes@, t, ch as int),
            frequencies_of(nodes@, t),
            freq_total(heap@) == count_below(t, ch as int),
    {
        let freq = freq_map[ch];
        let ghost old_nodes = nodes@;
        let ghost old_heap = heap@;
        proof {
            reveal(frequencies_of);
            reveal(leaves_for);
            assert((ch as u8) as int == ch);
        }
        if freq > 0 {
            let index = nodes.len();
            nodes.push(HuffmanNode::Leaf { ch: ch as u8, freq });
            heap.push(HeapNode { index, freq });
            proof {
                assert(heap@.drop_last() =~= old_heap);
                assert forall|c: int|
                    0 <= c < ch + 1 && #[trigger] count_byte(t, c as u8) > 0 implies exists|k: int|
                    0 <= k < nodes@.len() && #[trigger] nodes@[k] == (HuffmanNode::Leaf {
                        ch: c as u8,
                        freq: count_byte(t, c as u8) as usize,
                    }) by {
                    if c == ch {
                        assert(nodes@[index as int] == (HuffmanNode::Leaf {
                            ch: c as u8,
                            freq: count_byte(t, c as u8) as usize,
                        }));
                    } else {
                        let k = choose|k: int|
                            0 <= k < old_nodes.len() && #[trigger] old_nodes[k] == (
                            HuffmanNode::Leaf {
                                ch: c as u8,
                                freq: count_byte(t, c as u8) as usize,
                            });
                        assert(nodes@[k] == old_nodes[k]);
                    }
                }
                assert(heap@ == old_heap.push(HeapNode { index, freq }));
                assert(nodes@ == old_nodes.push(HuffmanNode::Leaf { ch: ch as u8, freq }));
                lemma_leaf_entries_push(
                    old_nodes,
                    old_heap,
                    HuffmanNode::Leaf { ch: ch as u8, freq },
                    HeapNode { index, freq },
                );
            }
        }
    }
    proof {
        reveal(forest_inv);
        reveal(frequencies_of);
        reveal(leaves_for);
        reveal(heap_entries_ok);
        reveal(heap_distinct);
        reveal(counts_ok);
        reveal(leaves_distinct);
        lemma_count_below_all(t);
        let nv = nodes@;
        let hv = heap@;
        assert forall|k: int| 0 <= k < nv.len() implies child_count(nv, nv.len() as int, k)
            == 0 by {
            lemma_child_count_leaves(nv, nv.len() as int, k);
        }
        assert forall|k: int| 0 <= k < nv.len() implies heap_has(hv, k) by {
            assert(hv[k].index == k);
        }
        assert forall|q1: int, q2: int|
            0 <= q1 < hv.len() && 0 <= q2 < hv.len() && q1 != q2 implies #[trigger] hv[q1].index
            != #[trigger] hv[q2].index by {
            assert(hv[q1].index == q1);
            assert(hv[q2].index == q2);
        }
        assert forall|k1: int, k2: int|
            0 <= k1 < nv.len() && 0 <= k2 < nv.len() && k1 != k2 && #[trigger] nv[k1] is Leaf
                && #[trigger] nv[k2] is Leaf implies nv[k1]->Leaf_ch != nv[k2]->Leaf_ch by {
            if k1 < k2 {
                assert(nv[k1]->Leaf_ch < nv[k2]->Leaf_ch);
            } else {
                assert(nv[k2]->Leaf_ch < nv[k1]->Leaf_ch);
            }
        }
        assert(nv.len() > 0) by {
            lemma_count_byte_at(t, 0);
            assert((t[0] as int) as u8 == t[0]);
        }
        // two leaves exactly when two distinct bytes occur
        if exists|i: int, j: int| 0 <= i < t.len() && 0 <= j < t.len() && t[i] != t[j] {
            let (i, j) = choose|i: int, j: int|
                0 <= i < t.len() && 0 <= j < t.len() && t[i] != t[j];
            lemma_count_byte_at(t, i);
            lemma_count_byte_at(t, j);
            assert((t[i] as int) as u8 == t[i]);
            assert((t[j] as int) as u8 == t[j]);
            let ki = choose|k: int|
                0 <= k < nv.len() && #[trigger] nv[k] == (HuffmanNode::Leaf {
                    ch: t[i],
                    freq: count_byte(t, t[i]) as usize,
                });
            let kj = choose|k: int|
                0 <= k < nv.len() && #[trigger] nv[k] == (HuffmanNode::Leaf {
                    ch: t[j],
                    freq: count_byte(t, t[j]) as usize,
                });
            assert(ki != kj);
        } else {
            if nv.len() >= 2 {
                let c0 = nv[0]->Leaf_ch;
                let c1 = nv[1]->Leaf_ch;
                assert(count_byte(t, c0) > 0);
                assert(count_byte(t, c1) > 0);
                let i0 = lemma_count_byte_pos(t, c0);
                let i1 = lemma_count_byte_pos(t, c1);
                assert(t[i0] != t[i1]);
            }
        }
        assert(freq_total(hv) <= t.len()) by {
            lemma_count_below_mono(t, 256, 256);
        }
    }
    (nodes, heap)
}

/// The position in `h0` of the entry at position `q` after removing the entries at `p1`
/// and then at `p2`.
spec fn orig_pos(p1: int, p2: int, q: int) -> int {
    let q1 = if q < p2 {
        q
    } else {
        q + 1
    };
    if q1 < p1 {
        q1
    } else {
        q1 + 1
    }
}

/// The position after removing the entries at `p1` and then at `p2` of the entry at
/// position `q0` of `h0`.
spec fn new_pos(p1: int, p2: int, q0: int) -> int {
    let q1 = if q0 < p1 {
        q0
    } else {
        q0 - 1
    };
    if q1 < p2 {
        q1
    } else {
        q1 - 1
    }
}

proof fn lemma_remove_two(h0: Seq<HeapNode>, p1: int, p2: int)
    requires
        0 <= p1 < h0.len(),
        0 <= p2 < h0.len() - 1,
    ensures
        ({
            let h2 = h0.remove(p1).remove(p2);
            let q2o = if p2 < p1 {
                p2
            } else {
                p2 + 1
            };
            &&& h0.remove(p1)[p2] == h0[q2o]
            &&& q2o != p1
            &&& 0 <= q2o < h0.len()
            &&& forall|q: int|
                0 <= q < h2.len() ==> #[trigger] h2[q] == h0[orig_pos(p1, p2, q)] && 0 <= orig_pos(
                    p1,
                    p2,
                    q,
                ) < h0.len() && orig_pos(p1, p2, q) != p1 && orig_pos(p1, p2, q) != q2o
            &&& forall|q0: int|
                0 <= q0 < h0.len() && q0 != p1 && q0 != q2o ==> 0 <= #[trigger] new_pos(p1, p2, q0)
                    < h2.len() && orig_pos(p1, p2, new_pos(p1, p2, q0)) == q0
        }),
{
}

/// The counts of children after appending a node with the children `a` and `b`.
proof fn lemma_counts_after_join(nodes0: Seq<HuffmanNode>, combined: usize, a: usize, b: usize)
    requires
        children_before(nodes0),
        0 <= a < nodes0.len(),
        0 <= b < nodes0.len(),
    ensures
        ({
            let len = nodes0.len() as int;
            let nodes = nodes0.push(
                HuffmanNode::Internal { freq: combined, left: a, right: b },
            );
            forall|k: int|
                0 <= k <= len ==> #[trigger] child_count(nodes, len + 1, k) == child_count(
                    nodes0,
                    len,
                    k,
                ) + (if k == a {
                    1nat
                } else {
                    0nat
                }) + (if k == b {
                    1nat
                } else {
                    0nat
                })
        }),
{
    let len = nodes0.len() as int;
    let nodes = nodes0.push(
        HuffmanNode::Internal { freq: combined, left: a, right: b },
    );
    assert forall|k: int| 0 <= k <= len implies #[trigger] child_count(nodes, len + 1, k)
        == child_count(nodes0, len, k) + (if k == a {
        1nat
    } else {
        0nat
    }) + (if k == b {
        1nat
    } else {
        0nat
    }) by {
        lemma_child_count_prefix(nodes, nodes0, len, k);
        if k == len {
            lemma_child_count_new(nodes0, len, k);
        }
    }
}

/// The queue entries after the join refer to the forest's roots.
proof fn lemma_heap_after_join(
    nodes0: Seq<HuffmanNode>,
    h0: Seq<HeapNode>,
    p1: int,
    p2: int,
    combined: usize,
)
    requires
        heap_entries_ok(nodes0, h0),
        heap_distinct(h0),
        children_before(nodes0),
        h0.len() >= 2,
        0 <= p1 < h0.len(),
        0 <= p2 < h0.len() - 1,
        nodes0.len() < usize::MAX,
        combined == h0[p1].freq + h0.remove(p1)[p2].freq,
    ensures
        ({
            let h1 = h0.remove(p1);
            let a = h0[p1].index;
            let b = h1[p2].index;
            let nodes = nodes0.push(
                HuffmanNode::Internal { freq: combined, left: a, right: b },
            );
            let heap = h1.remove(p2).push(
                HeapNode { index: nodes0.len() as usize, freq: combined },
            );
            &&& heap_entries_ok(nodes, heap)
            &&& heap_distinct(heap)
            &&& counts_ok(nodes0, h0) ==> counts_ok(nodes, heap)
        }),
{
    let h1 = h0.remove(p1);
    let h2 = h1.remove(p2);
    let a = h0[p1].index as int;
    let b = h1[p2].index as int;
    let len = nodes0.len() as int;
    let nodes = nodes0.push(
        HuffmanNode::Internal { freq: combined, left: a as usize, right: b as usize },
    );
    let heap = h2.push(HeapNode { index: len as usize, freq: combined });
    reveal(heap_entries_ok);
    reveal(heap_distinct);
    reveal(counts_ok);
    lemma_remove_two(h0, p1, p2);
    lemma_counts_after_join(nodes0, combined, a as usize, b as usize);
    assert(a != b);
    assert(heap[heap.len() - 1].index == len);
    assert forall|q: int| 0 <= q < h2.len() implies #[trigger] heap[q] == h2[q] by {}
    assert(heap_entries_ok(nodes, heap)) by {
        assert forall|q: int| 0 <= q < heap.len() implies #[trigger] heap[q].index < nodes.len()
            && heap[q].freq == node_freq(nodes[heap[q].index as int]) && child_count(
            nodes,
            nodes.len() as int,
            heap[q].index as int,
        ) == 0 by {
            if q < h2.len() {
                let q0 = orig_pos(p1, p2, q);
                assert(heap[q] == h0[q0]);
                assert(h0[q0].index != a);
                assert(h0[q0].index != b);
            } else {
                lemma_child_count_new(nodes0, len, len);
            }
        }
    }
    assert(heap_distinct(heap)) by {
        assert forall|x: int, y: int|
            0 <= x < heap.len() && 0 <= y < heap.len() && x != y implies #[trigger] heap[x].index
            != #[trigger] heap[y].index by {
            if x < h2.len() && y < h2.len() {
                assert(heap[x] == h0[orig_pos(p1, p2, x)]);
                assert(heap[y] == h0[orig_pos(p1, p2, y)]);
            } else if x < h2.len() {
                assert(heap[x] == h0[orig_pos(p1, p2, x)]);
            } else if y < h2.len() {
                assert(heap[y] == h0[orig_pos(p1, p2, y)]);
            }
        }
    }
    if counts_ok(nodes0, h0) {
        assert forall|k: int| 0 <= k < nodes.len() implies #[trigger] child_count(
            nodes,
            nodes.len() as int,
            k,
        ) == 0 && heap_has(heap, k) || child_count(nodes, nodes.len() as int, k) == 1 by {
            if k < len && k != a && k != b && child_count(nodes0, len, k) == 0 {
                let q0 = choose|q: int| 0 <= q < h0.len() && #[trigger] h0[q].index == k;
                let q = new_pos(p1, p2, q0);
                assert(heap[q] == h0[q0]);
            }
            if k == len {
                assert(heap[heap.len() - 1].index == k);
            }
        }
    }
}

/// Joining the two entries at positions `p1` of `h0` and `p2` of what remains under a new
/// node keeps the forest state.
proof fn lemma_merge(
    nodes0: Seq<HuffmanNode>,
    h0: Seq<HeapNode>,
    p1: int,
    p2: int,
    t: Seq<u8>,
    combined: usize,
)
    requires
        forest_inv(nodes0, h0, t),
        h0.len() >= 2,
        0 <= p1 < h0.len(),
        0 <= p2 < h0.len() - 1,
        nodes0.len() < usize::MAX,
        combined == h0[p1].freq + h0.remove(p1)[p2].freq,
    ensures
        ({
            let h1 = h0.remove(p1);
            let a = h0[p1].index;
            let b = h1[p2].index;
            let nodes = nodes0.push(
                HuffmanNode::Internal { freq: combined, left: a, right: b },
            );
            let heap = h1.remove(p2).push(
                HeapNode { index: nodes0.len() as usize, freq: combined },
            );
            forest_inv(nodes, heap, t)
        }),
{
    lemma_forest_elim(nodes0, h0, t);
    let h1 = h0.remove(p1);
    let h2 = h1.remove(p2);
    let a = h0[p1].index as int;
    let b = h1[p2].index as int;
    let len = nodes0.len() as int;
    let nodes = nodes0.push(
        HuffmanNode::Internal { freq: combined, left: a as usize, right: b as usize },
    );
    let heap = h2.push(HeapNode { index: len as usize, freq: combined });
    lemma_remove_two(h0, p1, p2);
    lemma_heap_entry(nodes0, h0, p1);
    lemma_heap_entry(nodes0, h0, if p2 < p1 { p2 } else { p2 + 1 });
    lemma_heap_after_join(nodes0, h0, p1, p2, combined);
    lemma_freq_total_remove(h0, p1);
    lemma_freq_total_remove(h1, p2);
    assert(heap.drop_last() =~= h2);
    lemma_append_internal(nodes0, combined, a as usize, b as usize, t);
    lemma_forest_intro(nodes, heap, t);
}

/// Appending an internal node over two earlier nodes keeps the properties of the nodes.
proof fn lemma_append_internal(nodes0: Seq<HuffmanNode>, f: usize, a: usize, b: usize, t: Seq<u8>)
    requires
        children_before(nodes0),
        frequencies_of(nodes0, t),
        leaves_distinct(nodes0),
        leaves_for(nodes0, t, 256),
        a < nodes0.len(),
        b < nodes0.len(),
        f == node_freq(nodes0[a as int]) + node_freq(nodes0[b as int]),
    ensures
        ({
            let nodes = nodes0.push(HuffmanNode::Internal { freq: f, left: a, right: b });
            &&& children_before(nodes)
            &&& frequencies_of(nodes, t)
            &&& leaves_distinct(nodes)
            &&& leaves_for(nodes, t, 256)
        }),
{
    let nodes = nodes0.push(HuffmanNode::Internal { freq: f, left: a, right: b });
    let len = nodes0.len() as int;
    reveal(frequencies_of);
    reveal(leaves_distinct);
    reveal(leaves_for);
    assert(forall|i: int| 0 <= i < len ==> nodes[i] == nodes0[i]);
    assert(children_before(nodes));
    assert(frequencies_of(nodes, t));
    assert(leaves_distinct(nodes));
    assert(leaves_for(nodes, t, 256)) by {
        assert forall|c: int|
            0 <= c < 256 && #[trigger] count_byte(t, c as u8) > 0 implies exists|k: int|
            0 <= k < nodes.len() && #[trigger] nodes[k] == (HuffmanNode::Leaf {
                ch: c as u8,
                freq: count_byte(t, c as u8) as usize,
            }) by {
            let k = choose|k: int|
                0 <= k < nodes0.len() && #[trigger] nodes0[k] == (HuffmanNode::Leaf {
                    ch: c as u8,
                    freq: count_byte(t, c as u8) as usize,
                });
            assert(nodes[k] == nodes0[k]);
        }
    }
}

/// The code table of a tree: for every byte, the path to its leaf, or `None` when no leaf
/// holds it.
pub open spec fn code_table(nodes: Seq<HuffmanNode>, root: int) -> Seq<Option<Seq<bool>>> {
    Seq::new(
        256,
        |c: int|
            if has_leaf(nodes, root, c as u8) {
                Some(code_of(nodes, root, c as u8))
            } else {
                None
            },
    )
}

/// The concatenated codes of the bytes of `t`; bytes without a leaf add nothing.
pub open spec fn encode_spec(nodes: Seq<HuffmanNode>, root: int, t: Seq<u8>) -> Seq<bool>
    decreases t.len(),
{
    if t.len() == 0 {
        Seq::empty()
    } else {
        (if has_leaf(nodes, root, t[0]) {
            code_of(nodes, root, t[0])
        } else {
            Seq::empty()
        }) + encode_spec(nodes, root, t.drop_first())
    }
}

/// A code as a sequence of bits.
pub open spec fn opt_view(o: Option<Vec<bool>>) -> Option<Seq<bool>> {
    match o {
        Some(v) => Some(v@),
        None => None,
    }
}

/// The byte of leaf `k`.
pub open spec fn leaf_byte(nodes: Seq<HuffmanNode>, k: int) -> u8 {
    nodes[k]->Leaf_ch
}

/// Decoding of `bits` from node `cur`: inner nodes follow the bits; at a leaf its byte is
/// emitted and the next bit is followed from the root. A walk that ends on a leaf emits its
/// byte.
pub open spec fn decode_from(nodes: Seq<HuffmanNode>, root: int, cur: int, bits: Seq<bool>) -> Seq<
    u8,
>
    decreases bits.len(),
{
    if bits.len() == 0 {
        if nodes[cur] is Leaf {
            seq![leaf_byte(nodes, cur)]
        } else {
            Seq::empty()
        }
    } else if nodes[cur] is Leaf {
        let next = if nodes[root] is Internal {
            step(nodes, root, bits[0])
        } else {
            root
        };
        seq![leaf_byte(nodes, cur)] + decode_from(nodes, root, next, bits.drop_first())
    } else {
        decode_from(nodes, root, step(nodes, cur, bits[0]), bits.drop_first())
    }
}

/// The bytes that `bits` decode to with the tree `nodes` rooted at `root`.
pub open spec fn decode_spec(nodes: Seq<HuffmanNode>, root: int, bits: Seq<bool>) -> Seq<u8> {
    decode_from(nodes, root, root, bits)
}

/// A path that leads to a leaf of `c` is the code of `c`.
proof fn lemma_code_unique(nodes: Seq<HuffmanNode>, root: int, p: Seq<bool>, c: u8)
    requires
        is_code_tree(nodes, root),
        leads_to(nodes, root, p, c),
    ensures
        has_leaf(nodes, root, c),
        code_of(nodes, root, c) == p,
{
    assert(has_leaf(nodes, root, c));
    let q = code_of(nodes, root, c);
    assert(leads_to(nodes, root, q, c));
    let wp = walk(nodes, root, p);
    let wq = walk(nodes, root, q);
    if wp != wq {
        assert(nodes[wp] is Leaf);
        assert(nodes[wq] is Leaf);
        assert(nodes[wp]->Leaf_ch != nodes[wq]->Leaf_ch);
    }
    lemma_path_unique(nodes, root, p, q);
}

/// A leaf reached from an internal node is reached from one of its children.
proof fn lemma_has_leaf_children(nodes: Seq<HuffmanNode>, k: int, c: u8)
    requires
        0 <= k < nodes.len(),
        nodes[k] is Internal,
        has_leaf(nodes, k, c),
    ensures
        has_leaf(nodes, step(nodes, k, false), c) || has_leaf(nodes, step(nodes, k, true), c),
{
    let p = choose|p: Seq<bool>| #[trigger] leads_to(nodes, k, p, c);
    assert(p.len() > 0);
    assert(leads_to(nodes, step(nodes, k, p[0]), p.drop_first(), c));
}

/// A leaf reached from a leaf is that leaf.
proof fn lemma_has_leaf_leaf(nodes: Seq<HuffmanNode>, k: int, c: u8)
    requires
        0 <= k < nodes.len(),
        nodes[k] is Leaf,
        has_leaf(nodes, k, c),
    ensures
        leaf_byte(nodes, k) == c,
{
    let p = choose|p: Seq<bool>| #[trigger] leads_to(nodes, k, p, c);
    if p.len() > 0 {
        assert(walk(nodes, k, p) == -1);
    }
}

/// Decoding along a path through internal nodes emits nothing.
proof fn lemma_decode_walk(
    nodes: Seq<HuffmanNode>,
    root: int,
    cur: int,
    p: Seq<bool>,
    rest: Seq<bool>,
)
    requires
        children_before(nodes),
        0 <= cur < nodes.len(),
        0 <= walk(nodes, cur, p) < nodes.len(),
    ensures
        decode_from(nodes, root, cur, p + rest) == decode_from(
            nodes,
            root,
            walk(nodes, cur, p),
            rest,
        ),
    decreases p.len(),
{
    if p.len() == 0 {
        assert(p + rest =~= rest);
    } else {
        assert((p + rest).drop_first() =~= p.drop_first() + rest);
        assert((p + rest)[0] == p[0]);
        lemma_decode_walk(nodes, root, step(nodes, cur, p[0]), p.drop_first(), rest);
    }
}

/// Decoding from a leaf emits its byte, then decodes the rest from the root.
proof fn lemma_decode_leaf(nodes: Seq<HuffmanNode>, root: int, leaf: int, rest: Seq<bool>)
    requires
        0 <= root < nodes.len(),
        nodes[root] is Internal,
        0 <= leaf < nodes.len(),
        nodes[leaf] is Leaf,
    ensures
        decode_from(nodes, root, leaf, rest) == seq![leaf_byte(nodes, leaf)] + decode_from(
            nodes,
            root,
            root,
            rest,
        ),
{
    if rest.len() == 0 {
        assert(seq![leaf_byte(nodes, leaf)] + Seq::<u8>::empty() =~= seq![leaf_byte(nodes, leaf)]);
    }
}

/// Decoding inverts encoding: with the Huffman tree of a text in which at least two
/// distinct bytes occur, the encoding of any byte string made of bytes of that text
/// decodes to the string itself.
pub proof fn lemma_decode_encode(nodes: Seq<HuffmanNode>, root: int, s: Seq<u8>, t: Seq<u8>)
    requires
        tree_of(nodes, root, s),
        exists|i: int, j: int| 0 <= i < s.len() && 0 <= j < s.len() && s[i] != s[j],
        forall|k: int| 0 <= k < t.len() ==> count_byte(s, #[trigger] t[k]) > 0,
    ensures
        decode_spec(nodes, root, encode_spec(nodes, root, t)) == t,
    decreases t.len(),
{
    if t.len() == 0 {
        assert(decode_spec(nodes, root, Seq::empty()) =~= Seq::<u8>::empty());
    } else {
        let c = t[0];
        assert(count_byte(s, t[0]) > 0);
        assert(has_leaf(nodes, root, c));
        let code = code_of(nodes, root, c);
        assert(leads_to(nodes, root, code, c));
        let leaf = walk(nodes, root, code);
        let rest = encode_spec(nodes, root, t.drop_first());
        assert forall|k: int| 0 <= k < t.drop_first().len() implies count_byte(
            s,
            #[trigger] t.drop_first()[k],
        ) > 0 by {
            assert(t.drop_first()[k] == t[k + 1]);
        }
        lemma_decode_encode(nodes, root, s, t.drop_first());
        lemma_decode_walk(nodes, root, root, code, rest);
        lemma_decode_leaf(nodes, root, leaf, rest);
        assert(seq![c] + t.drop_first() =~= t);
    }
}

/// The length of the code of byte `c`: the depth of its leaf, or 0 when no leaf holds it.
pub open spec fn code_len(nodes: Seq<HuffmanNode>, root: int, c: u8) -> nat {
    if has_leaf(nodes, root, c) {
        code_of(nodes, root, c).len()
    } else {
        0
    }
}

/// The sum, over the bytes below `m`, of the number of occurrences of the byte in `t` times
/// the length of its code.
pub open spec fn weighted_len(nodes: Seq<HuffmanNode>, root: int, t: Seq<u8>, m: int) -> nat
    decreases m,
{
    if m <= 0 {
        0
    } else {
        weighted_len(nodes, root, t, m - 1) + count_byte(t, (m - 1) as u8) * code_len(
            nodes,
            root,
            (m - 1) as u8,
        )
    }
}

/// Encoding a byte more appends its code.
proof fn lemma_encode_push(nodes: Seq<HuffmanNode>, root: int, t: Seq<u8>, x: u8)
    ensures
        encode_spec(nodes, root, t.push(x)) == encode_spec(nodes, root, t) + encode_spec(
            nodes,
            root,
            seq![x],
        ),
    decreases t.len(),
{
    let piece = encode_spec(nodes, root, seq![x]);
    assert(seq![x].drop_first() =~= Seq::<u8>::empty());
    assert(piece == (if has_leaf(nodes, root, x) {
        code_of(nodes, root, x)
    } else {
        Seq::empty()
    }) + encode_spec(nodes, root, Seq::<u8>::empty()));
    if t.len() == 0 {
        assert(t.push(x) =~= seq![x]);
        assert(Seq::<bool>::empty() + piece =~= piece);
    } else {
        assert(t.push(x).drop_first() =~= t.drop_first().push(x));
        assert(t.push(x)[0] == t[0]);
        lemma_encode_push(nodes, root, t.drop_first(), x);
        let head = if has_leaf(nodes, root, t[0]) {
            code_of(nodes, root, t[0])
        } else {
            Seq::empty()
        };
        vstd::seq_lib::lemma_concat_associative(
            head,
            encode_spec(nodes, root, t.drop_first()),
            piece,
        );
    }
}

/// Encoding is done byte by byte, in order: the encoding of `s` followed by `t` is the
/// encoding of `s` followed by that of `t`, and a single byte with a leaf is encoded as its
/// code (one without a leaf as nothing).
pub proof fn lemma_encode_concat(nodes: Seq<HuffmanNode>, root: int, s: Seq<u8>, t: Seq<u8>)
    ensures
        encode_spec(nodes, root, s + t) == encode_spec(nodes, root, s) + encode_spec(nodes, root, t),
        forall|c: u8| #[trigger] encode_spec(nodes, root, seq![c]) == (if has_leaf(nodes, root, c) {
            code_of(nodes, root, c)
        } else {
            Seq::<bool>::empty()
        }),
    decreases t.len(),
{
    assert forall|c: u8| #[trigger] encode_spec(nodes, root, seq![c]) == (if has_leaf(nodes, root, c) {
        code_of(nodes, root, c)
    } else {
        Seq::<bool>::empty()
    }) by {
        assert(seq![c].drop_first() =~= Seq::<u8>::empty());
        assert(seq![c][0] == c);
        assert(encode_spec(nodes, root, Seq::<u8>::empty()) =~= Seq::<bool>::empty());
        let piece = if has_leaf(nodes, root, c) {
            code_of(nodes, root, c)
        } else {
            Seq::<bool>::empty()
        };
        assert(piece + Seq::<bool>::empty() =~= piece);
    }
    if t.len() == 0 {
        assert(s + t =~= s);
        assert(encode_spec(nodes, root, t) =~= Seq::<bool>::empty());
        assert(encode_spec(nodes, root, s) + Seq::<bool>::empty() =~= encode_spec(nodes, root, s));
    } else {
        let x = t.last();
        let t0 = t.drop_last();
        assert(s + t =~= (s + t0).push(x));
        assert(t =~= t0.push(x));
        lemma_encode_concat(nodes, root, s, t0);
        lemma_encode_push(nodes, root, s + t0, x);
        lemma_encode_push(nodes, root, t0, x);
        vstd::seq_lib::lemma_concat_associative(
            encode_spec(nodes, root, s),
            encode_spec(nodes, root, t0),
            encode_spec(nodes, root, seq![x]),
        );
    }
}

/// Adding the last byte of `t` to the sum over the bytes below `m` adds its code's length
/// when the byte is below `m`.
proof fn lemma_weighted_len_last(nodes: Seq<HuffmanNode>, root: int, t: Seq<u8>, m: int)
    requires
        t.len() > 0,
        0 <= m <= 256,
    ensures
        weighted_len(nodes, root, t, m) == weighted_len(nodes, root, t.drop_last(), m) + if (
        t.last() as int) < m {
            code_len(nodes, root, t.last())
        } else {
            0
        },
    decreases m,
{
    if m > 0 {
        lemma_weighted_len_last(nodes, root, t, m - 1);
        let c = (m - 1) as u8;
        let k = code_len(nodes, root, c);
        let a = count_byte(t.drop_last(), c);
        if t.last() == c {
            assert(count_byte(t, c) == a + 1);
            assert((a + 1) * k == a * k + k) by (nonlinear_arith);
            assert(t.last() as int == m - 1);
        } else {
            assert(count_byte(t, c) == a);
            assert(t.last() as int != m - 1);
        }
    }
}

/// The length of an encoding is the sum, over all bytes, of the number of times the byte
/// occurs in the text times the length of its code (the depth of its leaf).
pub proof fn lemma_encoded_length(nodes: Seq<HuffmanNode>, root: int, t: Seq<u8>)
    ensures
        encode_spec(nodes, root, t).len() == weighted_len(nodes, root, t, 256),
    decreases t.len(),
{
    if t.len() == 0 {
        assert(encode_spec(nodes, root, t).len() == 0);
        assert forall|m: int| 0 <= m <= 256 implies #[trigger] weighted_len(nodes, root, t, m) == 0 by {
            lemma_weighted_len_empty(nodes, root, t, m);
        }
    } else {
        let x = t.last();
        let rest = t.drop_last();
        assert(rest.push(x) =~= t);
        lemma_encode_push(nodes, root, rest, x);
        lemma_encoded_length(nodes, root, rest);
        lemma_weighted_len_last(nodes, root, t, 256);
        assert(seq![x].drop_first() =~= Seq::<u8>::empty());
        assert(seq![x][0] == x);
        assert(encode_spec(nodes, root, Seq::<u8>::empty()) =~= Seq::<bool>::empty());
        assert(encode_spec(nodes, root, seq![x]).len() == code_len(nodes, root, x));
    }
}

/// Over an empty text every partial sum is 0.
proof fn lemma_weighted_len_empty(nodes: Seq<HuffmanNode>, root: int, t: Seq<u8>, m: int)
    requires
        t.len() == 0,
    ensures
        weighted_len(nodes, root, t, m) == 0,
    decreases m,
{
    if m > 0 {
        lemma_weighted_len_empty(nodes, root, t, m - 1);
        assert(count_byte(t, (m - 1) as u8) == 0);
    }
}

/// A Huffman code: its tree and the position of the root.
pub struct HuffmanCoder {
    nodes: Vec<HuffmanNode>,
    root: usize,
}

impl HuffmanCoder {
    /// The nodes of the tree.
    pub closed spec fn tree(&self) -> Seq<HuffmanNode> {
        self.nodes@
    }

    /// The position of the root.
    pub closed spec fn root_pos(&self) -> int {
        self.root as int
    }

    #[verifier::type_invariant]
    closed spec fn inv(&self) -> bool {
        is_code_tree(self.nodes@, self.root as int)
    }

    /// Builds the Huffman tree of `text`: a leaf for every byte that occurs, then, while
    /// more than one tree is left, the two of least frequency are joined under a new node
    /// (the first of them to the left).
    #[verifier::spinoff_prover]
    pub fn build(text: &[u8]) -> (coder: Self)
        requires
            text@.len() > 0,
        ensures
            tree_of(coder.tree(), coder.root_pos(), text@),
            joins_least(coder.tree()),
            leaves_in_byte_order(coder.tree()),
    {
        let ghost t = text@;
        let text_len = text.len();
        assert(t.len() == text_len);
        let freq_map = count_frequencies(text);
        let (mut nodes, mut heap) = make_leaves(&freq_map, Ghost(t));
        let ghost two_bytes = heap@.len() >= 2;
        let ghost mut merged = false;

        // Build tree
        proof {
            lemma_forest_facts(nodes@, heap@, t);
            assert(heap_ordered(heap@));
        }
        while heap.len() > 1
            invariant
                heap@.len() >= 1,
                forest_inv(nodes@, heap@, t),
                t.len() <= usize::MAX,
                nodes@.len() + heap@.len() <= 512,
                two_bytes == (heap@.len() >= 2 || merged),
                merged ==> nodes@.len() >= 1 && heap@.last().index == nodes@.len() - 1
                    && nodes@.last() is Internal,
                !merged ==> forall|k: int| 0 <= k < nodes@.len() ==> #[trigger] nodes@[k] is Leaf,
                joins_least(nodes@),
                heap_ordered(heap@),
                leaves_in_byte_order(nodes@),
            decreases heap@.len(),
        {
            let ghost h0 = heap@;
            let ghost nodes0 = nodes@;
            let p1 = min_position(&heap);
            let left_node = heap.remove(p1);
            let ghost h1 = heap@;
            let p2 = min_position(&heap);
            let right_node = heap.remove(p2);
            proof {
                lemma_forest_facts(nodes0, h0, t);
                lemma_freq_total_remove(h0, p1 as int);
                lemma_freq_total_remove(h1, p2 as int);
            }
            let combined_freq = left_node.freq + right_node.freq;
            let index = nodes.len();
            nodes.push(HuffmanNode::Internal {
                freq: combined_freq,
                left: left_node.index,
                right: right_node.index,
            });
            heap.push(HeapNode { index, freq: combined_freq });
            proof {
                assert(leaves_in_byte_order(nodes@)) by {
                    let kn = nodes0.len() as int;
                    assert forall|k1: int, k2: int|
                        0 <= k1 < k2 < nodes@.len() && #[trigger] nodes@[k1] is Internal implies #[trigger] nodes@[k2] is Internal by {
                        if k2 < kn {
                            assert(nodes@[k1] == nodes0[k1] && nodes@[k2] == nodes0[k2]);
                        }
                    }
                    assert forall|k1: int, k2: int|
                        0 <= k1 < k2 < nodes@.len() && #[trigger] nodes@[k1] is Leaf && #[trigger] nodes@[k2] is Leaf
                            implies nodes@[k1]->Leaf_ch < nodes@[k2]->Leaf_ch by {
                        assert(nodes@[k1] == nodes0[k1] && nodes@[k2] == nodes0[k2]);
                    }
                }
                lemma_joins_least_step(nodes0, h0, t, p1 as int, p2 as int, combined_freq);
                lemma_heap_ordered_merge(nodes0, h0, t, p1 as int, p2 as int, combined_freq);
                assert(nodes@ =~= nodes0.push(HuffmanNode::Internal {
                    freq: combined_freq,
                    left: h0[p1 as int].index,
                    right: h1[p2 as int].index,
                }));
                lemma_merge(nodes0, h0, p1 as int, p2 as int, t, combined_freq);
                lemma_forest_facts(nodes@, heap@, t);
                merged = true;
            }
        }
        let root = heap[0].index;
        let ghost nv = nodes@;
        proof {
            reveal(forest_inv);
            reveal(frequencies_of);
            reveal(leaves_for);
            reveal(heap_entries_ok);
            reveal(heap_distinct);
            reveal(counts_ok);
            reveal(leaves_distinct);
            let r = root as int;
            assert forall|k: int| 0 <= k < nv.len() && k != r implies #[trigger] child_count(
                nv,
                nv.len() as int,
                k,
            ) == 1 by {
                if child_count(nv, nv.len() as int, k) == 0 {
                    let q = choose|q: int| 0 <= q < heap@.len() && #[trigger] heap@[q].index == k;
                }
            }
            assert(is_code_tree(nv, r));
            assert forall|c: u8| #[trigger] has_leaf(nv, r, c) <==> count_byte(t, c) > 0 by {
                if has_leaf(nv, r, c) {
                    let p = choose|p: Seq<bool>| #[trigger] leads_to(nv, r, p, c);
                    let w = walk(nv, r, p);
                    assert(nv[w] is Leaf);
                }
                if count_byte(t, c) > 0 {
                    assert((c as int) as u8 == c);
                    let k = choose|k: int|
                        0 <= k < nv.len() && #[trigger] nv[k] == (HuffmanNode::Leaf {
                            ch: c,
                            freq: count_byte(t, c) as usize,
                        });
                    let p = lemma_reachable(nv, r, k);
                    assert(leads_to(nv, r, p, c));
                }
            }
            if merged {
                assert(r == nv.len() - 1);
            }
            assert(frequencies_of(nv, t));
            assert(nv[r] is Internal <==> exists|i: int, j: int|
                0 <= i < t.len() && 0 <= j < t.len() && t[i] != t[j]);
        }
        HuffmanCoder { nodes, root }
    }

    /// The code table: for every byte, the path from the root to its leaf (`false` for a
    /// step to the left), or `None` when the tree has no leaf for it.
    pub fn generate_codes(&self) -> (codes: Vec<Option<Vec<bool>>>)
        ensures
            codes@.len() == 256,
            forall|c: int|
                0 <= c < 256 ==> #[trigger] opt_view(codes@[c]) == code_table(
                    self.tree(),
                    self.root_pos(),
                )[c],
    {
        proof {
            use_type_invariant(self);
        }
        let mut codes: Vec<Option<Vec<bool>>> = Vec::new();
        for c in 0..256usize
            invariant
                codes@.len() == c,
                forall|d: int| 0 <= d < c ==> #[trigger] codes@[d] is None,
        {
            codes.push(None);
        }
        let mut current_code: Vec<bool> = Vec::new();
        self.generate_codes_helper(self.root, &mut current_code, &mut codes);
        proof {
            let nodes = self.nodes@;
            let root = self.root as int;
            assert forall|c: int| 0 <= c < 256 implies #[trigger] opt_view(codes@[c]) == code_table(
                nodes,
                root,
            )[c] by {
                if codes@[c] is Some {
                    let p = codes@[c]->Some_0@;
                    lemma_code_unique(nodes, root, p, c as u8);
                }
            }
        }
        codes
    }

    /// Encodes `text`: the concatenated codes of its bytes, skipping bytes that the tree has
    /// no leaf for.
    pub fn encode(&self, text: &[u8]) -> (bits: Vec<bool>)
        ensures
            bits@ == encode_spec(self.tree(), self.root_pos(), text@),
    {
        let codes = self.generate_codes();
        let ghost nodes = self.tree();
        let ghost root = self.root_pos();
        let ghost t = text@;
        let mut result: Vec<bool> = Vec::new();
        let n = text.len();
        proof {
            assert(t.skip(0) =~= t);
        }
        for i in 0..n
            invariant
                n == t.len(),
                t == text@,
                codes@.len() == 256,
                forall|c: int| 0 <= c < 256 ==> #[trigger] opt_view(codes@[c]) == code_table(
                    nodes,
                    root,
                )[c],
                result@ + encode_spec(nodes, root, t.skip(i as int)) == encode_spec(nodes, root, t),
        {
            let ch = text[i];
            proof {
                assert(t.skip(i as int).drop_first() =~= t.skip(i + 1));
                assert(t.skip(i as int)[0] == ch);
                assert(opt_view(codes@[ch as int]) == code_table(nodes, root)[ch as int]);
                assert((ch as int) as u8 == ch);
            }
            let ghost before = result@;
            if let Some(code) = &codes[ch as usize] {
                result.extend_from_slice(code.as_slice());
                proof {
                    assert(result@ =~= before + code@);
                }
            }
            proof {
                vstd::seq_lib::lemma_concat_associative(
                    before,
                    if has_leaf(nodes, root, ch) { code_of(nodes, root, ch) } else { Seq::empty() },
                    encode_spec(nodes, root, t.skip(i + 1)),
                );
                if !has_leaf(nodes, root, ch) {
                    assert(before + Seq::<bool>::empty() =~= before);
                }
            }
        }
        proof {
            assert(t.skip(n as int) =~= Seq::<u8>::empty());
            assert(result@ + Seq::<bool>::empty() =~= result@);
        }
        result
    }

    /// Decodes `bits`: from the root, each bit leads to a child; on reaching a leaf its byte
    /// is emitted and decoding goes on from the root with the next bit. A walk that ends on a
    /// leaf emits its byte.
    pub fn decode(&self, bits: &[bool]) -> (text: Vec<u8>)
        ensures
            text@ == decode_spec(self.tree(), self.root_pos(), bits@),
    {
        proof {
            use_type_invariant(self);
        }
        let ghost nodes = self.nodes@;
        let ghost root = self.root as int;
        let ghost b = bits@;
        let mut result: Vec<u8> = Vec::new();
        let mut current_node = self.root;
        let n = bits.len();
        proof {
            assert(b.skip(0) =~= b);
        }
        for i in 0..n
            invariant
                n == b.len(),
                b == bits@,
                nodes == self.nodes@,
                root == self.root,
                is_code_tree(nodes, root),
                current_node < nodes.len(),
                result@ + decode_from(nodes, root, current_node as int, b.skip(i as int))
                    == decode_spec(nodes, root, b),
        {
            let bit = bits[i];
            let ghost before = result@;
            let ghost cur = current_node as int;
            proof {
                assert(b.skip(i as int).drop_first() =~= b.skip(i + 1));
                assert(b.skip(i as int)[0] == bit);
            }
            match &self.nodes[current_node] {
                HuffmanNode::Leaf { ch, .. } => {
                    result.push(*ch);
                    current_node = self.root;
                    // Process the current bit with the new node
                    match &self.nodes[current_node] {
                        HuffmanNode::Internal { left, right, .. } => {
                            current_node = if bit {
                                *right
                            } else {
                                *left
                            };
                        },
                        _ => {},
                    }
                    proof {
                        vstd::seq_lib::lemma_concat_associative(
                            before,
                            seq![*ch],
                            decode_from(nodes, root, current_node as int, b.skip(i + 1)),
                        );
                        assert(before.push(*ch) =~= before + seq![*ch]);
                    }
                },
                HuffmanNode::Internal { left, right, .. } => {
                    current_node = if bit {
                        *right
                    } else {
                        *left
                    };
                },
            }
        }
        // Handle last character
        if let HuffmanNode::Leaf { ch, .. } = &self.nodes[current_node] {
            result.push(*ch);
        }
        proof {
            assert(b.skip(n as int) =~= Seq::<bool>::empty());
        }
        result
    }

    fn generate_codes_helper(
        &self,
        node_idx: usize,
        current_code: &mut Vec<bool>,
        codes: &mut Vec<Option<Vec<bool>>>,
    )
        requires
            node_idx < self.tree().len(),
            walk(self.tree(), self.root_pos(), old(current_code)@) == node_idx,
            old(codes)@.len() == 256,
            forall|c: int|
                0 <= c < 256 && #[trigger] old(codes)@[c] is Some ==> leads_to(
                    self.tree(),
                    self.root_pos(),
                    old(codes)@[c]->Some_0@,
                    c as u8,
                ),
        ensures
            final(current_code)@ == old(current_code)@,
            final(codes)@.len() == 256,
            forall|c: int|
                0 <= c < 256 && #[trigger] final(codes)@[c] is Some ==> leads_to(
                    self.tree(),
                    self.root_pos(),
                    final(codes)@[c]->Some_0@,
                    c as u8,
                ),
            forall|c: int| 0 <= c < 256 && old(codes)@[c] is Some ==> #[trigger] final(codes)@[c] is Some,
            forall|c: int|
                0 <= c < 256 && has_leaf(self.tree(), node_idx as int, c as u8)
                    ==> #[trigger] final(codes)@[c] is Some,
        decreases node_idx,
    {
        proof {
            use_type_invariant(self);
        }
        let ghost nodes = self.nodes@;
        let ghost root = self.root as int;
        match &self.nodes[node_idx] {
            HuffmanNode::Leaf { ch, .. } => {
                let code = current_code.clone();
                assert(code@ =~= current_code@);
                let ghost old_codes = codes@;
                codes.set(*ch as usize, Some(code));
                proof {
                    assert forall|c: int|
                        0 <= c < 256 && has_leaf(nodes, node_idx as int, c as u8) implies #[trigger] codes@[c] is Some by {
                        lemma_has_leaf_leaf(nodes, node_idx as int, c as u8);
                        assert((c as u8) as int == c);
                    }
                    assert forall|c: int|
                        0 <= c < 256 && #[trigger] codes@[c] is Some implies leads_to(
                            nodes,
                            root,
                            codes@[c]->Some_0@,
                            c as u8,
                        ) by {
                        if c == *ch as int {
                            assert(nodes[node_idx as int] == (HuffmanNode::Leaf {
                                ch: c as u8,
                                freq: node_freq(nodes[node_idx as int]),
                            }));
                        } else {
                            assert(codes@[c] == old_codes[c]);
                        }
                    }
                }
            },
            HuffmanNode::Internal { left, right, .. } => {
                let ghost prefix = current_code@;
                proof {
                    lemma_walk_push(nodes, root, prefix, false);
                    lemma_walk_push(nodes, root, prefix, true);
                }
                current_code.push(false);
                self.generate_codes_helper(*left, current_code, codes);
                current_code.pop();
                assert(current_code@ =~= prefix);
                current_code.push(true);
                self.generate_codes_helper(*right, current_code, codes);
                current_code.pop();
                assert(current_code@ =~= prefix);
                proof {
                    assert forall|c: int|
                        0 <= c < 256 && has_leaf(nodes, node_idx as int, c as u8) implies #[trigger] codes@[c] is Some by {
                        lemma_has_leaf_children(nodes, node_idx as int, c as u8);
                    }
                }
            },
        }
    }
}

/// Leaves have no children.
proof fn lemma_child_count_leaves(nodes: Seq<HuffmanNode>, n: int, k: int)
    requires
        0 <= n <= nodes.len(),
        forall|j: int| 0 <= j < nodes.len() ==> #[trigger] nodes[j] is Leaf,
    ensures
        child_count(nodes, n, k) == 0,
    decreases n,
{
    if n > 0 {
        lemma_child_count_leaves(nodes, n - 1, k);
    }
}

/// When node `t` was made, node `k` was the root of a tree of the forest: it stood before
/// `t` and no node before `t` had it as a child.
pub open spec fn root_before(nodes: Seq<HuffmanNode>, t: int, k: int) -> bool {
    0 <= k < t && child_count(nodes, t, k) == 0
}

/// Node `a` comes before node `k` by frequency, then by position.
pub open spec fn precedes(nodes: Seq<HuffmanNode>, a: int, k: int) -> bool {
    node_freq(nodes[a]) < node_freq(nodes[k]) || (node_freq(nodes[a]) == node_freq(nodes[k]) && a < k)
}

/// Every internal node joins the two first trees of the forest when it was made, ordered
/// by frequency and then by position: its left child is the first of least frequency, and
/// its right child the first of least frequency among the others.
pub open spec fn joins_least(nodes: Seq<HuffmanNode>) -> bool {
    forall|t: int, k: int|
        0 <= t < nodes.len() && #[trigger] root_before(nodes, t, k) ==> match nodes[t] {
            HuffmanNode::Internal { left, right, .. } => {
                &&& k != left ==> precedes(nodes, left as int, k)
                &&& k != left && k != right ==> precedes(nodes, right as int, k)
            },
            HuffmanNode::Leaf { .. } => true,
        }
}

/// The leaves come first, in increasing order of their bytes, then the internal nodes.
pub open spec fn leaves_in_byte_order(nodes: Seq<HuffmanNode>) -> bool {
    &&& forall|k1: int, k2: int|
        0 <= k1 < k2 < nodes.len() && #[trigger] nodes[k1] is Internal ==> #[trigger] nodes[k2] is Internal
    &&& forall|k1: int, k2: int|
        0 <= k1 < k2 < nodes.len() && #[trigger] nodes[k1] is Leaf && #[trigger] nodes[k2] is Leaf
            ==> nodes[k1]->Leaf_ch < nodes[k2]->Leaf_ch
}

/// The entries of `heap` refer to nodes in increasing order.
pub open spec fn heap_ordered(heap: Seq<HeapNode>) -> bool {
    forall|q1: int, q2: int| 0 <= q1 < q2 < heap.len() ==> #[trigger] heap[q1].index < #[trigger] heap[q2].index
}

/// Joining the entries of least frequency keeps that every node joined trees of least
/// frequency.
proof fn lemma_joins_least_step(
    nodes: Seq<HuffmanNode>,
    h0: Seq<HeapNode>,
    text: Seq<u8>,
    p1: int,
    p2: int,
    freq: usize,
)
    requires
        forest_inv(nodes, h0, text),
        joins_least(nodes),
        0 <= p1 < h0.len(),
        0 <= p2 < h0.len() - 1,
        heap_ordered(h0),
        forall|q: int| 0 <= q < h0.len() ==> h0[p1].freq <= #[trigger] h0[q].freq,
        forall|q: int| 0 <= q < p1 ==> h0[p1].freq < #[trigger] h0[q].freq,
        forall|q: int| 0 <= q < h0.remove(p1).len() ==> h0.remove(p1)[p2].freq <= #[trigger] h0.remove(p1)[q].freq,
        forall|q: int| 0 <= q < p2 ==> h0.remove(p1)[p2].freq < #[trigger] h0.remove(p1)[q].freq,
    ensures
        joins_least(nodes.push(HuffmanNode::Internal { freq, left: h0[p1].index, right: h0.remove(p1)[p2].index })),
{
    lemma_forest_elim(nodes, h0, text);
    let h1 = h0.remove(p1);
    let left = h0[p1].index;
    let right = h1[p2].index;
    let nn = nodes.push(HuffmanNode::Internal { freq, left, right });
    let t0 = nodes.len() as int;
    assert forall|t: int, k: int| 0 <= t < nn.len() && #[trigger] root_before(nn, t, k) implies match nn[t] {
        HuffmanNode::Internal { left, right, .. } => {
            &&& k != left ==> precedes(nn, left as int, k)
            &&& k != left && k != right ==> precedes(nn, right as int, k)
        },
        HuffmanNode::Leaf { .. } => true,
    } by {
        lemma_child_count_prefix(nn, nodes, t, k);
        if t < t0 {
            assert(nn[t] == nodes[t]);
            assert(root_before(nodes, t, k));
            assert(children_before(nodes));
            match nodes[t] {
                HuffmanNode::Internal { left: l, right: r, .. } => {
                    assert(nodes[t] is Internal);
                    assert(l < t && r < t);
                    assert(nn[l as int] == nodes[l as int]);
                    assert(nn[r as int] == nodes[r as int]);
                    assert(nn[k] == nodes[k]);
                },
                HuffmanNode::Leaf { .. } => {},
            }
        } else {
            assert(child_count(nodes, t0, k) == 0);
            reveal(counts_ok);
            reveal(heap_entries_ok);
            reveal(heap_distinct);
            assert(heap_has(h0, k));
            let q = choose|q: int| 0 <= q < h0.len() && #[trigger] h0[q].index == k;
            assert(nn[k] == nodes[k]);
            lemma_heap_entry(nodes, h0, q);
            lemma_heap_entry(nodes, h0, p1);
            assert(nn[left as int] == nodes[left as int]);
            if k != left {
                assert(q != p1);
                assert(h0[p1].freq <= h0[q].freq);
                if q > p1 {
                    assert(h0[p1].index < h0[q].index);
                }
            }
            if k != left && k != right {
                let q1 = if q < p1 {
                    q
                } else {
                    q - 1
                };
                assert(h1[q1] == h0[q]);
                assert(h1[p2] == h0[if p2 < p1 {
                    p2
                } else {
                    p2 + 1
                }]);
                lemma_heap_entry(nodes, h0, if p2 < p1 {
                    p2
                } else {
                    p2 + 1
                });
                assert(nn[right as int] == nodes[right as int]);
                assert(q1 != p2);
                assert(h1[p2].freq <= h1[q1].freq);
                let qp2 = if p2 < p1 {
                    p2
                } else {
                    p2 + 1
                };
                if q1 > p2 {
                    assert(q > qp2);
                    assert(h0[qp2].index < h0[q].index);
                }
            }
        }
    }
}


/// Removing two entries and adding one for a new node keeps the entries in node order.
proof fn lemma_heap_ordered_merge(
    nodes: Seq<HuffmanNode>,
    h0: Seq<HeapNode>,
    text: Seq<u8>,
    p1: int,
    p2: int,
    freq: usize,
)
    requires
        forest_inv(nodes, h0, text),
        heap_ordered(h0),
        0 <= p1 < h0.len(),
        0 <= p2 < h0.len() - 1,
        nodes.len() < usize::MAX,
    ensures
        heap_ordered(h0.remove(p1).remove(p2).push(HeapNode { index: nodes.len() as usize, freq })),
{
    lemma_forest_elim(nodes, h0, text);
    let h1 = h0.remove(p1);
    let h2 = h1.remove(p2);
    let h3 = h2.push(HeapNode { index: nodes.len() as usize, freq });
    assert(heap_ordered(h1)) by {
        assert forall|q1: int, q2: int| 0 <= q1 < q2 < h1.len() implies #[trigger] h1[q1].index
            < #[trigger] h1[q2].index by {
            let a = if q1 < p1 {
                q1
            } else {
                q1 + 1
            };
            let b = if q2 < p1 {
                q2
            } else {
                q2 + 1
            };
            assert(h1[q1] == h0[a] && h1[q2] == h0[b]);
        }
    }
    assert(heap_ordered(h2)) by {
        assert forall|q1: int, q2: int| 0 <= q1 < q2 < h2.len() implies #[trigger] h2[q1].index
            < #[trigger] h2[q2].index by {
            let a = if q1 < p2 {
                q1
            } else {
                q1 + 1
            };
            let b = if q2 < p2 {
                q2
            } else {
                q2 + 1
            };
            assert(h2[q1] == h1[a] && h2[q2] == h1[b]);
        }
    }
    assert forall|q1: int, q2: int| 0 <= q1 < q2 < h3.len() implies #[trigger] h3[q1].index
        < #[trigger] h3[q2].index by {
        if q2 == h2.len() {
            assert(h3[q1] == h2[q1]);
            let a = if q1 < p2 {
                q1
            } else {
                q1 + 1
            };
            let b = if a < p1 {
                a
            } else {
                a + 1
            };
            assert(h2[q1] == h1[a]);
            assert(h1[a] == h0[b]);
            lemma_heap_entry(nodes, h0, b);
        } else {
            assert(h3[q1] == h2[q1] && h3[q2] == h2[q2]);
        }
    }
}

} // verus!
