//! Directed graphs as adjacency lists: breadth-first and depth-first traversal, cycle
//! detection and topological sorting.

use vstd::prelude::*;
use std::collections::VecDeque;

verus! {

/// `p` is a path: a nonempty sequence of vertices, each with an edge to the next.
pub open spec fn is_path(adj: Seq<Seq<usize>>, p: Seq<usize>) -> bool {
    &&& p.len() >= 1
    &&& forall|i: int| 0 <= i < p.len() ==> #[trigger] p[i] < adj.len()
    &&& forall|i: int| 0 <= i < p.len() - 1 ==> adj[#[trigger] p[i] as int].contains(p[i + 1])
}

/// Vertex `t` is reachable from vertex `s` (by a path of zero or more edges).
pub open spec fn reachable(adj: Seq<Seq<usize>>, s: usize, t: usize) -> bool {
    exists|p: Seq<usize>| #[trigger] is_path(adj, p) && p[0] == s && p.last() == t
}

/// The graph has a cycle: a path of at least one edge that ends where it starts.
pub open spec fn has_cycle_spec(adj: Seq<Seq<usize>>) -> bool {
    exists|p: Seq<usize>| #[trigger] is_path(adj, p) && p.len() >= 2 && p[0] == p.last()
}

/// In the traversal order `order`, vertex `order[k]` was discovered from `order[j]`, as the
/// entry `m` of its adjacency list: `order[j]` is the first vertex of the order with an edge
/// to it, and `m` the first such entry of its list.
pub open spec fn discovered_at(
    adj: Seq<Seq<usize>>,
    order: Seq<usize>,
    k: int,
    j: int,
    m: int,
) -> bool {
    &&& 0 <= j < k < order.len()
    &&& 0 <= m < adj[order[j] as int].len()
    &&& adj[order[j] as int][m] == order[k]
    &&& forall|j2: int| 0 <= j2 < j ==> !adj[#[trigger] order[j2] as int].contains(order[k])
    &&& forall|m2: int| 0 <= m2 < m ==> #[trigger] adj[order[j] as int][m2] != order[k]
}

/// Vertex `order[k]` has an earlier vertex of `order` with an edge to it.
pub open spec fn has_earlier_pred(adj: Seq<Seq<usize>>, order: Seq<usize>, k: int) -> bool {
    exists|j: int| 0 <= j < k && adj[order[j] as int].contains(order[k])
}

/// Vertex `order[k]` was discovered from an earlier vertex of `order`.
pub open spec fn discovered(adj: Seq<Seq<usize>>, order: Seq<usize>, k: int) -> bool {
    exists|j: int, m: int| #[trigger] discovered_at(adj, order, k, j, m)
}

/// `order` is the breadth-first order of the vertices reachable from `start`: it begins at
/// `start`, holds every reachable vertex once, and every later vertex was discovered from an
/// earlier one, in the order of (position of the discovering vertex, position in its
/// adjacency list).
pub open spec fn bfs_order(adj: Seq<Seq<usize>>, start: usize, order: Seq<usize>) -> bool {
    &&& order.len() >= 1
    &&& order[0] == start
    &&& order.no_duplicates()
    &&& forall|v: usize| #[trigger] order.contains(v) <==> reachable(adj, start, v)
    &&& forall|k: int| 1 <= k < order.len() ==> #[trigger] discovered(adj, order, k)
    &&& forall|k1: int, k2: int, j1: int, m1: int, j2: int, m2: int|
        1 <= k1 < k2 && #[trigger] discovered_at(adj, order, k1, j1, m1) && #[trigger] discovered_at(
            adj,
            order,
            k2,
            j2,
            m2,
        ) ==> j1 < j2 || (j1 == j2 && m1 < m2)
}

/// `order` lists the vertices reachable from `start`, each once, beginning with `start`,
/// and every later vertex has an edge to it from an earlier one.
pub open spec fn traversal_order(adj: Seq<Seq<usize>>, start: usize, order: Seq<usize>) -> bool {
    &&& order.len() >= 1
    &&& order[0] == start
    &&& order.no_duplicates()
    &&& forall|v: usize| #[trigger] order.contains(v) <==> reachable(adj, start, v)
    &&& forall|k: int| 1 <= k < order.len() ==> #[trigger] has_earlier_pred(adj, order, k)
}

/// Some vertex of `order` has an edge to `w`.
pub open spec fn has_pred_in(adj: Seq<Seq<usize>>, order: Seq<usize>, w: usize) -> bool {
    exists|j: int| 0 <= j < order.len() && adj[order[j] as int].contains(w)
}

/// Depth-first visit of `v` after the vertices `vis` were visited: `v` is appended, then the
/// visit goes on through the adjacency list of `v`. `fuel` bounds the depth of the search;
/// with at least one unit per unvisited vertex it does not run out.
pub open spec fn dfs_visit(adj: Seq<Seq<usize>>, vis: Seq<usize>, v: usize, fuel: nat) -> Seq<usize>
    decreases fuel, 0int, 0int,
{
    if fuel == 0 {
        vis
    } else {
        dfs_scan(adj, vis.push(v), adj[v as int], (fuel - 1) as nat)
    }
}

/// Depth-first visit of each vertex of the list `l` in turn that has not been visited yet.
pub open spec fn dfs_scan(adj: Seq<Seq<usize>>, vis: Seq<usize>, l: Seq<usize>, fuel: nat) -> Seq<usize>
    decreases fuel, 1int, l.len() as int,
{
    if l.len() == 0 {
        vis
    } else if vis.contains(l[0]) {
        dfs_scan(adj, vis, l.drop_first(), fuel)
    } else {
        dfs_scan(adj, dfs_visit(adj, vis, l[0], fuel), l.drop_first(), fuel)
    }
}

/// The depth-first preorder of the vertices reachable from `start`: each vertex, then the
/// vertices first reached through its successors, in the order of its adjacency list.
pub open spec fn dfs_preorder(adj: Seq<Seq<usize>>, start: usize) -> Seq<usize> {
    dfs_visit(adj, Seq::empty(), start, adj.len() as nat)
}

/// Every edge of the graph ends at a vertex.
pub open spec fn edges_in_range(adj: Seq<Seq<usize>>) -> bool {
    forall|u: int, k: int| 0 <= u < adj.len() && 0 <= k < adj[u].len() ==> #[trigger] adj[u][k] < adj.len()
}

/// `vis` lists distinct vertices.
pub open spec fn distinct_vertices(adj: Seq<Seq<usize>>, vis: Seq<usize>) -> bool {
    &&& vis.no_duplicates()
    &&& forall|i: int| 0 <= i < vis.len() ==> #[trigger] vis[i] < adj.len()
}

proof fn lemma_push_distinct(adj: Seq<Seq<usize>>, vis: Seq<usize>, v: usize)
    requires
        distinct_vertices(adj, vis),
        v < adj.len(),
        !vis.contains(v),
    ensures
        distinct_vertices(adj, vis.push(v)),
        vis.push(v).subrange(0, vis.len() as int) == vis,
{
    let w = vis.push(v);
    assert(w.subrange(0, vis.len() as int) =~= vis);
    assert forall|i: int, j: int| 0 <= i < w.len() && 0 <= j < w.len() && i != j implies w[i] != w[j] by {
        if i == vis.len() && j < vis.len() {
            assert(vis[j] == w[j]);
        }
        if j == vis.len() && i < vis.len() {
            assert(vis[i] == w[i]);
        }
    }
}

/// A depth-first visit appends distinct vertices to those already visited.
proof fn lemma_dfs_visit_grows(adj: Seq<Seq<usize>>, vis: Seq<usize>, v: usize, fuel: nat)
    requires
        edges_in_range(adj),
        distinct_vertices(adj, vis),
        v < adj.len(),
        !vis.contains(v),
    ensures
        distinct_vertices(adj, dfs_visit(adj, vis, v, fuel)),
        dfs_visit(adj, vis, v, fuel).len() >= vis.len(),
        dfs_visit(adj, vis, v, fuel).subrange(0, vis.len() as int) == vis,
        fuel > 0 ==> dfs_visit(adj, vis, v, fuel).len() > vis.len(),
    decreases fuel, 0int, 0int,
{
    if fuel > 0 {
        let w = vis.push(v);
        lemma_push_distinct(adj, vis, v);
        assert forall|k: int| 0 <= k < adj[v as int].len() implies #[trigger] adj[v as int][k] < adj.len() by {}
        lemma_dfs_scan_grows(adj, w, adj[v as int], (fuel - 1) as nat);
        let r = dfs_visit(adj, vis, v, fuel);
        assert(r.subrange(0, vis.len() as int) =~= vis) by {
            assert forall|i: int| 0 <= i < vis.len() implies r.subrange(0, vis.len() as int)[i] == vis[i] by {
                assert(r.subrange(0, w.len() as int)[i] == r[i]);
                assert(w[i] == vis[i]);
            }
        }
    } else {
        assert(vis.subrange(0, vis.len() as int) =~= vis);
    }
}

/// A depth-first scan of a list appends distinct vertices to those already visited.
proof fn lemma_dfs_scan_grows(adj: Seq<Seq<usize>>, vis: Seq<usize>, l: Seq<usize>, fuel: nat)
    requires
        edges_in_range(adj),
        distinct_vertices(adj, vis),
        forall|k: int| 0 <= k < l.len() ==> #[trigger] l[k] < adj.len(),
    ensures
        distinct_vertices(adj, dfs_scan(adj, vis, l, fuel)),
        dfs_scan(adj, vis, l, fuel).len() >= vis.len(),
        dfs_scan(adj, vis, l, fuel).subrange(0, vis.len() as int) == vis,
    decreases fuel, 1int, l.len() as int,
{
    if l.len() == 0 {
        assert(vis.subrange(0, vis.len() as int) =~= vis);
    } else {
        let rest = l.drop_first();
        assert forall|k: int| 0 <= k < rest.len() implies #[trigger] rest[k] < adj.len() by {
            assert(rest[k] == l[k + 1]);
        }
        if vis.contains(l[0]) {
            lemma_dfs_scan_grows(adj, vis, rest, fuel);
        } else {
            let r1 = dfs_visit(adj, vis, l[0], fuel);
            lemma_dfs_visit_grows(adj, vis, l[0], fuel);
            lemma_dfs_scan_grows(adj, r1, rest, fuel);
            let r = dfs_scan(adj, r1, rest, fuel);
            assert(r.subrange(0, vis.len() as int) =~= vis) by {
                assert forall|i: int| 0 <= i < vis.len() implies r.subrange(0, vis.len() as int)[i] == vis[i] by {
                    assert(r.subrange(0, r1.len() as int)[i] == r[i]);
                    assert(r1.subrange(0, vis.len() as int)[i] == r1[i]);
                }
            }
        }
    }
}

/// With enough fuel, a depth-first visit does not depend on how much.
proof fn lemma_dfs_visit_fuel(adj: Seq<Seq<usize>>, vis: Seq<usize>, v: usize, f1: nat, f2: nat)
    requires
        edges_in_range(adj),
        distinct_vertices(adj, vis),
        v < adj.len(),
        !vis.contains(v),
        f1 + vis.len() >= adj.len(),
        f2 + vis.len() >= adj.len(),
    ensures
        dfs_visit(adj, vis, v, f1) == dfs_visit(adj, vis, v, f2),
    decreases f1, 0int, 0int,
{
    let w = vis.push(v);
    lemma_push_distinct(adj, vis, v);
    if adj.len() <= usize::MAX + 1 {
        lemma_distinct_bound(w, adj.len());
    } else {
        lemma_distinct_bound(w, (usize::MAX + 1) as nat);
    }
    assert forall|k: int| 0 <= k < adj[v as int].len() implies #[trigger] adj[v as int][k] < adj.len() by {}
    lemma_dfs_scan_fuel(adj, w, adj[v as int], (f1 - 1) as nat, (f2 - 1) as nat);
}

/// With enough fuel, a depth-first scan does not depend on how much.
proof fn lemma_dfs_scan_fuel(adj: Seq<Seq<usize>>, vis: Seq<usize>, l: Seq<usize>, f1: nat, f2: nat)
    requires
        edges_in_range(adj),
        distinct_vertices(adj, vis),
        forall|k: int| 0 <= k < l.len() ==> #[trigger] l[k] < adj.len(),
        f1 + vis.len() >= adj.len(),
        f2 + vis.len() >= adj.len(),
    ensures
        dfs_scan(adj, vis, l, f1) == dfs_scan(adj, vis, l, f2),
    decreases f1, 1int, l.len() as int,
{
    if l.len() > 0 {
        let rest = l.drop_first();
        assert forall|k: int| 0 <= k < rest.len() implies #[trigger] rest[k] < adj.len() by {
            assert(rest[k] == l[k + 1]);
        }
        if vis.contains(l[0]) {
            lemma_dfs_scan_fuel(adj, vis, rest, f1, f2);
        } else {
            lemma_dfs_visit_fuel(adj, vis, l[0], f1, f2);
            let r1 = dfs_visit(adj, vis, l[0], f1);
            lemma_dfs_visit_grows(adj, vis, l[0], f1);
            lemma_dfs_scan_fuel(adj, r1, rest, f1, f2);
        }
    }
}

/// The vertices of the list `l` that are not in `w`, in order.
pub open spec fn not_in(l: Seq<usize>, w: Seq<usize>) -> Seq<usize>
    decreases l.len(),
{
    if l.len() == 0 {
        Seq::empty()
    } else if w.contains(l[0]) {
        not_in(l.drop_first(), w)
    } else {
        seq![l[0]] + not_in(l.drop_first(), w)
    }
}

/// Scanning two lists one after the other is scanning the first, then the second.
proof fn lemma_dfs_scan_concat(
    adj: Seq<Seq<usize>>,
    vis: Seq<usize>,
    l1: Seq<usize>,
    l2: Seq<usize>,
    fuel: nat,
)
    ensures
        dfs_scan(adj, vis, l1 + l2, fuel) == dfs_scan(adj, dfs_scan(adj, vis, l1, fuel), l2, fuel),
    decreases l1.len(),
{
    if l1.len() == 0 {
        assert(l1 + l2 =~= l2);
    } else {
        let l = l1 + l2;
        assert(l[0] == l1[0]);
        assert(l.drop_first() =~= l1.drop_first() + l2);
        if vis.contains(l1[0]) {
            lemma_dfs_scan_concat(adj, vis, l1.drop_first(), l2, fuel);
        } else {
            lemma_dfs_scan_concat(adj, dfs_visit(adj, vis, l1[0], fuel), l1.drop_first(), l2, fuel);
        }
    }
}

/// Leaving out of a list vertices that are already visited does not change the scan.
proof fn lemma_dfs_scan_not_in(
    adj: Seq<Seq<usize>>,
    vis: Seq<usize>,
    l: Seq<usize>,
    w: Seq<usize>,
    fuel: nat,
)
    requires
        edges_in_range(adj),
        distinct_vertices(adj, vis),
        forall|k: int| 0 <= k < l.len() ==> #[trigger] l[k] < adj.len(),
        forall|x: usize| #[trigger] w.contains(x) ==> vis.contains(x),
    ensures
        dfs_scan(adj, vis, l, fuel) == dfs_scan(adj, vis, not_in(l, w), fuel),
    decreases l.len(),
{
    if l.len() > 0 {
        let rest = l.drop_first();
        assert forall|k: int| 0 <= k < rest.len() implies #[trigger] rest[k] < adj.len() by {
            assert(rest[k] == l[k + 1]);
        }
        if w.contains(l[0]) {
            lemma_dfs_scan_not_in(adj, vis, rest, w, fuel);
        } else {
            let u = not_in(l, w);
            assert(u[0] == l[0]);
            assert(u.drop_first() =~= not_in(rest, w));
            if vis.contains(l[0]) {
                lemma_dfs_scan_not_in(adj, vis, rest, w, fuel);
            } else {
                let r = dfs_visit(adj, vis, l[0], fuel);
                lemma_dfs_visit_grows(adj, vis, l[0], fuel);
                assert forall|x: usize| #[trigger] w.contains(x) implies r.contains(x) by {
                    assert(vis.contains(x));
                    let t = choose|t: int| 0 <= t < vis.len() && vis[t] == x;
                    assert(r.subrange(0, vis.len() as int)[t] == r[t]);
                }
                lemma_dfs_scan_not_in(adj, r, rest, w, fuel);
            }
        }
    }
}

/// Popping a visited vertex off the stack of a depth-first search leaves the rest of the
/// search unchanged.
proof fn lemma_dfs_stack_skip(adj: Seq<Seq<usize>>, order: Seq<usize>, rest: Seq<usize>, w: usize, fuel: nat)
    requires
        order.contains(w),
    ensures
        dfs_scan(adj, order, rest.push(w).reverse(), fuel) == dfs_scan(adj, order, rest.reverse(), fuel),
{
    let l = rest.push(w).reverse();
    assert(l[0] == w);
    assert(l.drop_first() =~= rest.reverse());
}

/// Popping an unvisited vertex off the stack of a depth-first search, visiting it and pushing
/// its unvisited successors, last first, leaves the rest of the search unchanged.
proof fn lemma_dfs_stack_visit(
    adj: Seq<Seq<usize>>,
    order: Seq<usize>,
    rest: Seq<usize>,
    pushed: Seq<usize>,
    w: usize,
)
    requires
        edges_in_range(adj),
        adj.len() <= usize::MAX,
        distinct_vertices(adj, order),
        w < adj.len(),
        !order.contains(w),
        forall|k: int| 0 <= k < rest.len() ==> #[trigger] rest[k] < adj.len(),
        pushed.reverse() == not_in(adj[w as int], order.push(w)),
    ensures
        order.len() < adj.len(),
        dfs_scan(adj, order.push(w), (rest + pushed).reverse(), (adj.len() - order.len() - 1) as nat)
            == dfs_scan(adj, order, rest.push(w).reverse(), (adj.len() - order.len()) as nat),
{
    let n = adj.len();
    let f = (n - order.len()) as nat;
    let o2 = order.push(w);
    lemma_push_distinct(adj, order, w);
    lemma_distinct_bound(o2, n);
    let f2 = (n - o2.len()) as nat;
    assert(f == f2 + 1);
    let l = rest.push(w).reverse();
    assert(l[0] == w);
    assert(l.drop_first() =~= rest.reverse());
    let succ = adj[w as int];
    assert forall|k: int| 0 <= k < succ.len() implies #[trigger] succ[k] < adj.len() by {}
    let x = dfs_scan(adj, o2, succ, f2);
    assert(dfs_visit(adj, order, w, f) == x);
    assert((rest + pushed).reverse() =~= pushed.reverse() + rest.reverse());
    lemma_dfs_scan_concat(adj, o2, not_in(succ, o2), rest.reverse(), f2);
    assert forall|y: usize| #[trigger] o2.contains(y) implies o2.contains(y) by {}
    lemma_dfs_scan_not_in(adj, o2, succ, o2, f2);
    lemma_dfs_scan_grows(adj, o2, succ, f2);
    let rr = rest.reverse();
    assert forall|k: int| 0 <= k < rr.len() implies #[trigger] rr[k] < adj.len() by {
        assert(rr[k] == rest[rest.len() - 1 - k]);
    }
    lemma_dfs_scan_fuel(adj, x, rr, f2, f);
}

/// Reading one more successor, from the end of the list, while collecting the unvisited
/// ones.
proof fn lemma_not_in_step(l: Seq<usize>, i: int, w: Seq<usize>)
    requires
        0 < i <= l.len(),
    ensures
        not_in(l.skip(i - 1), w) == if w.contains(l[i - 1]) {
            not_in(l.skip(i), w)
        } else {
            seq![l[i - 1]] + not_in(l.skip(i), w)
        },
{
    let t = l.skip(i - 1);
    assert(t[0] == l[i - 1]);
    assert(t.drop_first() =~= l.skip(i));
}

/// No edge ends at `u`.
pub open spec fn is_source(adj: Seq<Seq<usize>>, u: usize) -> bool {
    forall|x: int| 0 <= x < adj.len() ==> !#[trigger] adj[x].contains(u)
}

/// In `order`, vertex `order[k]` was freed by entry `m` of the adjacency list of `order[j]`:
/// that entry is an edge to it, and every other edge to it from a vertex of `order` comes
/// from an earlier vertex, or from an earlier entry of the same list.
pub open spec fn freed_at(adj: Seq<Seq<usize>>, order: Seq<usize>, k: int, j: int, m: int) -> bool {
    &&& 0 <= j < k < order.len()
    &&& 0 <= m < adj[order[j] as int].len()
    &&& adj[order[j] as int][m] == order[k]
    &&& forall|j2: int, m2: int|
        0 <= j2 < order.len() && 0 <= m2 < adj[order[j2] as int].len() && #[trigger] adj[order[j2] as int][m2]
            == order[k] ==> j2 < j || (j2 == j && m2 <= m)
}

/// Vertex `order[k]` was freed by some edge.
pub open spec fn freed(adj: Seq<Seq<usize>>, order: Seq<usize>, k: int) -> bool {
    exists|j: int, m: int| #[trigger] freed_at(adj, order, k, j, m)
}

/// The first `z` vertices of `order` are the sources, in increasing order, and no later one is.
pub open spec fn sources_first(adj: Seq<Seq<usize>>, order: Seq<usize>, z: int) -> bool {
    &&& 0 <= z <= order.len()
    &&& forall|i: int| 0 <= i < z ==> is_source(adj, #[trigger] order[i])
    &&& forall|i: int| z <= i < order.len() ==> !is_source(adj, #[trigger] order[i])
    &&& forall|i1: int, i2: int| 0 <= i1 < i2 < z ==> #[trigger] order[i1] < #[trigger] order[i2]
}

/// Keys of freeing increase along `order` after its first `z` vertices.
pub open spec fn freed_in_order(adj: Seq<Seq<usize>>, order: Seq<usize>, z: int) -> bool {
    forall|k1: int, k2: int, j1: int, m1: int, j2: int, m2: int|
        z <= k1 < k2 && #[trigger] freed_at(adj, order, k1, j1, m1) && #[trigger] freed_at(
            adj,
            order,
            k2,
            j2,
            m2,
        ) ==> j1 < j2 || (j1 == j2 && m1 < m2)
}

/// `order` is the order of Kahn's algorithm with a first-in first-out queue: a topological
/// order that starts with the sources in increasing order, then lists every other vertex by
/// the edge that freed it, in the order in which the algorithm reads the edges (by the
/// position of their first vertex, then by their place in its adjacency list).
pub open spec fn kahn_order(adj: Seq<Seq<usize>>, order: Seq<usize>) -> bool {
    &&& is_topological_order(adj, order)
    &&& exists|z: int|
        #![trigger sources_first(adj, order, z)]
        sources_first(adj, order, z) && (forall|k: int| z <= k < order.len() ==> #[trigger] freed(adj, order, k))
            && freed_in_order(adj, order, z)
}

/// Vertex `d[k]` was freed before entry `m` of the list of `d[h]` was read.
pub open spec fn freed_before(adj: Seq<Seq<usize>>, d: Seq<usize>, k: int, h: int, m: int) -> bool {
    exists|j: int, mm: int| #[trigger] freed_at(adj, d, k, j, mm) && (j < h || (j == h && mm < m))
}

/// The state of Kahn's algorithm on the sequence `d` of vertices sorted or queued: the
/// sources come first, and every later vertex was freed before entry `m` of the list of
/// `d[h]`, in order.
#[verifier::opaque]
pub open spec fn kahn_state(adj: Seq<Seq<usize>>, d: Seq<usize>, z: int, h: int, m: int) -> bool {
    &&& sources_first(adj, d, z)
    &&& forall|k: int| z <= k < d.len() ==> #[trigger] freed_before(adj, d, k, h, m)
    &&& freed_in_order(adj, d, z)
}

/// A vertex is freed by one edge.
proof fn lemma_freed_unique(adj: Seq<Seq<usize>>, d: Seq<usize>, k: int, j1: int, m1: int, j2: int, m2: int)
    requires
        freed_at(adj, d, k, j1, m1),
        freed_at(adj, d, k, j2, m2),
    ensures
        j1 == j2 && m1 == m2,
{
    assert(adj[d[j2] as int][m2] == d[k]);
    assert(adj[d[j1] as int][m1] == d[k]);
}

/// Appending a vertex with no edge to the earlier ones keeps how they were freed.
proof fn lemma_freed_push(adj: Seq<Seq<usize>>, d: Seq<usize>, w: usize, k: int, j: int, m: int)
    requires
        0 <= k < d.len(),
        forall|x: int| 0 <= x < d.len() ==> !#[trigger] adj[w as int].contains(d[x]),
    ensures
        freed_at(adj, d.push(w), k, j, m) == freed_at(adj, d, k, j, m),
{
    let d2 = d.push(w);
    assert(d2[k] == d[k]);
    if 0 <= j < k {
        assert(d2[j] == d[j]);
    }
    if freed_at(adj, d, k, j, m) {
        assert forall|j2: int, m2: int|
            0 <= j2 < d2.len() && 0 <= m2 < adj[d2[j2] as int].len() && #[trigger] adj[d2[j2] as int][m2]
                == d2[k] implies j2 < j || (j2 == j && m2 <= m) by {
            if j2 == d.len() {
                assert(adj[w as int][m2] == d[k]);
                assert(adj[w as int].contains(d[k]));
            } else {
                assert(d2[j2] == d[j2]);
            }
        }
    }
    if freed_at(adj, d2, k, j, m) {
        assert forall|j2: int, m2: int|
            0 <= j2 < d.len() && 0 <= m2 < adj[d[j2] as int].len() && #[trigger] adj[d[j2] as int][m2]
                == d[k] implies j2 < j || (j2 == j && m2 <= m) by {
            assert(d2[j2] == d[j2]);
        }
    }
}

/// How vertex `d[k]` of Kahn's algorithm in progress was freed.
proof fn lemma_kahn_key(adj: Seq<Seq<usize>>, d: Seq<usize>, z: int, h: int, m: int, k: int) -> (jm: (int, int))
    requires
        kahn_state(adj, d, z, h, m),
        z <= k < d.len(),
    ensures
        freed_at(adj, d, k, jm.0, jm.1),
        jm.0 < h || (jm.0 == h && jm.1 < m),
{
    reveal(kahn_state);
    assert(freed_before(adj, d, k, h, m));
    choose|j: int, mm: int| #[trigger] freed_at(adj, d, k, j, mm) && (j < h || (j == h && mm < m))
}

/// The facts of Kahn's algorithm in progress that do not depend on the position read.
proof fn lemma_kahn_sources(adj: Seq<Seq<usize>>, d: Seq<usize>, z: int, h: int, m: int)
    requires
        kahn_state(adj, d, z, h, m),
    ensures
        sources_first(adj, d, z),
        freed_in_order(adj, d, z),
{
    reveal(kahn_state);
}

/// Reading an edge that frees no vertex.
proof fn lemma_kahn_skip(adj: Seq<Seq<usize>>, d: Seq<usize>, z: int, h: int, m: int)
    requires
        kahn_state(adj, d, z, h, m),
    ensures
        kahn_state(adj, d, z, h, m + 1),
{
    reveal(kahn_state);
    assert forall|k: int| z <= k < d.len() implies #[trigger] freed_before(adj, d, k, h, m + 1) by {
        let jm = lemma_kahn_key(adj, d, z, h, m, k);
        assert(freed_at(adj, d, k, jm.0, jm.1));
    }
}

/// Having read the whole list of `d[h]`, go on with the next vertex.
proof fn lemma_kahn_next(adj: Seq<Seq<usize>>, d: Seq<usize>, z: int, h: int, m: int)
    requires
        kahn_state(adj, d, z, h, m),
        0 <= m,
    ensures
        kahn_state(adj, d, z, h + 1, 0),
{
    reveal(kahn_state);
    assert forall|k: int| z <= k < d.len() implies #[trigger] freed_before(adj, d, k, h + 1, 0) by {
        let jm = lemma_kahn_key(adj, d, z, h, m, k);
        assert(freed_at(adj, d, k, jm.0, jm.1));
    }
}

/// Reading entry `m` of the list of `d[h]` frees the vertex `w` that it leads to, when every
/// edge to `w` from a vertex of `d` has been read.
proof fn lemma_kahn_free(adj: Seq<Seq<usize>>, d: Seq<usize>, z: int, h: int, m: int, w: usize)
    requires
        kahn_state(adj, d, z, h, m),
        0 <= h < d.len(),
        z <= d.len(),
        0 <= m < adj[d[h] as int].len(),
        adj[d[h] as int][m] == w,
        forall|i: int| 0 <= i < d.len() ==> #[trigger] d[i] < adj.len(),
        !adj[w as int].contains(w),
        forall|x: int| 0 <= x < d.len() ==> !#[trigger] adj[w as int].contains(d[x]),
        forall|j2: int, m2: int|
            0 <= j2 < d.len() && 0 <= m2 < adj[d[j2] as int].len() && #[trigger] adj[d[j2] as int][m2] == w
                ==> j2 < h || (j2 == h && m2 <= m),
    ensures
        kahn_state(adj, d.push(w), z, h, m + 1),
{
    reveal(kahn_state);
    let d2 = d.push(w);
    let kn = d.len() as int;
    assert(d2[kn] == w);
    assert(d2[h] == d[h]);
    assert forall|k: int, j: int, mm: int| 0 <= k < d.len() implies freed_at(adj, d2, k, j, mm) == freed_at(
        adj,
        d,
        k,
        j,
        mm,
    ) by {
        lemma_freed_push(adj, d, w, k, j, mm);
    }
    assert(freed_at(adj, d2, kn, h, m)) by {
        assert forall|j2: int, m2: int|
            0 <= j2 < d2.len() && 0 <= m2 < adj[d2[j2] as int].len() && #[trigger] adj[d2[j2] as int][m2]
                == d2[kn] implies j2 < h || (j2 == h && m2 <= m) by {
            if j2 < kn {
                assert(d2[j2] == d[j2]);
            } else {
                assert(adj[w as int][m2] == w);
                assert(adj[w as int].contains(w));
            }
        }
    }
    assert(sources_first(adj, d2, z)) by {
        assert forall|i: int| 0 <= i < z implies is_source(adj, #[trigger] d2[i]) by {
            assert(d2[i] == d[i]);
        }
        assert forall|i: int| z <= i < d2.len() implies !is_source(adj, #[trigger] d2[i]) by {
            if i < kn {
                assert(d2[i] == d[i]);
            } else {
                assert(d[h] < adj.len());
                assert(adj[d[h] as int][m] == w);
                assert(adj[d[h] as int].contains(w));
            }
        }
        assert forall|i1: int, i2: int| 0 <= i1 < i2 < z implies #[trigger] d2[i1] < #[trigger] d2[i2] by {
            assert(d2[i1] == d[i1] && d2[i2] == d[i2]);
        }
    }
    assert forall|k: int| z <= k < d2.len() implies #[trigger] freed_before(adj, d2, k, h, m + 1) by {
        if k < kn {
            let jm = lemma_kahn_key(adj, d, z, h, m, k);
            assert(freed_at(adj, d2, k, jm.0, jm.1));
        } else {
            assert(freed_at(adj, d2, kn, h, m));
        }
    }
    assert forall|k1: int, k2: int, j1: int, m1: int, j2: int, m2: int|
        z <= k1 < k2 && #[trigger] freed_at(adj, d2, k1, j1, m1) && #[trigger] freed_at(adj, d2, k2, j2, m2)
            implies j1 < j2 || (j1 == j2 && m1 < m2) by {
        if k2 < kn {
            assert(freed_at(adj, d, k1, j1, m1));
            assert(freed_at(adj, d, k2, j2, m2));
        } else {
            lemma_freed_unique(adj, d2, k2, j2, m2, h, m);
            assert(freed_at(adj, d, k1, j1, m1));
            let jm = lemma_kahn_key(adj, d, z, h, m, k1);
            lemma_freed_unique(adj, d, k1, j1, m1, jm.0, jm.1);
        }
    }
}

/// The sources, in increasing order, start Kahn's algorithm.
proof fn lemma_kahn_init(adj: Seq<Seq<usize>>, q: Seq<usize>)
    requires
        sources_first(adj, q, q.len() as int),
    ensures
        kahn_state(adj, q, q.len() as int, 0, 0),
{
    reveal(kahn_state);
}

/// A finished run of Kahn's algorithm that sorted every vertex gives its order.
proof fn lemma_kahn_done(adj: Seq<Seq<usize>>, order: Seq<usize>, z: int)
    requires
        kahn_state(adj, order, z, order.len() as int, 0),
        is_topological_order(adj, order),
    ensures
        kahn_order(adj, order),
{
    reveal(kahn_state);
    assert forall|k: int| z <= k < order.len() implies #[trigger] freed(adj, order, k) by {
        let jm = lemma_kahn_key(adj, order, z, order.len() as int, 0, k);
        assert(freed_at(adj, order, k, jm.0, jm.1));
    }
    assert(sources_first(adj, order, z));
}

/// With no edge into `w` left unread, every edge into it from a vertex sorted or queued was
/// read before entry `m` of the list of the vertex `v` being read, inclusive, and `w` has no
/// edge to itself.
proof fn lemma_kahn_free_edges(
    adj: Seq<Seq<usize>>,
    pre: Seq<int>,
    order: Seq<usize>,
    queue: Seq<usize>,
    v: usize,
    m: int,
    w: usize,
)
    requires
        (order + queue).no_duplicates(),
        order.len() >= 1,
        order.last() == v,
        pre.len() == adj.len(),
        0 <= m < adj[v as int].len(),
        pre[v as int] == m + 1,
        forall|x: int|
            0 <= x < adj.len() && x != v as int ==> #[trigger] pre[x] == (if order.contains(x as usize) {
                adj[x].len() as int
            } else {
                0
            }),
        pending_in(adj, pre, adj.len() as int, w) == 0,
        w < adj.len(),
        v < adj.len(),
        !(order + queue).contains(w),
        forall|i: int| 0 <= i < (order + queue).len() ==> #[trigger] (order + queue)[i] < adj.len(),
    ensures
        !adj[w as int].contains(w),
        forall|j2: int, m2: int|
            0 <= j2 < (order + queue).len() && 0 <= m2 < adj[(order + queue)[j2] as int].len()
                && #[trigger] adj[(order + queue)[j2] as int][m2] == w ==> j2 < order.len() - 1 || (j2
                == order.len() - 1 && m2 <= m),
{
    let d = order + queue;
    let h = order.len() - 1;
    let n = adj.len() as int;
    assert(d[h] == v);
    assert forall|x: int, m2: int|
        0 <= x < n && 0 <= m2 < adj[x].len() && adj[x][m2] == w implies m2 < pre[x] by {
        lemma_pending_term(adj, pre, n, x, w);
        lemma_occ_zero(adj[x].skip(pre[x]), w);
        if x != v as int {
            assert(pre[x] == (if order.contains(x as usize) {
                adj[x].len() as int
            } else {
                0
            }));
        }
        assert(0 <= pre[x] <= adj[x].len());
        if m2 >= pre[x] {
            assert(adj[x].skip(pre[x])[m2 - pre[x]] == w);
            assert(adj[x].skip(pre[x]).contains(w));
        }
    }
    assert(!order.contains(w)) by {
        if order.contains(w) {
            let i = choose|i: int| 0 <= i < order.len() && order[i] == w;
            assert(d[i] == w);
        }
    }
    assert(w != v);
    assert(pre[w as int] == 0);
    assert(!adj[w as int].contains(w)) by {
        if adj[w as int].contains(w) {
            let m2 = choose|m2: int| 0 <= m2 < adj[w as int].len() && adj[w as int][m2] == w;
        }
    }
    assert forall|j2: int, m2: int|
        0 <= j2 < d.len() && 0 <= m2 < adj[d[j2] as int].len() && #[trigger] adj[d[j2] as int][m2] == w
            implies j2 < h || (j2 == h && m2 <= m) by {
        let x = d[j2];
        assert(m2 < pre[x as int]);
        if j2 > h {
            assert(x == queue[j2 - order.len()]);
            assert(!order.contains(x)) by {
                if order.contains(x) {
                    let i = choose|i: int| 0 <= i < order.len() && order[i] == x;
                    assert(d[i] == x);
                }
            }
            assert(x != v) by {
                assert(d[h] == v);
            }
        }
    }
}

/// The number of `false` entries of `s`.
pub open spec fn count_false(s: Seq<bool>) -> nat
    decreases s.len(),
{
    if s.len() == 0 {
        0
    } else {
        count_false(s.drop_last()) + if s.last() {
            0nat
        } else {
            1nat
        }
    }
}

proof fn lemma_count_false_set(s: Seq<bool>, i: int)
    requires
        0 <= i < s.len(),
        !s[i],
    ensures
        count_false(s.update(i, true)) + 1 == count_false(s),
    decreases s.len(),
{
    let t = s.update(i, true);
    if i < s.len() - 1 {
        assert(t.drop_last() =~= s.drop_last().update(i, true));
        lemma_count_false_set(s.drop_last(), i);
    } else {
        assert(t.drop_last() =~= s.drop_last());
    }
}

/// A path extended by an edge is a path.
proof fn lemma_path_push(adj: Seq<Seq<usize>>, p: Seq<usize>, v: usize)
    requires
        is_path(adj, p),
        adj[p.last() as int].contains(v),
        v < adj.len(),
    ensures
        is_path(adj, p.push(v)),
{
    let q = p.push(v);
    assert forall|i: int| 0 <= i < q.len() - 1 implies adj[#[trigger] q[i] as int].contains(q[i + 1]) by {
        if i < p.len() - 1 {
            assert(q[i] == p[i] && q[i + 1] == p[i + 1]);
        }
    }
}

/// A sequence of vertices that holds `start` and, with each vertex, its successors holds
/// every vertex reachable from `start`.
proof fn lemma_closed_reachable(adj: Seq<Seq<usize>>, d: Seq<usize>, start: usize, t: usize)
    requires
        d.contains(start),
        forall|j: int, m: int|
            0 <= j < d.len() && 0 <= m < adj[d[j] as int].len() ==> d.contains(
                #[trigger] adj[d[j] as int][m],
            ),
        reachable(adj, start, t),
    ensures
        d.contains(t),
{
    let p = choose|p: Seq<usize>| #[trigger] is_path(adj, p) && p[0] == start && p.last() == t;
    lemma_closed_path(adj, d, p, p.len() - 1);
}

proof fn lemma_closed_path(adj: Seq<Seq<usize>>, d: Seq<usize>, p: Seq<usize>, i: int)
    requires
        is_path(adj, p),
        d.contains(p[0]),
        forall|j: int, m: int|
            0 <= j < d.len() && 0 <= m < adj[d[j] as int].len() ==> d.contains(
                #[trigger] adj[d[j] as int][m],
            ),
        0 <= i < p.len(),
    ensures
        d.contains(p[i]),
    decreases i,
{
    if i > 0 {
        lemma_closed_path(adj, d, p, i - 1);
        let j = choose|j: int| 0 <= j < d.len() && #[trigger] d[j] == p[i - 1];
        assert(adj[p[i - 1] as int].contains(p[i]));
        let m = choose|m: int|
            0 <= m < adj[p[i - 1] as int].len() && #[trigger] adj[p[i - 1] as int][m] == p[i];
        assert(d.contains(adj[d[j] as int][m]));
    }
}

/// Every vertex of a sequence that starts at `start` and whose later vertices are each the
/// successor of an earlier one is reachable from `start`.
proof fn lemma_discovered_reachable(adj: Seq<Seq<usize>>, d: Seq<usize>, start: usize, k: int)
    requires
        d.len() >= 1,
        d[0] == start,
        start < adj.len(),
        forall|i: int| 0 <= i < d.len() ==> #[trigger] d[i] < adj.len(),
        forall|i: int| 1 <= i < d.len() ==> #[trigger] has_earlier_pred(adj, d, i),
        0 <= k < d.len(),
    ensures
        reachable(adj, start, d[k]),
    decreases k,
{
    if k == 0 {
        let p = seq![start];
        assert(is_path(adj, p));
    } else {
        assert(has_earlier_pred(adj, d, k));
        let j = choose|j: int| 0 <= j < k && adj[d[j] as int].contains(d[k]);
        lemma_discovered_reachable(adj, d, start, j);
        let p = choose|p: Seq<usize>| #[trigger] is_path(adj, p) && p[0] == start && p.last() == d[j];
        lemma_path_push(adj, p, d[k]);
        assert(p.push(d[k])[0] == start);
    }
}

/// Appending to a traversal order does not change how its vertices were discovered.
proof fn lemma_discovered_push(
    adj: Seq<Seq<usize>>,
    d: Seq<usize>,
    w: usize,
    k: int,
    j: int,
    m: int,
)
    requires
        0 <= k < d.len(),
    ensures
        discovered_at(adj, d.push(w), k, j, m) == discovered_at(adj, d, k, j, m),
{
    let d2 = d.push(w);
    if 0 <= j < k {
        assert(d2[j] == d[j]);
        assert(d2[k] == d[k]);
        assert(forall|j2: int| 0 <= j2 < j ==> d2[j2] == d[j2]);
    }
}

/// Vertex `d[k]` was discovered before entry `last_m` of the adjacency list of `d[done]`.
pub open spec fn discovered_before(
    adj: Seq<Seq<usize>>,
    d: Seq<usize>,
    k: int,
    done: int,
    last_m: int,
) -> bool {
    exists|j: int, m: int|
        #[trigger] discovered_at(adj, d, k, j, m) && (j < done || (j == done && m < last_m))
}

/// The order of discovery of a breadth-first traversal so far: the vertices discovered from
/// the first `done` vertices of `d`, with the adjacency list of the last of them read up to
/// entry `m` (or, when `m` is -1, all of them completely).
#[verifier::opaque]
pub open spec fn bfs_state(
    adj: Seq<Seq<usize>>,
    start: usize,
    d: Seq<usize>,
    done: int,
    last_m: int,
) -> bool {
    &&& d.len() >= 1
    &&& d[0] == start
    &&& d.no_duplicates()
    &&& forall|i: int| 0 <= i < d.len() ==> #[trigger] d[i] < adj.len()
    &&& forall|k: int| 1 <= k < d.len() ==> #[trigger] discovered_before(adj, d, k, done, last_m)
    &&& forall|k1: int, k2: int, j1: int, m1: int, j2: int, m2: int|
        1 <= k1 < k2 && #[trigger] discovered_at(adj, d, k1, j1, m1) && #[trigger] discovered_at(
            adj,
            d,
            k2,
            j2,
            m2,
        ) ==> j1 < j2 || (j1 == j2 && m1 < m2)
    &&& forall|j: int, m: int|
        0 <= j < done && 0 <= m < adj[d[j] as int].len() ==> d.contains(
            #[trigger] adj[d[j] as int][m],
        )
    &&& 0 <= done < d.len() ==> forall|m: int|
        0 <= m < last_m ==> d.contains(#[trigger] adj[d[done] as int][m])
}

/// A vertex of a traversal order was discovered from one vertex, by one entry.
proof fn lemma_discovered_unique(
    adj: Seq<Seq<usize>>,
    d: Seq<usize>,
    k: int,
    j1: int,
    m1: int,
    j2: int,
    m2: int,
)
    requires
        discovered_at(adj, d, k, j1, m1),
        discovered_at(adj, d, k, j2, m2),
    ensures
        j1 == j2,
        m1 == m2,
{
    if j1 < j2 {
        assert(adj[d[j1] as int].contains(d[k]));
    }
    if j2 < j1 {
        assert(adj[d[j2] as int].contains(d[k]));
    }
}

/// The plain facts of a breadth-first traversal in progress.
proof fn lemma_bfs_facts(adj: Seq<Seq<usize>>, start: usize, d: Seq<usize>, done: int, last_m: int)
    requires
        bfs_state(adj, start, d, done, last_m),
    ensures
        d.len() >= 1,
        d[0] == start,
        d.no_duplicates(),
        forall|i: int| 0 <= i < d.len() ==> #[trigger] d[i] < adj.len(),
{
    reveal(bfs_state);
}

/// How vertex `d[k]` of a breadth-first traversal in progress was discovered.
proof fn lemma_bfs_key(
    adj: Seq<Seq<usize>>,
    start: usize,
    d: Seq<usize>,
    done: int,
    last_m: int,
    k: int,
) -> (jm: (int, int))
    requires
        bfs_state(adj, start, d, done, last_m),
        1 <= k < d.len(),
    ensures
        discovered_at(adj, d, k, jm.0, jm.1),
        jm.0 < done || (jm.0 == done && jm.1 < last_m),
{
    reveal(bfs_state);
    assert(discovered_before(adj, d, k, done, last_m));
    choose|j: int, m: int|
        #[trigger] discovered_at(adj, d, k, j, m) && (j < done || (j == done && m < last_m))
}

/// Reading an entry of the current adjacency list whose vertex is already discovered.
proof fn lemma_bfs_skip(adj: Seq<Seq<usize>>, start: usize, d: Seq<usize>, h: int, m: int)
    requires
        bfs_state(adj, start, d, h, m),
        0 <= h < d.len(),
        0 <= m < adj[d[h] as int].len(),
        d.contains(adj[d[h] as int][m]),
    ensures
        bfs_state(adj, start, d, h, m + 1),
{
    reveal(bfs_state);
    assert forall|k: int| 1 <= k < d.len() implies #[trigger] discovered_before(adj, d, k, h, m + 1) by {
        let jm = lemma_bfs_key(adj, start, d, h, m, k);
        assert(discovered_at(adj, d, k, jm.0, jm.1));
    }
}

/// Reading an entry of the current adjacency list whose vertex is new: it is discovered.
proof fn lemma_bfs_push(adj: Seq<Seq<usize>>, start: usize, d: Seq<usize>, h: int, m: int)
    requires
        bfs_state(adj, start, d, h, m),
        0 <= h < d.len(),
        0 <= m < adj[d[h] as int].len(),
        adj[d[h] as int][m] < adj.len(),
        !d.contains(adj[d[h] as int][m]),
    ensures
        bfs_state(adj, start, d.push(adj[d[h] as int][m]), h, m + 1),
{
    reveal(bfs_state);
    let w = adj[d[h] as int][m];
    let d2 = d.push(w);
    let kn = d.len() as int;
    assert(forall|i: int| 0 <= i < d.len() ==> d2[i] == d[i]);
    assert(d2[kn] == w);
    assert forall|k: int, j: int, mm: int| 0 <= k < d.len() implies discovered_at(adj, d2, k, j, mm)
        == discovered_at(adj, d, k, j, mm) by {
        lemma_discovered_push(adj, d, w, k, j, mm);
    }
    assert(discovered_at(adj, d2, kn, h, m)) by {
        assert forall|j2: int| 0 <= j2 < h implies !adj[#[trigger] d2[j2] as int].contains(d2[kn]) by {
            if adj[d2[j2] as int].contains(w) {
                let m2 = choose|m2: int|
                    0 <= m2 < adj[d[j2] as int].len() && #[trigger] adj[d[j2] as int][m2] == w;
                assert(d.contains(adj[d[j2] as int][m2]));
            }
        }
        assert forall|m2: int| 0 <= m2 < m implies #[trigger] adj[d2[h] as int][m2] != d2[kn] by {
            assert(d.contains(adj[d[h] as int][m2]));
        }
    }
    assert(d2.no_duplicates());
    assert forall|k: int| 1 <= k < d2.len() implies #[trigger] discovered_before(adj, d2, k, h, m + 1) by {
        if k < kn {
            let jm = lemma_bfs_key(adj, start, d, h, m, k);
            assert(discovered_at(adj, d2, k, jm.0, jm.1));
        } else {
            assert(discovered_at(adj, d2, kn, h, m));
        }
    }
    assert forall|k1: int, k2: int, j1: int, m1: int, j2: int, m2: int|
        1 <= k1 < k2 && #[trigger] discovered_at(adj, d2, k1, j1, m1) && #[trigger] discovered_at(
            adj,
            d2,
            k2,
            j2,
            m2,
        ) implies j1 < j2 || (j1 == j2 && m1 < m2) by {
        if k2 < kn {
            assert(discovered_at(adj, d, k1, j1, m1));
            assert(discovered_at(adj, d, k2, j2, m2));
        } else {
            lemma_discovered_unique(adj, d2, k2, j2, m2, h, m);
            assert(discovered_at(adj, d, k1, j1, m1));
            let jm = lemma_bfs_key(adj, start, d, h, m, k1);
            lemma_discovered_unique(adj, d, k1, j1, m1, jm.0, jm.1);
        }
    }
    assert forall|j: int, mm: int|
        0 <= j < h && 0 <= mm < adj[d2[j] as int].len() implies d2.contains(
        #[trigger] adj[d2[j] as int][mm],
    ) by {
        assert(d.contains(adj[d[j] as int][mm]));
    }
    assert forall|mm: int| 0 <= mm < m + 1 implies d2.contains(#[trigger] adj[d2[h] as int][mm]) by {
        if mm < m {
            assert(d.contains(adj[d[h] as int][mm]));
        } else {
            assert(d2[kn] == w);
        }
    }
}

/// Having read the whole adjacency list of the current vertex, go on with the next one.
proof fn lemma_bfs_next(adj: Seq<Seq<usize>>, start: usize, d: Seq<usize>, h: int)
    requires
        bfs_state(adj, start, d, h, adj[d[h] as int].len() as int),
        0 <= h < d.len(),
    ensures
        bfs_state(adj, start, d, h + 1, 0),
{
    reveal(bfs_state);
    assert forall|k: int| 1 <= k < d.len() implies #[trigger] discovered_before(adj, d, k, h + 1, 0) by {
        let jm = lemma_bfs_key(adj, start, d, h, adj[d[h] as int].len() as int, k);
        assert(discovered_at(adj, d, k, jm.0, jm.1));
    }
}

/// A finished breadth-first traversal gives the breadth-first order.
proof fn lemma_bfs_done(adj: Seq<Seq<usize>>, start: usize, d: Seq<usize>)
    requires
        bfs_state(adj, start, d, d.len() as int, 0),
        start < adj.len(),
    ensures
        bfs_order(adj, start, d),
{
    reveal(bfs_state);
    assert forall|i: int| 1 <= i < d.len() implies #[trigger] has_earlier_pred(adj, d, i) by {
        let jm = lemma_bfs_key(adj, start, d, d.len() as int, 0, i);
        assert(adj[d[jm.0] as int][jm.1] == d[i]);
    }
    assert forall|v: usize| #[trigger] d.contains(v) <==> reachable(adj, start, v) by {
        if d.contains(v) {
            let k = choose|k: int| 0 <= k < d.len() && d[k] == v;
            lemma_discovered_reachable(adj, d, start, k);
        }
        if reachable(adj, start, v) {
            assert(d[0] == start);
            lemma_closed_reachable(adj, d, start, v);
        }
    }
    assert forall|k: int| 1 <= k < d.len() implies #[trigger] discovered(adj, d, k) by {
        let jm = lemma_bfs_key(adj, start, d, d.len() as int, 0, k);
        assert(discovered_at(adj, d, k, jm.0, jm.1));
    }
}

/// A sequence that starts at `start`, holds no vertex twice, has an earlier predecessor for
/// every later vertex and holds the successors of each of its vertices is the traversal
/// order of the vertices reachable from `start`.
proof fn lemma_traversal_done(adj: Seq<Seq<usize>>, start: usize, d: Seq<usize>)
    requires
        d.len() >= 1,
        d[0] == start,
        start < adj.len(),
        d.no_duplicates(),
        forall|i: int| 0 <= i < d.len() ==> #[trigger] d[i] < adj.len(),
        forall|i: int| 1 <= i < d.len() ==> #[trigger] has_earlier_pred(adj, d, i),
        forall|j: int, m: int|
            0 <= j < d.len() && 0 <= m < adj[d[j] as int].len() ==> d.contains(
                #[trigger] adj[d[j] as int][m],
            ),
    ensures
        traversal_order(adj, start, d),
{
    assert forall|v: usize| #[trigger] d.contains(v) <==> reachable(adj, start, v) by {
        if d.contains(v) {
            let k = choose|k: int| 0 <= k < d.len() && d[k] == v;
            lemma_discovered_reachable(adj, d, start, k);
        }
        if reachable(adj, start, v) {
            assert(d[0] == start);
            lemma_closed_reachable(adj, d, start, v);
        }
    }
}

/// Appending to a sequence keeps the earlier predecessors of its vertices.
proof fn lemma_has_earlier_pred_push(adj: Seq<Seq<usize>>, d: Seq<usize>, w: usize, k: int)
    requires
        0 <= k < d.len(),
        has_earlier_pred(adj, d, k),
    ensures
        has_earlier_pred(adj, d.push(w), k),
{
    let j = choose|j: int| 0 <= j < k && adj[d[j] as int].contains(d[k]);
    assert(d.push(w)[j] == d[j]);
    assert(d.push(w)[k] == d[k]);
}

/// In the finishing order `fin`, vertex `w` finished before `fin[i]`.
pub open spec fn finished_before(fin: Seq<usize>, i: int, w: usize) -> bool {
    exists|j: int| 0 <= j < i && fin[j] == w
}

/// The state of a cycle search by depth-first traversal: `path` is the path of vertices
/// being explored (marked in `rec`), `fin` lists the vertices whose exploration is finished,
/// in order, each of whose successors finished before it, and `visited` marks both.
pub open spec fn cycle_search_state(
    adj: Seq<Seq<usize>>,
    visited: Seq<bool>,
    rec: Seq<bool>,
    path: Seq<usize>,
    fin: Seq<usize>,
) -> bool {
    &&& visited.len() == adj.len()
    &&& rec.len() == adj.len()
    &&& path.no_duplicates()
    &&& fin.no_duplicates()
    &&& path.len() > 0 ==> is_path(adj, path)
    &&& forall|i: int| 0 <= i < fin.len() ==> #[trigger] fin[i] < adj.len()
    &&& forall|u: int| 0 <= u < adj.len() ==> #[trigger] rec[u] == path.contains(u as usize)
    &&& forall|u: int|
        0 <= u < adj.len() ==> #[trigger] visited[u] == (path.contains(u as usize) || fin.contains(
            u as usize,
        ))
    &&& forall|u: usize| #[trigger] fin.contains(u) ==> !path.contains(u)
    &&& forall|i: int, m: int|
        0 <= i < fin.len() && 0 <= m < adj[fin[i] as int].len() ==> #[trigger] finished_before(
            fin,
            i,
            adj[fin[i] as int][m],
        )
}

/// A depth-first visit may start at `v`: `visited` marks exactly the vertices of `order`,
/// which holds distinct vertices, each after the first discovered from an earlier one, and
/// `v` is a successor of one of them.
pub open spec fn dfs_ready(adj: Seq<Seq<usize>>, visited: Seq<bool>, order: Seq<usize>, v: usize) -> bool {
    &&& forall|u: int| 0 <= u < adj.len() ==> #[trigger] visited[u] == order.contains(u as usize)
    &&& order.no_duplicates()
    &&& forall|i: int| 0 <= i < order.len() ==> #[trigger] order[i] < adj.len()
    &&& order.len() > 0 ==> has_pred_in(adj, order, v)
    &&& forall|k: int| 1 <= k < order.len() ==> #[trigger] has_earlier_pred(adj, order, k)
}

/// The search may start at `v`: the state is consistent with `path`, and `v` is a successor
/// of the last vertex of `path`.
pub open spec fn search_ready(
    adj: Seq<Seq<usize>>,
    visited: Seq<bool>,
    rec: Seq<bool>,
    path: Seq<usize>,
    fin: Seq<usize>,
    v: usize,
) -> bool {
    &&& cycle_search_state(adj, visited, rec, path, fin)
    &&& path.len() > 0 ==> adj[path.last() as int].contains(v)
}

/// A path that runs into one of its own vertices closes a cycle.
proof fn lemma_back_edge_cycle(adj: Seq<Seq<usize>>, path: Seq<usize>, q: int, w: usize)
    requires
        is_path(adj, path),
        0 <= q < path.len(),
        path[q] == w,
        adj[path.last() as int].contains(w),
    ensures
        has_cycle_spec(adj),
{
    let c = path.subrange(q, path.len() as int);
    assert(c.last() == path.last());
    assert(is_path(adj, c)) by {
        assert forall|i: int| 0 <= i < c.len() - 1 implies adj[#[trigger] c[i] as int].contains(c[i + 1]) by {
            assert(c[i] == path[q + i] && c[i + 1] == path[q + i + 1]);
        }
    }
    lemma_path_push(adj, c, w);
    let c2 = c.push(w);
    assert(c2[0] == w);
    assert(c2.last() == w);
    assert(is_path(adj, c2) && c2.len() >= 2 && c2[0] == c2.last());
}

/// Along a path through finished vertices, each vertex finished before the one before it.
proof fn lemma_finished_path(adj: Seq<Seq<usize>>, fin: Seq<usize>, p: Seq<usize>, k: int)
    requires
        is_path(adj, p),
        fin.no_duplicates(),
        forall|u: int| 0 <= u < adj.len() ==> fin.contains(#[trigger] (u as usize)),
        forall|i: int, m: int|
            0 <= i < fin.len() && 0 <= m < adj[fin[i] as int].len() ==> #[trigger] finished_before(
                fin,
                i,
                adj[fin[i] as int][m],
            ),
        1 <= k < p.len(),
    ensures
        fin.index_of(p[k]) < fin.index_of(p[0]),
    decreases k,
{
    let a = p[k - 1];
    let b = p[k];
    assert(fin.contains(a as int as usize));
    assert(fin.contains(b as int as usize));
    let ia = fin.index_of(a);
    let ib = fin.index_of(b);
    assert(adj[a as int].contains(b));
    let m = choose|m: int| 0 <= m < adj[a as int].len() && adj[a as int][m] == b;
    assert(fin[ia] == a);
    assert(finished_before(fin, ia, adj[fin[ia] as int][m]));
    let j = choose|j: int| 0 <= j < ia && fin[j] == b;
    assert(fin[ib] == b);
    assert(j == ib);
    if k > 1 {
        lemma_finished_path(adj, fin, p, k - 1);
    }
}

/// When every vertex has finished, and each successor finished before its predecessor,
/// there is no cycle.
proof fn lemma_finished_acyclic(adj: Seq<Seq<usize>>, fin: Seq<usize>)
    requires
        fin.no_duplicates(),
        forall|u: int| 0 <= u < adj.len() ==> fin.contains(#[trigger] (u as usize)),
        forall|i: int, m: int|
            0 <= i < fin.len() && 0 <= m < adj[fin[i] as int].len() ==> #[trigger] finished_before(
                fin,
                i,
                adj[fin[i] as int][m],
            ),
    ensures
        !has_cycle_spec(adj),
{
    if has_cycle_spec(adj) {
        let p = choose|p: Seq<usize>| #[trigger] is_path(adj, p) && p.len() >= 2 && p[0] == p.last();
        lemma_finished_path(adj, fin, p, p.len() - 1);
    }
}

/// The number of occurrences of `u` in `s`.
pub open spec fn occ(s: Seq<usize>, u: usize) -> nat
    decreases s.len(),
{
    if s.len() == 0 {
        0
    } else {
        (if s[0] == u {
            1nat
        } else {
            0nat
        }) + occ(s.drop_first(), u)
    }
}

/// The number of edges in the adjacency lists of the vertices below `k`.
pub open spec fn edges_upto(adj: Seq<Seq<usize>>, k: int) -> nat
    decreases k,
{
    if k <= 0 {
        0
    } else {
        edges_upto(adj, k - 1) + adj[k - 1].len()
    }
}

/// The number of edges of the graph.
pub open spec fn num_edges(adj: Seq<Seq<usize>>) -> nat {
    edges_upto(adj, adj.len() as int)
}

/// The number of edges into `u` from the vertices below `k`, leaving out the first `pre[x]`
/// entries of the adjacency list of each vertex `x`.
pub open spec fn pending_in(adj: Seq<Seq<usize>>, pre: Seq<int>, k: int, u: usize) -> nat
    decreases k,
{
    if k <= 0 {
        0
    } else {
        pending_in(adj, pre, k - 1, u) + occ(adj[k - 1].skip(pre[k - 1]), u)
    }
}

/// `order` holds every vertex once, and every edge goes from an earlier vertex of `order`
/// to a later one.
pub open spec fn is_topological_order(adj: Seq<Seq<usize>>, order: Seq<usize>) -> bool {
    &&& order.len() == adj.len()
    &&& order.no_duplicates()
    &&& forall|i: int| 0 <= i < order.len() ==> #[trigger] order[i] < adj.len()
    &&& forall|j: int, k: int|
        0 <= j < order.len() && 0 <= k < order.len() && #[trigger] adj[order[j] as int].contains(
            order[k],
        ) ==> j < k
}

/// Vertex `x` stands in `d` before position `k`.
pub open spec fn placed_before(d: Seq<usize>, k: int, x: usize) -> bool {
    exists|j: int| 0 <= j < k && d[j] == x
}

proof fn lemma_occ_split(s: Seq<usize>, m: int, u: usize)
    requires
        0 <= m <= s.len(),
    ensures
        occ(s, u) == occ(s.take(m), u) + occ(s.skip(m), u),
    decreases m,
{
    if m == 0 {
        assert(s.take(0) =~= Seq::<usize>::empty());
        assert(s.skip(0) =~= s);
    } else {
        let t = s.drop_first();
        lemma_occ_split(t, m - 1, u);
        assert(t.skip(m - 1) =~= s.skip(m));
        assert(s.take(m).drop_first() =~= t.take(m - 1));
        assert(s.take(m)[0] == s[0]);
    }
}

proof fn lemma_occ_take_step(s: Seq<usize>, m: int, u: usize)
    requires
        0 <= m < s.len(),
    ensures
        occ(s.take(m + 1), u) == occ(s.take(m), u) + (if s[m] == u {
            1nat
        } else {
            0nat
        }),
{
    let t = s.take(m + 1);
    lemma_occ_split(t, m, u);
    assert(t.take(m) =~= s.take(m));
    assert(t.skip(m) =~= seq![s[m]]);
    assert(seq![s[m]].drop_first() =~= Seq::<usize>::empty());
    assert(occ(Seq::<usize>::empty(), u) == 0);
    assert(occ(seq![s[m]], u) == (if s[m] == u {
        1nat
    } else {
        0nat
    }) + occ(seq![s[m]].drop_first(), u));
}

proof fn lemma_occ_skip_step(s: Seq<usize>, m: int, u: usize)
    requires
        0 <= m < s.len(),
    ensures
        occ(s.skip(m), u) == occ(s.skip(m + 1), u) + (if s[m] == u {
            1nat
        } else {
            0nat
        }),
{
    assert(s.skip(m).drop_first() =~= s.skip(m + 1));
    assert(s.skip(m)[0] == s[m]);
}

proof fn lemma_occ_zero(s: Seq<usize>, u: usize)
    ensures
        occ(s, u) == 0 <==> !s.contains(u),
    decreases s.len(),
{
    if s.len() > 0 {
        lemma_occ_zero(s.drop_first(), u);
        if s.drop_first().contains(u) {
            let i = choose|i: int| 0 <= i < s.drop_first().len() && s.drop_first()[i] == u;
            assert(s[i + 1] == u);
        }
        if s.contains(u) && s[0] != u {
            let i = choose|i: int| 0 <= i < s.len() && s[i] == u;
            assert(s.drop_first()[i - 1] == u);
        }
    }
}

proof fn lemma_occ_le_len(s: Seq<usize>, u: usize)
    ensures
        occ(s, u) <= s.len(),
    decreases s.len(),
{
    if s.len() > 0 {
        lemma_occ_le_len(s.drop_first(), u);
    }
}

proof fn lemma_edges_mono(adj: Seq<Seq<usize>>, a: int, b: int)
    requires
        0 <= a <= b,
    ensures
        edges_upto(adj, a) <= edges_upto(adj, b),
    decreases b - a,
{
    if a < b {
        lemma_edges_mono(adj, a, b - 1);
    }
}

/// With nothing left out, the pending edges into `u` number at most the edges.
proof fn lemma_pending_bound(adj: Seq<Seq<usize>>, pre: Seq<int>, k: int, u: usize)
    requires
        0 <= k <= pre.len(),
        forall|x: int| 0 <= x < k ==> pre[x] == 0,
    ensures
        pending_in(adj, pre, k, u) <= edges_upto(adj, k),
    decreases k,
{
    if k > 0 {
        lemma_pending_bound(adj, pre, k - 1, u);
        assert(adj[k - 1].skip(0) =~= adj[k - 1]);
        lemma_occ_le_len(adj[k - 1], u);
    }
}

/// Each term of the sum is at most the sum.
proof fn lemma_pending_term(adj: Seq<Seq<usize>>, pre: Seq<int>, k: int, x: int, u: usize)
    requires
        0 <= x < k,
    ensures
        occ(adj[x].skip(pre[x]), u) <= pending_in(adj, pre, k, u),
    decreases k,
{
    if x < k - 1 {
        lemma_pending_term(adj, pre, k - 1, x, u);
    }
}

/// A positive sum has a positive term.
proof fn lemma_pending_pos(adj: Seq<Seq<usize>>, pre: Seq<int>, k: int, u: usize) -> (x: int)
    requires
        pending_in(adj, pre, k, u) > 0,
    ensures
        0 <= x < k,
        occ(adj[x].skip(pre[x]), u) > 0,
    decreases k,
{
    if pending_in(adj, pre, k - 1, u) > 0 {
        lemma_pending_pos(adj, pre, k - 1, u)
    } else {
        k - 1
    }
}

/// Leaving out one more entry of the list of `c` takes one edge into that entry's vertex
/// off the sum.
proof fn lemma_pending_step(adj: Seq<Seq<usize>>, pre: Seq<int>, k: int, c: int, u: usize)
    requires
        0 <= k <= pre.len(),
        0 <= c < pre.len(),
        0 <= pre[c] < adj[c].len(),
    ensures
        pending_in(adj, pre.update(c, pre[c] + 1), k, u) + (if c < k && adj[c][pre[c]] == u {
            1nat
        } else {
            0nat
        }) == pending_in(adj, pre, k, u),
    decreases k,
{
    if k > 0 {
        lemma_pending_step(adj, pre, k - 1, c, u);
        if k - 1 == c {
            lemma_occ_skip_step(adj[c], pre[c], u);
        }
    }
}

/// The vertices `u < n` as a set.
spec fn vertex_range(n: nat) -> Set<usize> {
    Set::new(|u: usize| u < n)
}

proof fn lemma_vertex_range(n: nat)
    requires
        n <= usize::MAX + 1,
    ensures
        vertex_range(n).finite(),
        vertex_range(n).len() == n,
    decreases n,
{
    if n == 0 {
        assert(vertex_range(n) =~= Set::empty());
    } else {
        lemma_vertex_range((n - 1) as nat);
        assert(vertex_range((n - 1) as nat).insert((n - 1) as usize) =~= vertex_range(n));
    }
}

/// A sequence of distinct vertices below `n` has at most `n` of them, and with exactly `n`
/// it holds every vertex below `n`.
proof fn lemma_distinct_bound(s: Seq<usize>, n: nat)
    requires
        n <= usize::MAX + 1,
        s.no_duplicates(),
        forall|i: int| 0 <= i < s.len() ==> #[trigger] s[i] < n,
    ensures
        s.len() <= n,
        s.len() == n ==> forall|u: usize| u < n ==> #[trigger] s.contains(u),
{
    lemma_vertex_range(n);
    s.unique_seq_to_set();
    vstd::seq_lib::seq_to_set_is_finite(s);
    assert(s.to_set().subset_of(vertex_range(n))) by {
        assert forall|u: usize| #[trigger] s.to_set().contains(u) implies vertex_range(n).contains(u) by {
            let i = choose|i: int| 0 <= i < s.len() && s[i] == u;
        }
    }
    vstd::set_lib::lemma_len_subset(s.to_set(), vertex_range(n));
    if s.len() == n {
        vstd::set_lib::lemma_subset_equality(s.to_set(), vertex_range(n));
        assert forall|u: usize| u < n implies #[trigger] s.contains(u) by {
            assert(vertex_range(n).contains(u));
            assert(s.to_set().contains(u));
        }
    }
}

/// A vertex outside `order` with an edge to `u`, where there is one.
spec fn pred_outside(adj: Seq<Seq<usize>>, order: Seq<usize>, u: usize) -> usize {
    choose|x: usize| x < adj.len() && !order.contains(x) && adj[x as int].contains(u)
}

/// Walking `i` edges backwards from `u0`, always to a vertex outside `order`.
spec fn back_walk(adj: Seq<Seq<usize>>, order: Seq<usize>, u0: usize, i: nat) -> usize
    decreases i,
{
    if i == 0 {
        u0
    } else {
        pred_outside(adj, order, back_walk(adj, order, u0, (i - 1) as nat))
    }
}

proof fn lemma_back_walk(adj: Seq<Seq<usize>>, order: Seq<usize>, u0: usize, i: nat)
    requires
        u0 < adj.len(),
        !order.contains(u0),
        forall|u: usize|
            u < adj.len() && !order.contains(u) ==> exists|x: usize|
                x < adj.len() && !order.contains(x) && #[trigger] adj[x as int].contains(u),
    ensures
        back_walk(adj, order, u0, i) < adj.len(),
        !order.contains(back_walk(adj, order, u0, i)),
        adj[back_walk(adj, order, u0, i + 1) as int].contains(back_walk(adj, order, u0, i)),
        back_walk(adj, order, u0, i + 1) < adj.len(),
    decreases i,
{
    if i > 0 {
        lemma_back_walk(adj, order, u0, (i - 1) as nat);
    }
    let w = back_walk(adj, order, u0, i);
    assert(exists|x: usize| x < adj.len() && !order.contains(x) && #[trigger] adj[x as int].contains(w));
}

/// If every vertex outside `order` has an edge into it from another vertex outside `order`,
/// and some vertex is outside, the graph has a cycle.
proof fn lemma_unsorted_cycle(adj: Seq<Seq<usize>>, order: Seq<usize>, u0: usize)
    requires
        adj.len() <= usize::MAX,
        u0 < adj.len(),
        !order.contains(u0),
        forall|u: usize|
            u < adj.len() && !order.contains(u) ==> exists|x: usize|
                x < adj.len() && !order.contains(x) && #[trigger] adj[x as int].contains(u),
    ensures
        has_cycle_spec(adj),
{
    let n = adj.len();
    let w = Seq::new(n + 1, |i: int| back_walk(adj, order, u0, i as nat));
    assert forall|i: int| 0 <= i < w.len() implies #[trigger] w[i] < n by {
        lemma_back_walk(adj, order, u0, i as nat);
    }
    if w.no_duplicates() {
        lemma_distinct_bound(w, n);
    }
    let (i, j) = choose|i: int, j: int| 0 <= i < w.len() && 0 <= j < w.len() && i != j && w[i] == w[j];
    let (a, b) = if i < j {
        (i, j)
    } else {
        (j, i)
    };
    let p = Seq::new((b - a + 1) as nat, |t: int| back_walk(adj, order, u0, (b - t) as nat));
    assert forall|t: int| 0 <= t < p.len() implies #[trigger] p[t] < adj.len() by {
        lemma_back_walk(adj, order, u0, (b - t) as nat);
    }
    assert forall|t: int| 0 <= t < p.len() - 1 implies adj[#[trigger] p[t] as int].contains(p[t + 1]) by {
        lemma_back_walk(adj, order, u0, (b - t - 1) as nat);
        assert((b - t - 1) as nat + 1 == (b - t) as nat);
    }
    assert(p[0] == w[b]);
    assert(p.last() == w[a]);
    assert(is_path(adj, p) && p.len() >= 2 && p[0] == p.last());
}

/// A graph with a topological order has no cycle.
pub proof fn lemma_topological_order_acyclic(adj: Seq<Seq<usize>>, order: Seq<usize>)
    requires
        is_topological_order(adj, order),
    ensures
        !has_cycle_spec(adj),
{
    if has_cycle_spec(adj) {
        let p = choose|p: Seq<usize>| #[trigger] is_path(adj, p) && p.len() >= 2 && p[0] == p.last();
        lemma_distinct_bound(order, (usize::MAX + 1) as nat);
        lemma_distinct_bound(order, adj.len());
        lemma_topological_path(adj, order, p, p.len() - 1);
        assert(order[order.index_of(p[0])] == p[0]);
    }
}

/// Along a path, positions in a topological order increase.
proof fn lemma_topological_path(adj: Seq<Seq<usize>>, order: Seq<usize>, p: Seq<usize>, k: int)
    requires
        is_topological_order(adj, order),
        forall|u: usize| u < adj.len() ==> #[trigger] order.contains(u),
        is_path(adj, p),
        1 <= k < p.len(),
    ensures
        order.index_of(p[0]) < order.index_of(p[k]),
    decreases k,
{
    let a = p[k - 1];
    let b = p[k];
    assert(order.contains(a));
    assert(order.contains(b));
    let ia = order.index_of(a);
    let ib = order.index_of(b);
    assert(order[ia] == a && order[ib] == b);
    assert(adj[order[ia] as int].contains(order[ib]));
    if k > 1 {
        lemma_topological_path(adj, order, p, k - 1);
    }
}

/// A directed graph on the vertices `0..num_vertices`, as adjacency lists.
pub struct Graph {
    num_vertices: usize,
    adj_list: Vec<Vec<usize>>,
}

impl Graph {
    /// The adjacency lists.
    pub closed spec fn adj(&self) -> Seq<Seq<usize>> {
        self.adj_list@.map_values(|l: Vec<usize>| l@)
    }

    /// The number of vertices.
    pub closed spec fn spec_num_vertices(&self) -> nat {
        self.num_vertices as nat
    }

    /// There is an adjacency list for every vertex, and every edge ends at a vertex.
    pub open spec fn wf(&self) -> bool {
        &&& self.adj().len() == self.spec_num_vertices()
        &&& forall|u: int, k: int|
            0 <= u < self.adj().len() && 0 <= k < self.adj()[u].len() ==> #[trigger] self.adj()[u][k]
                < self.spec_num_vertices()
    }

    /// The graph on `num_vertices` vertices without edges.
    pub fn new(num_vertices: usize) -> (g: Graph)
        ensures
            g.wf(),
            g.spec_num_vertices() == num_vertices,
            g.adj() == Seq::new(num_vertices as nat, |i: int| Seq::<usize>::empty()),
    {
        let mut adj_list: Vec<Vec<usize>> = Vec::new();
        for _i in 0..num_vertices
            invariant
                adj_list@.len() == _i,
                forall|k: int| 0 <= k < adj_list@.len() ==> #[trigger] adj_list@[k]@ == Seq::<
                    usize,
                >::empty(),
        {
            adj_list.push(Vec::new());
        }
        let g = Graph { num_vertices, adj_list };
        assert(g.adj() =~= Seq::new(num_vertices as nat, |i: int| Seq::<usize>::empty()));
        g
    }

    /// The number of vertices.
    pub fn num_vertices(&self) -> (n: usize)
        ensures
            n == self.spec_num_vertices(),
    {
        self.num_vertices
    }

    /// Adds the edge from `src` to `dst`, at the end of the adjacency list of `src`.
    pub fn add_edge(&mut self, src: usize, dst: usize)
        requires
            old(self).wf(),
            src < old(self).spec_num_vertices(),
            dst < old(self).spec_num_vertices(),
        ensures
            final(self).wf(),
            final(self).spec_num_vertices() == old(self).spec_num_vertices(),
            final(self).adj() == old(self).adj().update(
                src as int,
                old(self).adj()[src as int].push(dst),
            ),
    {
        self.adj_list[src].push(dst);
        assert(self.adj() =~= old(self).adj().update(
            src as int,
            old(self).adj()[src as int].push(dst),
        ));
    }

    /// Breadth-first traversal from `start`: the reachable vertices in the order in which
    /// they leave the queue.
    #[verifier::spinoff_prover]
    pub fn bfs(&self, start: usize) -> (order: Vec<usize>)
        requires
            self.wf(),
            start < self.spec_num_vertices(),
        ensures
            bfs_order(self.adj(), start, order@),
    {
        let ghost adj = self.adj();
        let n = self.num_vertices;
        let mut visited: Vec<bool> = vec![false; n];
        let mut order: Vec<usize> = Vec::new();
        let mut queue: VecDeque<usize> = VecDeque::new();

        visited.set(start, true);
        queue.push_back(start);
        proof {
            let d = order@ + queue@;
            assert(d =~= seq![start]);
            assert forall|v: int| 0 <= v < n implies #[trigger] visited@[v] == d.contains(v as usize) by {
                if v != start as int {
                    assert(!d.contains(v as usize)) by {
                        if d.contains(v as usize) {
                            assert(d[0] == v as usize);
                        }
                    }
                } else {
                    assert(d[0] == start);
                }
            }
            reveal(bfs_state);
            assert(bfs_state(adj, start, d, 0, 0));
        }
        loop
            invariant
                self.wf(),
                adj == self.adj(),
                n == adj.len(),
                start < n,
                visited@.len() == n,
                bfs_state(adj, start, order@ + queue@, order@.len() as int, 0),
                forall|v: int| 0 <= v < n ==> #[trigger] visited@[v] == (order@ + queue@).contains(
                    v as usize,
                ),
                queue@.len() == 0 ==> bfs_state(
                    adj,
                    start,
                    order@,
                    order@.len() as int,
                    0,
                ),
            ensures
                bfs_state(adj, start, order@, order@.len() as int, 0),
            decreases count_false(visited@), queue@.len(),
        {
            let ghost d = order@ + queue@;
            match queue.pop_front() {
                Some(v) => {
                    order.push(v);
                    let ghost h = order@.len() - 1;
                    assert(order@ + queue@ =~= d);
                    assert(d[h] == v);
                    proof {
                        lemma_bfs_facts(adj, start, d, h, 0);
                    }
                    let nbrs = &self.adj_list[v];
                    assert(nbrs@ == adj[v as int]);
                    let len = nbrs.len();
                    let ghost fuel0 = count_false(visited@);
                    for m in 0..len
                        invariant
                            self.wf(),
                            adj == self.adj(),
                            n == adj.len(),
                            nbrs@ == adj[v as int],
                            len == nbrs@.len(),
                            visited@.len() == n,
                            0 <= h,
                            order@.len() == h + 1,
                            order@[h] == v,
                            v < n,
                            bfs_state(adj, start, order@ + queue@, h, m as int),
                            forall|u: int| 0 <= u < n ==> #[trigger] visited@[u] == (order@
                                + queue@).contains(u as usize),
                            count_false(visited@) <= fuel0,
                            count_false(visited@) == fuel0 ==> queue@.len() == d.len() - h - 1,
                    {
                        let neighbor = nbrs[m];
                        let ghost d1 = order@ + queue@;
                        assert(d1[h] == order@[h]);
                        assert(d1[h] == v);
                        assert(adj[v as int][m as int] < n);
                        assert(neighbor < n);
                        if !visited[neighbor] {
                            proof {
                                lemma_count_false_set(visited@, neighbor as int);
                                lemma_bfs_push(adj, start, d1, h, m as int);
                            }
                            visited.set(neighbor, true);
                            queue.push_back(neighbor);
                            assert(order@ + queue@ =~= d1.push(neighbor));
                            assert forall|u: int| 0 <= u < n implies #[trigger] visited@[u] == (
                            order@ + queue@).contains(u as usize) by {
                                if u == neighbor as int {
                                    assert(d1.push(neighbor)[d1.len() as int] == neighbor);
                                } else {
                                    assert(d1.push(neighbor).contains(u as usize) ==> d1.contains(
                                        u as usize,
                                    ));
                                    if d1.contains(u as usize) {
                                        let i = choose|i: int| 0 <= i < d1.len() && d1[i] == u as usize;
                                        assert(d1.push(neighbor)[i] == u as usize);
                                    }
                                }
                            }
                        } else {
                            proof {
                                lemma_bfs_skip(adj, start, d1, h, m as int);
                            }
                        }
                    }
                    proof {
                        lemma_bfs_next(adj, start, order@ + queue@, h);
                        if queue@.len() == 0 {
                            assert(order@ + queue@ =~= order@);
                        }
                    }
                },
                None => {
                    assert(order@ + queue@ =~= order@);
                    break;
                },
            }
        }
        proof {
            lemma_bfs_done(adj, start, order@);
        }
        order
    }


    /// Depth-first traversal from `start` with an explicit stack: a vertex is visited when
    /// it is popped, and its successors are pushed last one first, so that they are popped
    /// in the order of its adjacency list.
    #[verifier::spinoff_prover]
    pub fn dfs_iterative(&self, start: usize) -> (order: Vec<usize>)
        requires
            self.wf(),
            start < self.spec_num_vertices(),
        ensures
            traversal_order(self.adj(), start, order@),
            order@ == dfs_preorder(self.adj(), start),
    {
        let ghost adj = self.adj();
        let n = self.num_vertices;
        let mut visited: Vec<bool> = vec![false; n];
        let mut order: Vec<usize> = Vec::new();
        let mut stack: Vec<usize> = Vec::new();
        stack.push(start);
        proof {
            assert(stack@.reverse() =~= seq![start]);
            assert(seq![start].drop_first() =~= Seq::<usize>::empty());
            let r = dfs_visit(adj, Seq::<usize>::empty(), start, n as nat);
            assert(dfs_scan(adj, Seq::<usize>::empty(), seq![start], n as nat) == dfs_scan(
                adj,
                r,
                Seq::<usize>::empty(),
                n as nat,
            ));
            assert forall|u: int, k: int|
                0 <= u < adj.len() && 0 <= k < adj[u].len() implies #[trigger] adj[u][k] < adj.len() by {}
        }
        loop
            invariant
                self.wf(),
                adj == self.adj(),
                n == adj.len(),
                start < n,
                visited@.len() == n,
                forall|u: int| 0 <= u < n ==> #[trigger] visited@[u] == order@.contains(u as usize),
                order@.no_duplicates(),
                forall|i: int| 0 <= i < order@.len() ==> #[trigger] order@[i] < n,
                forall|i: int| 0 <= i < stack@.len() ==> #[trigger] stack@[i] < n,
                order@.len() == 0 ==> stack@ == seq![start],
                order@.len() > 0 ==> order@[0] == start,
                order@.len() > 0 ==> forall|i: int|
                    0 <= i < stack@.len() ==> #[trigger] has_pred_in(adj, order@, stack@[i]),
                forall|k: int| 1 <= k < order@.len() ==> #[trigger] has_earlier_pred(adj, order@, k),
                forall|j: int, m: int|
                    0 <= j < order@.len() && 0 <= m < adj[order@[j] as int].len() ==> order@.contains(
                        #[trigger] adj[order@[j] as int][m],
                    ) || stack@.contains(adj[order@[j] as int][m]),
                edges_in_range(adj),
                order@.len() <= n,
                dfs_scan(adj, order@, stack@.reverse(), (n - order@.len()) as nat) == dfs_preorder(
                    adj,
                    start,
                ),
            ensures
                order@ == dfs_preorder(adj, start),
                order@.len() >= 1,
                order@[0] == start,
                order@.no_duplicates(),
                forall|i: int| 0 <= i < order@.len() ==> #[trigger] order@[i] < n,
                forall|k: int| 1 <= k < order@.len() ==> #[trigger] has_earlier_pred(adj, order@, k),
                forall|j: int, m: int|
                    0 <= j < order@.len() && 0 <= m < adj[order@[j] as int].len() ==> order@.contains(
                        #[trigger] adj[order@[j] as int][m],
                    ),
            decreases count_false(visited@), stack@.len(),
        {
            let ghost old_stack = stack@;
            let ghost old_order = order@;
            match stack.pop() {
                Some(v) => {
                    assert(stack@ =~= old_stack.drop_last());
                    assert(v == old_stack.last());
                    assert(v < n);
                    if !visited[v] {
                        proof {
                            lemma_count_false_set(visited@, v as int);
                        }
                        visited.set(v, true);
                        order.push(v);
                        let ghost h = old_order.len() as int;
                        let ghost o1 = order@;
                        assert(o1 == old_order.push(v));
                        assert(order@[h] == v);
                        assert forall|u: int| 0 <= u < n implies #[trigger] visited@[u]
                            == order@.contains(u as usize) by {
                            if old_order.contains(u as usize) {
                                let i = choose|i: int| 0 <= i < old_order.len() && old_order[i] == u as usize;
                                assert(order@[i] == u as usize);
                            }
                            if order@.contains(u as usize) && u != v as int {
                                let i = choose|i: int| 0 <= i < order@.len() && order@[i] == u as usize;
                                assert(old_order[i] == u as usize);
                            }
                        }
                        assert forall|k: int| 1 <= k < order@.len() implies #[trigger] has_earlier_pred(
                            adj,
                            order@,
                            k,
                        ) by {
                            if k < h {
                                lemma_has_earlier_pred_push(adj, old_order, v, k);
                            } else {
                                let i = old_stack.len() - 1;
                                assert(old_stack[i] == v);
                                assert(has_pred_in(adj, old_order, old_stack[i]));
                                let j = choose|j: int|
                                    0 <= j < old_order.len() && adj[old_order[j] as int].contains(v);
                                assert(order@[j] == old_order[j]);
                            }
                        }
                        let nbrs = &self.adj_list[v];
                        assert(nbrs@ == adj[v as int]);
                        let ghost popped = stack@;
                        let mut i = nbrs.len();
                        while i > 0
                            invariant
                                self.wf(),
                                adj == self.adj(),
                                n == adj.len(),
                                nbrs@ == adj[v as int],
                                v < n,
                                i <= nbrs@.len(),
                                order@.len() == h + 1,
                                order@[h] == v,
                                visited@.len() == n,
                                forall|u: int| 0 <= u < n ==> #[trigger] visited@[u] == order@.contains(
                                    u as usize,
                                ),
                                stack@.len() >= popped.len(),
                                stack@.subrange(0, popped.len() as int) == popped,
                                forall|q: int| 0 <= q < stack@.len() ==> #[trigger] stack@[q] < n,
                                forall|q: int|
                                    popped.len() <= q < stack@.len() ==> adj[v as int].contains(
                                        #[trigger] stack@[q],
                                    ),
                                forall|m: int|
                                    i <= m < nbrs@.len() ==> order@.contains(#[trigger] adj[v as int][m])
                                        || stack@.contains(adj[v as int][m]),
                                order@ == o1,
                                stack@.subrange(popped.len() as int, stack@.len() as int).reverse() == not_in(
                                    adj[v as int].skip(i as int),
                                    o1,
                                ),
                            decreases i,
                        {
                            i = i - 1;
                            let nb = nbrs[i];
                            assert(nb == adj[v as int][i as int]);
                            proof {
                                lemma_not_in_step(adj[v as int], i + 1, o1);
                            }
                            if !visited[nb] {
                                let ghost before = stack@;
                                stack.push(nb);
                                assert(stack@.subrange(popped.len() as int, stack@.len() as int) =~= before.subrange(
                                    popped.len() as int,
                                    before.len() as int,
                                ).push(nb));
                                assert(before.subrange(popped.len() as int, before.len() as int).push(nb).reverse()
                                    =~= seq![nb] + before.subrange(popped.len() as int, before.len() as int).reverse());
                                assert(stack@[before.len() as int] == nb);
                                assert(stack@.subrange(0, popped.len() as int) =~= before.subrange(
                                    0,
                                    popped.len() as int,
                                ));
                                assert forall|m: int|
                                    i <= m < nbrs@.len() implies order@.contains(
                                    #[trigger] adj[v as int][m],
                                ) || stack@.contains(adj[v as int][m]) by {
                                    if m > i as int && !order@.contains(adj[v as int][m]) {
                                        let q = choose|q: int|
                                            0 <= q < before.len() && before[q] == adj[v as int][m];
                                        assert(stack@[q] == before[q]);
                                    }
                                }
                                assert forall|q: int|
                                    popped.len() <= q < stack@.len() implies adj[v as int].contains(
                                    #[trigger] stack@[q],
                                ) by {
                                    if q < before.len() {
                                        assert(stack@[q] == before[q]);
                                    } else {
                                        assert(adj[v as int][i as int] == stack@[q]);
                                    }
                                }
                            }
                        }
                        proof {
                            assert(stack@.subrange(0, popped.len() as int) == popped);
                            let pushed = stack@.subrange(popped.len() as int, stack@.len() as int);
                            assert(stack@ =~= popped + pushed);
                            assert(adj[v as int].skip(0) =~= adj[v as int]);
                            assert(old_stack =~= popped.push(v));
                            assert forall|k: int| 0 <= k < popped.len() implies #[trigger] popped[k] < adj.len() by {
                                assert(popped[k] == old_stack[k]);
                            }
                            assert(!old_order.contains(v));
                            lemma_dfs_stack_visit(adj, old_order, popped, pushed, v);
                            assert forall|q: int|
                                0 <= q < stack@.len() implies #[trigger] has_pred_in(
                                adj,
                                order@,
                                stack@[q],
                            ) by {
                                if q < popped.len() {
                                    assert(stack@[q] == popped[q]);
                                    assert(popped[q] == old_stack[q]);
                                    if h > 0 {
                                        assert(has_pred_in(adj, old_order, old_stack[q]));
                                        let j = choose|j: int|
                                            0 <= j < old_order.len() && adj[old_order[j] as int].contains(
                                                old_stack[q],
                                            );
                                        assert(order@[j] == old_order[j]);
                                    } else {
                                        assert(old_stack.len() == 1);
                                        assert(false);
                                    }
                                } else {
                                    assert(adj[order@[h] as int].contains(stack@[q]));
                                }
                            }
                            assert forall|j: int, m: int|
                                0 <= j < order@.len() && 0 <= m < adj[order@[j] as int].len()
                                    implies order@.contains(#[trigger] adj[order@[j] as int][m])
                                || stack@.contains(adj[order@[j] as int][m]) by {
                                if j < h {
                                    let w = adj[order@[j] as int][m];
                                    assert(order@[j] == old_order[j]);
                                    if old_order.contains(w) {
                                        let t = choose|t: int| 0 <= t < old_order.len() && old_order[t] == w;
                                        assert(order@[t] == w);
                                    } else if w != v {
                                        assert(old_stack.contains(w));
                                        let t = choose|t: int| 0 <= t < old_stack.len() && old_stack[t] == w;
                                        assert(t != old_stack.len() - 1);
                                        assert(popped[t] == w);
                                        assert(stack@[t] == w);
                                    }
                                }
                            }
                        }
                    } else {
                        proof {
                            assert(old_stack =~= stack@.push(v));
                            lemma_dfs_stack_skip(adj, order@, stack@, v, (n - order@.len()) as nat);
                        }
                        assert forall|q: int|
                            0 <= q < stack@.len() implies #[trigger] has_pred_in(adj, order@, stack@[q]) by {
                            assert(stack@[q] == old_stack[q]);
                        }
                        assert forall|j: int, m: int|
                            0 <= j < order@.len() && 0 <= m < adj[order@[j] as int].len()
                                implies order@.contains(#[trigger] adj[order@[j] as int][m])
                            || stack@.contains(adj[order@[j] as int][m]) by {
                            let w = adj[order@[j] as int][m];
                            if !order@.contains(w) {
                                let t = choose|t: int| 0 <= t < old_stack.len() && old_stack[t] == w;
                                assert(t != old_stack.len() - 1);
                                assert(stack@[t] == w);
                            }
                        }
                    }
                },
                None => {
                    assert(stack@.reverse() =~= Seq::<usize>::empty());
                    break;
                },
            }
        }
        proof {
            lemma_traversal_done(adj, start, order@);
        }
        order
    }


    /// Depth-first traversal from `start`, by recursion: the reachable vertices in preorder.
    pub fn dfs_recursive(&self, start: usize) -> (order: Vec<usize>)
        requires
            self.wf(),
            start < self.spec_num_vertices(),
        ensures
            traversal_order(self.adj(), start, order@),
            order@ == dfs_preorder(self.adj(), start),
    {
        let n = self.num_vertices;
        let mut visited: Vec<bool> = vec![false; n];
        let mut order: Vec<usize> = Vec::new();
        assert(dfs_ready(self.adj(), visited@, order@, start));
        self.dfs_helper(start, &mut visited, &mut order);
        proof {
            assert(order@.subrange(0, 0) =~= Seq::<usize>::empty());
            lemma_traversal_done(self.adj(), start, order@);
        }
        order
    }

    /// Visits `v`, then, in the order of its adjacency list, each successor not visited yet.
    /// Whatever `visited` and `order` hold, `v` and the vertices reached are appended to
    /// `order` and marked visited; when they agree with a search in progress (`dfs_ready`)
    /// the result is the depth-first visit of `v`.
    #[verifier::spinoff_prover]
    fn dfs_helper(&self, v: usize, visited: &mut Vec<bool>, order: &mut Vec<usize>)
        requires
            self.wf(),
            v < self.spec_num_vertices(),
            old(visited)@.len() == self.spec_num_vertices(),
            !old(visited)@[v as int],
        ensures
            final(visited)@.len() == self.spec_num_vertices(),
            final(visited)@[v as int],
            forall|u: int| 0 <= u < self.spec_num_vertices() && old(visited)@[u] ==> #[trigger] final(visited)@[u],
            final(order)@.len() > old(order)@.len(),
            final(order)@.subrange(0, old(order)@.len() as int) == old(order)@,
            final(order)@[old(order)@.len() as int] == v,
            count_false(final(visited)@) < count_false(old(visited)@),
            dfs_ready(self.adj(), old(visited)@, old(order)@, v) ==> forall|u: int|
                0 <= u < self.spec_num_vertices() ==> #[trigger] final(visited)@[u] == final(order)@.contains(u as usize),
            dfs_ready(self.adj(), old(visited)@, old(order)@, v) ==> final(order)@.no_duplicates(),
            dfs_ready(self.adj(), old(visited)@, old(order)@, v) ==> forall|i: int| 0 <= i < final(order)@.len() ==> #[trigger] final(order)@[i] < self.spec_num_vertices(),
            dfs_ready(self.adj(), old(visited)@, old(order)@, v) ==> forall|k: int| 1 <= k < final(order)@.len() ==> #[trigger] has_earlier_pred(self.adj(), final(order)@, k),
            dfs_ready(self.adj(), old(visited)@, old(order)@, v) ==> forall|j: int, m: int|
                old(order)@.len() <= j < final(order)@.len() && 0 <= m < self.adj()[final(order)@[j] as int].len()
                    ==> final(order)@.contains(#[trigger] self.adj()[final(order)@[j] as int][m]),
            dfs_ready(self.adj(), old(visited)@, old(order)@, v) ==> final(order)@ == dfs_visit(
                self.adj(),
                old(order)@,
                v,
                (self.spec_num_vertices() - old(order)@.len()) as nat,
            ),
        decreases count_false(old(visited)@),
    {
        let ghost adj = self.adj();
        let ghost n = self.spec_num_vertices();
        let ghost old_order = order@;
        let ghost vis0 = visited@;
        let ghost h = old_order.len() as int;
        let ghost count0 = count_false(visited@);
        let ghost ready = dfs_ready(adj, vis0, old_order, v);
        proof {
            lemma_count_false_set(visited@, v as int);
            if ready {
                assert(!old_order.contains(v)) by {
                    assert(!visited@[v as int]);
                }
                lemma_push_distinct(adj, old_order, v);
                lemma_distinct_bound(old_order.push(v), n);
            }
        }
        let ghost fuel: nat = (n - h - 1) as nat;
        visited.set(v, true);
        order.push(v);
        let ghost order_h1 = order@;
        proof {
            assert(order@ =~= old_order.push(v));
            assert(adj[v as int].skip(0) =~= adj[v as int]);
            assert(order@[h] == v);
            assert(order@.subrange(0, h) =~= old_order);
            if ready {
                assert forall|u: int| 0 <= u < n implies #[trigger] visited@[u] == order@.contains(u as usize) by {
                    if old_order.contains(u as usize) {
                        let i = choose|i: int| 0 <= i < old_order.len() && old_order[i] == u as usize;
                        assert(order@[i] == u as usize);
                    }
                    if order@.contains(u as usize) && u != v as int {
                        let i = choose|i: int| 0 <= i < order@.len() && order@[i] == u as usize;
                        assert(old_order[i] == u as usize);
                    }
                }
                assert forall|k: int| 1 <= k < order@.len() implies #[trigger] has_earlier_pred(adj, order@, k) by {
                    if k < h {
                        lemma_has_earlier_pred_push(adj, old_order, v, k);
                    } else {
                        let j = choose|j: int| 0 <= j < old_order.len() && adj[old_order[j] as int].contains(v);
                        assert(order@[j] == old_order[j]);
                    }
                }
            }
        }
        let nbrs = &self.adj_list[v];
        assert(nbrs@ == adj[v as int]);
        for m in 0..nbrs.len()
            invariant
                self.wf(),
                adj == self.adj(),
                n == self.spec_num_vertices(),
                nbrs@ == adj[v as int],
                v < n,
                visited@.len() == n,
                vis0.len() == n,
                vis0 == old(visited)@,
                visited@[v as int],
                forall|u: int| 0 <= u < n && vis0[u] ==> #[trigger] visited@[u],
                h == old_order.len(),
                old_order == old(order)@,
                order@.len() > h,
                order@.subrange(0, h) == old_order,
                order@[h] == v,
                count_false(visited@) < count0,
                count0 == count_false(old(visited)@),
                order_h1 == old_order.push(v),
                ready == dfs_ready(adj, vis0, old_order, v),
                ready ==> forall|u: int| 0 <= u < n ==> #[trigger] visited@[u] == order@.contains(u as usize),
                ready ==> order@.no_duplicates(),
                ready ==> forall|i: int| 0 <= i < order@.len() ==> #[trigger] order@[i] < n,
                ready ==> forall|k: int| 1 <= k < order@.len() ==> #[trigger] has_earlier_pred(adj, order@, k),
                ready ==> forall|j: int, mm: int|
                    h < j < order@.len() && 0 <= mm < adj[order@[j] as int].len() ==> order@.contains(
                        #[trigger] adj[order@[j] as int][mm],
                    ),
                ready ==> forall|mm: int| 0 <= mm < m ==> order@.contains(#[trigger] adj[v as int][mm]),
                ready ==> fuel == n - h - 1,
                ready ==> dfs_scan(adj, order@, adj[v as int].skip(m as int), fuel) == dfs_scan(
                    adj,
                    order_h1,
                    adj[v as int],
                    fuel,
                ),
        {
            let nb = nbrs[m];
            assert(nb == adj[v as int][m as int]);
            assert(nb < n);
            let ghost before = order@;
            let ghost vis_b = visited@;
            let ghost l = adj[v as int].skip(m as int);
            assert(l[0] == nb);
            assert(l.drop_first() =~= adj[v as int].skip(m + 1));
            if !visited[nb] {
                proof {
                    if ready {
                        assert(before[h] == v);
                        assert(0 <= h < before.len() && adj[before[h] as int].contains(nb));
                        assert(dfs_ready(adj, vis_b, before, nb));
                    }
                }
                self.dfs_helper(nb, visited, order);
                let ghost lb = before.len() as int;
                proof {
                    assert(order@[lb] == nb);
                    assert forall|t: int| 0 <= t < lb implies #[trigger] order@[t] == before[t] by {
                        assert(order@.subrange(0, lb)[t] == order@[t]);
                    }
                    assert(order@.subrange(0, h) =~= old_order) by {
                        assert forall|t: int| 0 <= t < h implies order@.subrange(0, h)[t] == old_order[t] by {
                            assert(order@[t] == before[t]);
                            assert(before.subrange(0, h)[t] == before[t]);
                        }
                    }
                    assert(order@[h] == before[h]);
                    if ready {
                        assert(!before.contains(nb));
                        assert forall|u: int, k: int|
                            0 <= u < adj.len() && 0 <= k < adj[u].len() implies #[trigger] adj[u][k] < adj.len() by {}
                        lemma_dfs_visit_fuel(adj, before, nb, (n - before.len()) as nat, fuel);
                        assert forall|w: usize| before.contains(w) implies order@.contains(w) by {
                            let t = choose|t: int| 0 <= t < before.len() && before[t] == w;
                            assert(order@[t] == w);
                        }
                        assert forall|j: int, mm: int|
                            h < j < order@.len() && 0 <= mm < adj[order@[j] as int].len() implies order@.contains(
                            #[trigger] adj[order@[j] as int][mm],
                        ) by {
                            if j < lb {
                                assert(order@[j] == before[j]);
                                assert(before.contains(adj[before[j] as int][mm]));
                            }
                        }
                        assert forall|mm: int| 0 <= mm < m + 1 implies order@.contains(#[trigger] adj[v as int][mm]) by {
                            if mm < m {
                                assert(before.contains(adj[v as int][mm]));
                            } else {
                                assert(order@[lb] == nb);
                            }
                        }
                    }
                }
            } else {
                proof {
                    if ready {
                        assert(order@.contains(nb));
                    }
                }
            }
        }
        proof {
            assert(adj[v as int].skip(adj[v as int].len() as int) =~= Seq::<usize>::empty());
        }
    }

    /// Whether the graph has a cycle, found by depth-first search: an edge back to a
    /// vertex on the current search path closes one.
    pub fn has_cycle(&self) -> (res: bool)
        requires
            self.wf(),
        ensures
            res == has_cycle_spec(self.adj()),
    {
        let ghost adj = self.adj();
        let n = self.num_vertices;
        let mut visited: Vec<bool> = vec![false; n];
        let mut rec_stack: Vec<bool> = vec![false; n];
        let ghost mut fin: Seq<usize> = Seq::empty();
        proof {
            assert forall|u: int| 0 <= u < n implies #[trigger] visited@[u] == (Seq::<usize>::empty().contains(
                u as usize,
            ) || fin.contains(u as usize)) by {}
        }
        for v in 0..n
            invariant
                self.wf(),
                adj == self.adj(),
                n == adj.len(),
                cycle_search_state(adj, visited@, rec_stack@, Seq::empty(), fin),
                forall|u: int| 0 <= u < v ==> #[trigger] visited@[u],
        {
            if !visited[v] {
                assert(search_ready(adj, visited@, rec_stack@, Seq::empty(), fin, v));
                let (found, Ghost(fin2)) = self.has_cycle_helper(
                    v,
                    &mut visited,
                    &mut rec_stack,
                    Ghost(Seq::empty()),
                    Ghost(fin),
                );
                if found {
                    return true;
                }
                proof {
                    fin = fin2;
                    assert forall|u: int| 0 <= u < v + 1 implies #[trigger] visited@[u] by {
                        if u < v {
                            assert(fin2.subrange(0, fin.len() as int) == fin);
                        }
                    }
                }
            }
        }
        proof {
            assert forall|u: int| 0 <= u < adj.len() implies fin.contains(#[trigger] (u as usize)) by {
                assert(visited@[u]);
            }
            lemma_finished_acyclic(adj, fin);
        }
        false
    }

    /// Explores from `v`, the successor of the last vertex of `path`; reports whether an
    /// edge back to the search path was found, and otherwise hands back the finishing order
    /// extended by the vertices finished in this call, `v` last.
    #[verifier::spinoff_prover]
    fn has_cycle_helper(
        &self,
        v: usize,
        visited: &mut Vec<bool>,
        rec_stack: &mut Vec<bool>,
        Ghost(path): Ghost<Seq<usize>>,
        Ghost(fin): Ghost<Seq<usize>>,
    ) -> (res: (bool, Ghost<Seq<usize>>))
        requires
            self.wf(),
            v < self.spec_num_vertices(),
            old(visited)@.len() == self.spec_num_vertices(),
            old(rec_stack)@.len() == self.spec_num_vertices(),
            !old(visited)@[v as int],
        ensures
            final(visited)@.len() == self.spec_num_vertices(),
            final(rec_stack)@.len() == self.spec_num_vertices(),
            count_false(final(visited)@) < count_false(old(visited)@),
            final(visited)@[v as int],
            forall|u: int| 0 <= u < self.spec_num_vertices() && old(visited)@[u] ==> #[trigger] final(visited)@[u],
            !res.0 ==> forall|u: int|
                0 <= u < self.spec_num_vertices() ==> #[trigger] final(rec_stack)@[u] == (if final(visited)@[u]
                    && !old(visited)@[u] { false } else { old(rec_stack)@[u] }),
            search_ready(self.adj(), old(visited)@, old(rec_stack)@, path, fin, v) ==> (res.0
                ==> has_cycle_spec(self.adj())),
            search_ready(self.adj(), old(visited)@, old(rec_stack)@, path, fin, v) && !res.0
                ==> cycle_search_state(self.adj(), final(visited)@, final(rec_stack)@, path, res.1@),
            search_ready(self.adj(), old(visited)@, old(rec_stack)@, path, fin, v) && !res.0
                ==> res.1@.len() > fin.len() && res.1@.subrange(0, fin.len() as int) == fin,
            search_ready(self.adj(), old(visited)@, old(rec_stack)@, path, fin, v) && !res.0
                ==> res.1@.contains(v),
        decreases count_false(old(visited)@),
    {
        let ghost adj = self.adj();
        let ghost n = adj.len();
        let ghost count0 = count_false(visited@);
        let ghost vis0 = visited@;
        let ghost rec0 = rec_stack@;
        let ghost ready = search_ready(adj, vis0, rec0, path, fin, v);
        let ghost path2 = path.push(v);
        proof {
            lemma_count_false_set(visited@, v as int);
        }
        visited.set(v, true);
        rec_stack.set(v, true);
        proof {
          if ready {
            assert(path2.last() == v);
            assert(!path.contains(v)) by {
                if path.contains(v) {
                    let i = choose|i: int| 0 <= i < path.len() && path[i] == v;
                    assert(old(rec_stack)@[v as int]);
                }
            }
            assert(path2.no_duplicates());
            assert(is_path(adj, path2)) by {
                if path.len() > 0 {
                    lemma_path_push(adj, path, v);
                } else {
                    assert(path2 =~= seq![v]);
                }
            }
            assert forall|u: int| 0 <= u < n implies #[trigger] rec_stack@[u] == path2.contains(u as usize) by {
                if path.contains(u as usize) {
                    let i = choose|i: int| 0 <= i < path.len() && path[i] == u as usize;
                    assert(path2[i] == u as usize);
                }
                if path2.contains(u as usize) && u != v as int {
                    let i = choose|i: int| 0 <= i < path2.len() && path2[i] == u as usize;
                    assert(path[i] == u as usize);
                }
            }
            assert forall|u: int| 0 <= u < n implies #[trigger] visited@[u] == (path2.contains(u as usize)
                || fin.contains(u as usize)) by {
                if path.contains(u as usize) {
                    let i = choose|i: int| 0 <= i < path.len() && path[i] == u as usize;
                    assert(path2[i] == u as usize);
                }
                if path2.contains(u as usize) && u != v as int {
                    let i = choose|i: int| 0 <= i < path2.len() && path2[i] == u as usize;
                    assert(path[i] == u as usize);
                }
            }
            assert forall|u: usize| #[trigger] fin.contains(u) implies !path2.contains(u) by {
                if path2.contains(u) && u != v {
                    let i = choose|i: int| 0 <= i < path2.len() && path2[i] == u;
                    assert(path[i] == u);
                }
                if u == v {
                    assert(!old(visited)@[v as int]);
                }
            }
          }
        }
        let ghost mut fin_cur = fin;
        let nbrs = &self.adj_list[v];
        assert(nbrs@ == adj[v as int]);
        for m in 0..nbrs.len()
            invariant
                self.wf(),
                adj == self.adj(),
                n == adj.len(),
                nbrs@ == adj[v as int],
                v < n,
                path2 == path.push(v),
                visited@.len() == n,
                rec_stack@.len() == n,
                vis0.len() == n,
                rec0.len() == n,
                vis0 == old(visited)@,
                rec0 == old(rec_stack)@,
                visited@[v as int],
                rec_stack@[v as int],
                !vis0[v as int],
                forall|u: int| 0 <= u < n && vis0[u] ==> #[trigger] visited@[u],
                forall|u: int|
                    0 <= u < n && u != v ==> #[trigger] rec_stack@[u] == if visited@[u] && !vis0[u] {
                        false
                    } else {
                        rec0[u]
                    },
                count_false(visited@) < count0,
                count0 == count_false(vis0),
                ready == search_ready(adj, vis0, rec0, path, fin, v),
                ready ==> cycle_search_state(adj, visited@, rec_stack@, path2, fin_cur),
                ready ==> fin_cur.len() >= fin.len(),
                ready ==> fin_cur.subrange(0, fin.len() as int) == fin,
                ready ==> forall|mm: int| 0 <= mm < m ==> fin_cur.contains(#[trigger] adj[v as int][mm]),
        {
            let nb = nbrs[m];
            assert(nb == adj[v as int][m as int]);
            assert(adj[v as int].contains(nb));
            assert(nb < n);
            if !visited[nb] {
                let ghost vis1 = visited@;
                let ghost rec1 = rec_stack@;
                proof {
                    if ready {
                        assert(search_ready(adj, vis1, rec1, path2, fin_cur, nb));
                    }
                }
                let (found, Ghost(fin2)) = self.has_cycle_helper(
                    nb,
                    visited,
                    rec_stack,
                    Ghost(path2),
                    Ghost(fin_cur),
                );
                if found {
                    return (true, Ghost(fin2));
                }
                proof {
                    assert forall|u: int| 0 <= u < n && u != v implies #[trigger] rec_stack@[u] == if visited@[u]
                        && !vis0[u] {
                        false
                    } else {
                        rec0[u]
                    } by {
                        assert(rec_stack@[u] == if visited@[u] && !vis1[u] {
                            false
                        } else {
                            rec1[u]
                        });
                        assert(rec1[u] == if vis1[u] && !vis0[u] {
                            false
                        } else {
                            rec0[u]
                        });
                    }
                    assert(rec_stack@[v as int] == rec1[v as int]);
                }
                proof {
                  if ready {
                    let lf = fin_cur.len() as int;
                    assert forall|t: int| 0 <= t < lf implies #[trigger] fin2[t] == fin_cur[t] by {
                        assert(fin2.subrange(0, lf)[t] == fin2[t]);
                    }
                    assert(fin2.subrange(0, fin.len() as int) =~= fin) by {
                        assert forall|t: int| 0 <= t < fin.len() implies fin2.subrange(0, fin.len() as int)[t]
                            == fin[t] by {
                            assert(fin_cur.subrange(0, fin.len() as int)[t] == fin_cur[t]);
                        }
                    }
                    assert forall|mm: int| 0 <= mm < m + 1 implies fin2.contains(#[trigger] adj[v as int][mm]) by {
                        if mm < m {
                            let t = choose|t: int| 0 <= t < fin_cur.len() && fin_cur[t] == adj[v as int][mm];
                            assert(fin2[t] == fin_cur[t]);
                        }
                    }
                    fin_cur = fin2;
                  }
                }
            } else if rec_stack[nb] {
                proof {
                    if ready {
                        assert(path2.contains(nb));
                        let q = choose|q: int| 0 <= q < path2.len() && path2[q] == nb;
                        lemma_back_edge_cycle(adj, path2, q, nb);
                    }
                }
                return (true, Ghost(fin_cur));
            } else {
                proof {
                    if ready {
                        assert(fin_cur.contains(nb));
                    }
                }
            }
        }
        rec_stack.set(v, false);
        let ghost fin_new = fin_cur.push(v);
        proof {
          if ready {
            let lf = fin_cur.len() as int;
            assert(fin_new[lf] == v);
            assert(!fin_cur.contains(v));
            assert(fin_new.no_duplicates());
            assert(fin_new.subrange(0, fin.len() as int) =~= fin) by {
                assert forall|t: int| 0 <= t < fin.len() implies fin_new.subrange(0, fin.len() as int)[t]
                    == fin[t] by {
                    assert(fin_cur.subrange(0, fin.len() as int)[t] == fin_cur[t]);
                }
            }
            assert forall|u: int| 0 <= u < n implies #[trigger] rec_stack@[u] == path.contains(u as usize) by {
                if path.contains(u as usize) {
                    let i = choose|i: int| 0 <= i < path.len() && path[i] == u as usize;
                    assert(path2[i] == u as usize);
                }
                if path2.contains(u as usize) && u != v as int {
                    let i = choose|i: int| 0 <= i < path2.len() && path2[i] == u as usize;
                    assert(path[i] == u as usize);
                }
            }
            assert forall|u: int| 0 <= u < n implies #[trigger] visited@[u] == (path.contains(u as usize)
                || fin_new.contains(u as usize)) by {
                if path2.contains(u as usize) && u != v as int {
                    let i = choose|i: int| 0 <= i < path2.len() && path2[i] == u as usize;
                    assert(path[i] == u as usize);
                }
                if path.contains(u as usize) {
                    let i = choose|i: int| 0 <= i < path.len() && path[i] == u as usize;
                    assert(path2[i] == u as usize);
                }
                if fin_cur.contains(u as usize) {
                    let i = choose|i: int| 0 <= i < fin_cur.len() && fin_cur[i] == u as usize;
                    assert(fin_new[i] == u as usize);
                }
                if fin_new.contains(u as usize) && u != v as int {
                    let i = choose|i: int| 0 <= i < fin_new.len() && fin_new[i] == u as usize;
                    assert(fin_cur[i] == u as usize);
                }
                if u == v as int {
                    assert(path2[path.len() as int] == v);
                }
            }
            assert forall|u: usize| #[trigger] fin_new.contains(u) implies !path.contains(u) by {
                if u == v {
                    if path.contains(u) {
                        let j = choose|j: int| 0 <= j < path.len() && path[j] == u;
                        assert(path2[j] == u);
                        assert(path2[path.len() as int] == v);
                    }
                } else {
                    let i = choose|i: int| 0 <= i < fin_new.len() && fin_new[i] == u;
                    assert(fin_cur[i] == u);
                    assert(fin_cur.contains(u));
                    if path.contains(u) {
                        let j = choose|j: int| 0 <= j < path.len() && path[j] == u;
                        assert(path2[j] == u);
                    }
                }
            }
            assert forall|i: int, mm: int|
                0 <= i < fin_new.len() && 0 <= mm < adj[fin_new[i] as int].len() implies #[trigger] finished_before(
                fin_new,
                i,
                adj[fin_new[i] as int][mm],
            ) by {
                if i < lf {
                    assert(fin_new[i] == fin_cur[i]);
                    assert(finished_before(fin_cur, i, adj[fin_cur[i] as int][mm]));
                    let j = choose|j: int| 0 <= j < i && fin_cur[j] == adj[fin_cur[i] as int][mm];
                    assert(fin_new[j] == fin_cur[j]);
                } else {
                    assert(fin_cur.contains(adj[v as int][mm]));
                    let j = choose|j: int| 0 <= j < fin_cur.len() && fin_cur[j] == adj[v as int][mm];
                    assert(fin_new[j] == fin_cur[j]);
                }
            }
            assert(fin_new.contains(v));
          }
        }
        (false, Ghost(fin_new))
    }


    /// Topological sort by Kahn's algorithm: vertices leave a queue of those all of whose
    /// incoming edges come from vertices already sorted. `None` when some vertices are never
    /// freed, that is, when the graph has a cycle.
    #[verifier::spinoff_prover]
    pub fn topological_sort(&self) -> (res: Option<Vec<usize>>)
        requires
            self.wf(),
            num_edges(self.adj()) <= usize::MAX,
        ensures
            res is None <==> has_cycle_spec(self.adj()),
            res matches Some(order) ==> is_topological_order(self.adj(), order@),
            res matches Some(order) ==> kahn_order(self.adj(), order@),
    {
        let ghost adj = self.adj();
        let n = self.num_vertices;
        let ghost zeros = Seq::new(n as nat, |i: int| 0int);
        let mut in_degree: Vec<usize> = vec![0; n];
        for v in 0..n
            invariant
                self.wf(),
                adj == self.adj(),
                n == adj.len(),
                num_edges(adj) <= usize::MAX,
                zeros == Seq::new(n as nat, |i: int| 0int),
                in_degree@.len() == n,
                forall|u: int| 0 <= u < n ==> #[trigger] in_degree@[u] == pending_in(adj, zeros, v as int, u as usize),
        {
            let nbrs = &self.adj_list[v];
            assert(nbrs@ == adj[v as int]);
            for m in 0..nbrs.len()
                invariant
                    self.wf(),
                    adj == self.adj(),
                    n == adj.len(),
                    v < n,
                    nbrs@ == adj[v as int],
                    num_edges(adj) <= usize::MAX,
                    zeros == Seq::new(n as nat, |i: int| 0int),
                    in_degree@.len() == n,
                    forall|u: int|
                        0 <= u < n ==> #[trigger] in_degree@[u] == pending_in(adj, zeros, v as int, u as usize)
                            + occ(adj[v as int].take(m as int), u as usize),
            {
                let nb = nbrs[m];
                assert(nb == adj[v as int][m as int]);
                assert(nb < n);
                proof {
                    lemma_pending_bound(adj, zeros, v as int, nb);
                    lemma_occ_le_len(adj[v as int].take(m as int), nb);
                    lemma_edges_mono(adj, v as int + 1, n as int);
                    assert(edges_upto(adj, v as int + 1) == edges_upto(adj, v as int) + adj[v as int].len());
                }
                let d = in_degree[nb] + 1;
                in_degree.set(nb, d);
                proof {
                    assert forall|u: int| 0 <= u < n implies #[trigger] in_degree@[u] == pending_in(
                        adj,
                        zeros,
                        v as int,
                        u as usize,
                    ) + occ(adj[v as int].take(m + 1), u as usize) by {
                        lemma_occ_take_step(adj[v as int], m as int, u as usize);
                    }
                }
            }
            proof {
                assert forall|u: int| 0 <= u < n implies #[trigger] in_degree@[u] == pending_in(
                    adj,
                    zeros,
                    v + 1,
                    u as usize,
                ) by {
                    assert(adj[v as int].take(adj[v as int].len() as int) =~= adj[v as int]);
                    assert(adj[v as int].skip(zeros[v as int]) =~= adj[v as int]);
                }
            }
        }
        let mut queue: VecDeque<usize> = VecDeque::new();
        for v in 0..n
            invariant
                self.wf(),
                adj == self.adj(),
                n == adj.len(),
                zeros == Seq::new(n as nat, |i: int| 0int),
                in_degree@.len() == n,
                forall|u: int| 0 <= u < n ==> #[trigger] in_degree@[u] == pending_in(adj, zeros, n as int, u as usize),
                queue@.no_duplicates(),
                forall|i: int| 0 <= i < queue@.len() ==> #[trigger] queue@[i] < v,
                forall|i: int| 0 <= i < queue@.len() ==> pending_in(adj, zeros, n as int, #[trigger] queue@[i]) == 0,
                forall|u: int| 0 <= u < v && pending_in(adj, zeros, n as int, u as usize) == 0 ==> #[trigger] queue@.contains(u as usize),
                forall|i1: int, i2: int| 0 <= i1 < i2 < queue@.len() ==> #[trigger] queue@[i1] < #[trigger] queue@[i2],
        {
            if in_degree[v] == 0 {
                let ghost q0 = queue@;
                queue.push_back(v);
                proof {
                    assert(queue@ =~= q0.push(v));
                    assert(!q0.contains(v)) by {
                        if q0.contains(v) {
                            let i = choose|i: int| 0 <= i < q0.len() && q0[i] == v;
                        }
                    }
                    assert forall|u: int| 0 <= u < v + 1 && pending_in(adj, zeros, n as int, u as usize) == 0 implies #[trigger] queue@.contains(u as usize) by {
                        if u < v {
                            assert(q0.contains(u as usize));
                            let i = choose|i: int| 0 <= i < q0.len() && q0[i] == u as usize;
                            assert(queue@[i] == u as usize);
                        } else {
                            assert(queue@[q0.len() as int] == v);
                        }
                    }
                }
            }
        }
        let mut order: Vec<usize> = Vec::new();
        let ghost mut pre = zeros;
        let ghost z = queue@.len() as int;
        proof {
            assert(order@ + queue@ =~= queue@);
            assert(sources_first(adj, queue@, z)) by {
                assert forall|i: int| 0 <= i < z implies is_source(adj, #[trigger] queue@[i]) by {
                    let w = queue@[i];
                    assert(pending_in(adj, zeros, n as int, w) == 0);
                    assert forall|x: int| 0 <= x < adj.len() implies !#[trigger] adj[x].contains(w) by {
                        lemma_pending_term(adj, zeros, n as int, x, w);
                        assert(adj[x].skip(zeros[x]) =~= adj[x]);
                        lemma_occ_zero(adj[x], w);
                    }
                }
            }
            lemma_kahn_init(adj, queue@);
            lemma_distinct_bound(queue@, n as nat);
            assert forall|k: int, x: int|
                0 <= k < (order@ + queue@).len() && 0 <= x < n && #[trigger] adj[x].contains((order@ + queue@)[k])
                    implies placed_before(order@ + queue@, k, x as usize) by {
                let w = (order@ + queue@)[k];
                assert(w == queue@[k]);
                lemma_pending_term(adj, zeros, n as int, x, w);
                assert(adj[x].skip(zeros[x]) =~= adj[x]);
                lemma_occ_zero(adj[x], w);
            }
            assert forall|x: int| 0 <= x < n implies #[trigger] pre[x] == (if order@.contains(x as usize) {
                adj[x].len() as int
            } else {
                0
            }) by {}
        }
        loop
            invariant
                self.wf(),
                adj == self.adj(),
                n == adj.len(),
                pre.len() == n,
                in_degree@.len() == n,
                forall|u: int| 0 <= u < n ==> #[trigger] in_degree@[u] == pending_in(adj, pre, n as int, u as usize),
                forall|x: int| 0 <= x < n ==> #[trigger] pre[x] == (if order@.contains(x as usize) {
                    adj[x].len() as int
                } else {
                    0
                }),
                (order@ + queue@).no_duplicates(),
                (order@ + queue@).len() <= n,
                forall|i: int| 0 <= i < (order@ + queue@).len() ==> #[trigger] (order@ + queue@)[i] < n,
                forall|i: int|
                    0 <= i < (order@ + queue@).len() ==> pending_in(adj, pre, n as int, #[trigger] (order@ + queue@)[i]) == 0,
                forall|u: int|
                    0 <= u < n && pending_in(adj, pre, n as int, u as usize) == 0 ==> #[trigger] (order@
                        + queue@).contains(u as usize),
                forall|k: int, x: int|
                    0 <= k < (order@ + queue@).len() && 0 <= x < n && #[trigger] adj[x].contains(
                        (order@ + queue@)[k],
                    ) ==> placed_before(order@ + queue@, k, x as usize),
                kahn_state(adj, order@ + queue@, z, order@.len() as int, 0),
            ensures
                queue@.len() == 0,
                kahn_state(adj, order@, z, order@.len() as int, 0),
            decreases 2 * (n - (order@ + queue@).len()) + queue@.len(),
        {
            let ghost d0 = order@ + queue@;
            let ghost q0 = queue@;
            let ghost o0 = order@;
            match queue.pop_front() {
                Some(v) => {
                    order.push(v);
                    assert(order@ + queue@ =~= d0);
                    let ghost h = o0.len() as int;
                    assert(d0[h] == v);
                    assert(v < n);
                    assert(!o0.contains(v)) by {
                        if o0.contains(v) {
                            let i = choose|i: int| 0 <= i < o0.len() && o0[i] == v;
                            assert(d0[i] == v);
                        }
                    }
                    assert(pre[v as int] == 0);
                    assert forall|x: int| 0 <= x < n && x != v as int implies #[trigger] pre[x] == (if order@.contains(
                        x as usize,
                    ) {
                        adj[x].len() as int
                    } else {
                        0
                    }) by {
                        if o0.contains(x as usize) {
                            let i = choose|i: int| 0 <= i < o0.len() && o0[i] == x as usize;
                            assert(order@[i] == x as usize);
                        }
                        if order@.contains(x as usize) {
                            let i = choose|i: int| 0 <= i < order@.len() && order@[i] == x as usize;
                            assert(o0[i] == x as usize);
                        }
                    }
                    let nbrs = &self.adj_list[v];
                    assert(nbrs@ == adj[v as int]);
                    for m in 0..nbrs.len()
                        invariant
                            self.wf(),
                            adj == self.adj(),
                            n == adj.len(),
                            v < n,
                            nbrs@ == adj[v as int],
                            0 <= h,
                            order@.len() == h + 1,
                            order@[h] == v,
                            pre.len() == n,
                            pre[v as int] == m,
                            in_degree@.len() == n,
                            forall|u: int|
                                0 <= u < n ==> #[trigger] in_degree@[u] == pending_in(adj, pre, n as int, u as usize),
                            forall|x: int|
                                0 <= x < n && x != v as int ==> #[trigger] pre[x] == (if order@.contains(
                                    x as usize,
                                ) {
                                    adj[x].len() as int
                                } else {
                                    0
                                }),
                            (order@ + queue@).no_duplicates(),
                            forall|i: int| 0 <= i < (order@ + queue@).len() ==> #[trigger] (order@ + queue@)[i] < n,
                            forall|i: int|
                                0 <= i < (order@ + queue@).len() ==> pending_in(
                                    adj,
                                    pre,
                                    n as int,
                                    #[trigger] (order@ + queue@)[i],
                                ) == 0,
                            forall|u: int|
                                0 <= u < n && pending_in(adj, pre, n as int, u as usize) == 0
                                    ==> #[trigger] (order@ + queue@).contains(u as usize),
                            forall|k: int, x: int|
                                0 <= k < (order@ + queue@).len() && 0 <= x < n && #[trigger] adj[x].contains(
                                    (order@ + queue@)[k],
                                ) ==> placed_before(order@ + queue@, k, x as usize),
                            (order@ + queue@).len() >= d0.len(),
                            kahn_state(adj, order@ + queue@, z, h, m as int),
                    {
                        let nb = nbrs[m];
                        assert(nb == adj[v as int][m as int]);
                        assert(nb < n);
                        let ghost d1 = order@ + queue@;
                        let ghost pre1 = pre;
                        proof {
                            lemma_occ_skip_step(adj[v as int], m as int, nb);
                            lemma_pending_term(adj, pre, n as int, v as int, nb);
                            assert forall|u: usize| u < n implies #[trigger] pending_in(
                                adj,
                                pre.update(v as int, m + 1),
                                n as int,
                                u,
                            ) + (if u == nb {
                                1nat
                            } else {
                                0nat
                            }) == pending_in(adj, pre, n as int, u) by {
                                lemma_pending_step(adj, pre, n as int, v as int, u);
                            }
                            pre = pre.update(v as int, m + 1);
                        }
                        let deg = in_degree[nb] - 1;
                        in_degree.set(nb, deg);
                        assert(!d1.contains(nb)) by {
                            if d1.contains(nb) {
                                let i = choose|i: int| 0 <= i < d1.len() && d1[i] == nb;
                                assert(pending_in(adj, pre1, n as int, d1[i]) == 0);
                            }
                        }
                        if deg == 0 {
                            let ghost qb = queue@;
                            queue.push_back(nb);
                            proof {
                                assert forall|x: int|
                                    0 <= x < n && x != v as int implies #[trigger] pre[x] == (if order@.contains(
                                    x as usize,
                                ) {
                                    adj[x].len() as int
                                } else {
                                    0
                                }) by {
                                    assert(pre1[x] == pre[x]);
                                }
                                assert(order@.last() == v);
                                lemma_kahn_free_edges(adj, pre, order@, qb, v, m as int, nb);
                                assert forall|x: int| 0 <= x < d1.len() implies !#[trigger] adj[nb as int].contains(
                                    d1[x],
                                ) by {
                                    if adj[nb as int].contains(d1[x]) {
                                        assert(placed_before(d1, x, nb));
                                        let j = choose|j: int| 0 <= j < x && d1[j] == nb;
                                    }
                                }
                                assert(d1[h] == v);
                                lemma_kahn_sources(adj, d1, z, h, m as int);
                                lemma_kahn_free(adj, d1, z, h, m as int, nb);
                                let d2 = order@ + queue@;
                                assert(d2 =~= d1.push(nb));
                                let kn = d1.len() as int;
                                assert(d2[kn] == nb);
                                assert forall|i: int| 0 <= i < kn implies #[trigger] d2[i] == d1[i] by {}
                                assert forall|k: int, x: int|
                                    0 <= k < d2.len() && 0 <= x < n && #[trigger] adj[x].contains(d2[k])
                                        implies placed_before(d2, k, x as usize) by {
                                    if k < kn {
                                        assert(d2[k] == d1[k]);
                                        assert(adj[x].contains(d1[k]));
                                        assert(placed_before(d1, k, x as usize));
                                        let j = choose|j: int| 0 <= j < k && d1[j] == x as usize;
                                        assert(d2[j] == d1[j]);
                                    } else {
                                        lemma_pending_term(adj, pre, n as int, x, nb);
                                        lemma_occ_zero(adj[x].skip(pre[x]), nb);
                                        if pre[x] == 0 {
                                            assert(adj[x].skip(0) =~= adj[x]);
                                        }
                                        assert(pre[x] != 0);
                                        if x == v as int {
                                            assert(d2[h] == v);
                                        } else {
                                            assert(order@.contains(x as usize));
                                            let j = choose|j: int| 0 <= j < order@.len() && order@[j] == x as usize;
                                            assert(d2[j] == order@[j]);
                                        }
                                    }
                                }
                                assert forall|u: int|
                                    0 <= u < n && pending_in(adj, pre, n as int, u as usize) == 0
                                        implies #[trigger] d2.contains(u as usize) by {
                                    if u as usize != nb {
                                        assert(d1.contains(u as usize));
                                        let i = choose|i: int| 0 <= i < d1.len() && d1[i] == u as usize;
                                        assert(d2[i] == u as usize);
                                    }
                                }
                                assert forall|i: int| 0 <= i < d2.len() implies pending_in(
                                    adj,
                                    pre,
                                    n as int,
                                    #[trigger] d2[i],
                                ) == 0 by {
                                    if i < kn {
                                        assert(d2[i] == d1[i]);
                                        assert(pending_in(adj, pre1, n as int, d1[i]) == 0);
                                    }
                                }
                            }
                        } else {
                            proof {
                                lemma_kahn_skip(adj, d1, z, h, m as int);
                                assert forall|i: int| 0 <= i < d1.len() implies pending_in(
                                    adj,
                                    pre,
                                    n as int,
                                    #[trigger] d1[i],
                                ) == 0 by {
                                    assert(pending_in(adj, pre1, n as int, d1[i]) == 0);
                                }
                            }
                        }
                        proof {
                            assert forall|x: int|
                                0 <= x < n && x != v as int implies #[trigger] pre[x] == (if order@.contains(
                                x as usize,
                            ) {
                                adj[x].len() as int
                            } else {
                                0
                            }) by {
                                assert(pre1[x] == pre[x]);
                            }
                        }
                    }
                    proof {
                        assert forall|x: int| 0 <= x < n implies #[trigger] pre[x] == (if order@.contains(
                            x as usize,
                        ) {
                            adj[x].len() as int
                        } else {
                            0
                        }) by {
                            if x == v as int {
                                assert(order@[h] == v);
                            }
                        }
                        lemma_distinct_bound(order@ + queue@, n as nat);
                        lemma_kahn_next(adj, order@ + queue@, z, h, adj[v as int].len() as int);
                    }
                },
                None => {
                    assert(order@ + queue@ =~= order@);
                    break;
                },
            }
        }
        if order.len() == n {
            proof {
                assert forall|j: int, k: int|
                    0 <= j < order@.len() && 0 <= k < order@.len() && #[trigger] adj[order@[j] as int].contains(
                        order@[k],
                    ) implies j < k by {
                    assert(placed_before(order@, k, order@[j]));
                    let j2 = choose|j2: int| 0 <= j2 < k && order@[j2] == order@[j];
                }
                assert(is_topological_order(adj, order@));
                lemma_topological_order_acyclic(adj, order@);
                lemma_kahn_done(adj, order@, z);
            }
            Some(order)
        } else {
            proof {
                lemma_distinct_bound(order@, n as nat);
                let u0 = choose|u: usize| u < n && !order@.contains(u);
                assert(exists|u: usize| u < n && !order@.contains(u)) by {
                    if forall|u: usize| u < n ==> order@.contains(u) {
                        let vr = vertex_range(n as nat);
                        lemma_vertex_range(n as nat);
                        order@.unique_seq_to_set();
                        vstd::seq_lib::seq_to_set_is_finite(order@);
                        assert(vr.subset_of(order@.to_set())) by {
                            assert forall|u: usize| #[trigger] vr.contains(u) implies order@.to_set().contains(u) by {
                                assert(order@.contains(u));
                            }
                        }
                        vstd::set_lib::lemma_len_subset(vr, order@.to_set());
                    }
                }
                assert forall|u: usize| u < adj.len() && !order@.contains(u) implies exists|x: usize|
                    x < adj.len() && !order@.contains(x) && #[trigger] adj[x as int].contains(u) by {
                    assert(pending_in(adj, pre, n as int, u) != 0) by {
                        if pending_in(adj, pre, n as int, u) == 0 {
                            assert(order@.contains(u as int as usize));
                        }
                    }
                    let x = lemma_pending_pos(adj, pre, n as int, u);
                    if order@.contains(x as usize) {
                        assert(pre[x] == adj[x].len());
                        assert(adj[x].skip(pre[x]) =~= Seq::<usize>::empty());
                    }
                    lemma_occ_zero(adj[x].skip(pre[x]), u);
                    let i = choose|i: int| 0 <= i < adj[x].skip(pre[x]).len() && adj[x].skip(pre[x])[i] == u;
                    assert(adj[x][pre[x] + i] == u);
                    assert(adj[(x as usize) as int].contains(u));
                }
                lemma_unsorted_cycle(adj, order@, u0);
            }
            None
        }
    }

}


/// The breadth-first order is a traversal order.
pub proof fn lemma_bfs_order_is_traversal(adj: Seq<Seq<usize>>, start: usize, order: Seq<usize>)
    requires
        bfs_order(adj, start, order),
    ensures
        traversal_order(adj, start, order),
{
    assert forall|k: int| 1 <= k < order.len() implies #[trigger] has_earlier_pred(adj, order, k) by {
        assert(discovered(adj, order, k));
        let (j, m) = choose|j: int, m: int| #[trigger] discovered_at(adj, order, k, j, m);
        assert(adj[order[j] as int][m] == order[k]);
    }
}

/// Two traversals from the same vertex visit the same vertices, as many of them.
pub proof fn lemma_traversals_same_vertices(
    adj: Seq<Seq<usize>>,
    start: usize,
    o1: Seq<usize>,
    o2: Seq<usize>,
)
    requires
        traversal_order(adj, start, o1),
        traversal_order(adj, start, o2),
    ensures
        o1.to_set() == o2.to_set(),
        o1.len() == o2.len(),
{
    assert(o1.to_set() =~= o2.to_set()) by {
        assert forall|v: usize| o1.to_set().contains(v) <==> o2.to_set().contains(v) by {
            assert(o1.contains(v) <==> reachable(adj, start, v));
            assert(o2.contains(v) <==> reachable(adj, start, v));
        }
    }
    o1.unique_seq_to_set();
    o2.unique_seq_to_set();
}

/// The graph on six vertices with the edges 5→2, 5→0, 4→0, 4→1, 2→3 and 3→1, added in
/// that order.
pub fn create_test_dag() -> (g: Graph)
    ensures
        g.wf(),
        g.spec_num_vertices() == 6,
        g.adj() == seq![
            Seq::<usize>::empty(),
            Seq::<usize>::empty(),
            seq![3usize],
            seq![1usize],
            seq![0usize, 1usize],
            seq![2usize, 0usize],
        ],
{
    let mut graph = Graph::new(6);
    graph.add_edge(5, 2);
    graph.add_edge(5, 0);
    graph.add_edge(4, 0);
    graph.add_edge(4, 1);
    graph.add_edge(2, 3);
    graph.add_edge(3, 1);
    assert(graph.adj()[0] =~= Seq::<usize>::empty());
    assert(graph.adj()[1] =~= Seq::<usize>::empty());
    assert(graph.adj()[2] =~= seq![3usize]);
    assert(graph.adj()[3] =~= seq![1usize]);
    assert(graph.adj()[4] =~= seq![0usize, 1usize]);
    assert(graph.adj()[5] =~= seq![2usize, 0usize]);
    assert(graph.adj() =~= seq![
        Seq::<usize>::empty(),
        Seq::<usize>::empty(),
        seq![3usize],
        seq![1usize],
        seq![0usize, 1usize],
        seq![2usize, 0usize],
    ]);
    graph
}

} // verus!
