//! The mathematical model of an undirected graph given as a list of edges
//! `(u, v, payload, aux)`: adjacency, walks, connectivity, and the roots that
//! number the components.

use vstd::prelude::*;

verus! {

/// Some edge joins `a` and `b`, in either direction.
pub open spec fn adjacent<K>(edges: Seq<(usize, usize, K, usize)>, a: int, b: int) -> bool {
    exists|e: int|
        0 <= e < edges.len() && #[trigger] joins(edges[e], a, b)
}

/// The edge `d` joins `a` and `b`, in either direction.
pub open spec fn joins<K>(d: (usize, usize, K, usize), a: int, b: int) -> bool {
    (d.0 == a && d.1 == b) || (d.0 == b && d.1 == a)
}

/// `p` is a walk from `a` to `b`: each step follows an edge.
pub open spec fn is_walk<K>(edges: Seq<(usize, usize, K, usize)>, p: Seq<int>, a: int, b: int) -> bool {
    &&& p.len() > 0
    &&& p[0] == a
    &&& p[p.len() - 1] == b
    &&& forall|k: int| 0 <= k < p.len() - 1 ==> adjacent(edges, #[trigger] p[k], p[k + 1])
}

/// Some walk leads from `a` to `b`.
pub open spec fn connected<K>(edges: Seq<(usize, usize, K, usize)>, a: int, b: int) -> bool {
    exists|p: Seq<int>| #[trigger] is_walk(edges, p, a, b)
}

/// Every edge has both ends in `[0, n)`.
pub open spec fn edges_in_range<K>(edges: Seq<(usize, usize, K, usize)>, n: int) -> bool {
    forall|e: int| 0 <= e < edges.len() ==> (#[trigger] edges[e]).0 < n && edges[e].1 < n
}

/// `r` is the smallest vertex of its component.
pub open spec fn is_root<K>(edges: Seq<(usize, usize, K, usize)>, r: int) -> bool {
    forall|j: int| 0 <= j < r ==> !#[trigger] connected(edges, j, r)
}

/// The number of roots among the vertices `0 .. k`.
pub open spec fn count_roots<K>(edges: Seq<(usize, usize, K, usize)>, k: int) -> nat
    decreases k,
{
    if k <= 0 {
        0
    } else {
        count_roots(edges, k - 1) + if is_root(edges, k - 1) { 1nat } else { 0nat }
    }
}

/// `r` labels the vertices `0 .. n` by connected component: labels lie in
/// `[0, number of components)`, two vertices share a label exactly when a walk
/// joins them, and the smallest vertex of each component carries the number of
/// components whose smallest vertex comes before it.
pub open spec fn labels_components<K>(edges: Seq<(usize, usize, K, usize)>, n: int, r: Seq<isize>) -> bool {
    &&& r.len() == n
    &&& forall|i: int| 0 <= i < n ==> 0 <= #[trigger] r[i] < count_roots(edges, n)
    &&& forall|i: int, j: int|
        #![trigger r[i], r[j]]
        #![trigger connected(edges, i, j)]
        0 <= i < n && 0 <= j < n ==> (r[i] == r[j] <==> connected(edges, i, j))
    &&& forall|i: int| 0 <= i < n && #[trigger] is_root(edges, i) ==> r[i] == count_roots(edges, i)
}

/// No edge touches the vertex `i`.
pub open spec fn isolated<K>(edges: Seq<(usize, usize, K, usize)>, i: int) -> bool {
    forall|e: int| 0 <= e < edges.len() ==> (#[trigger] edges[e]).0 != i && edges[e].1 != i
}

/// At most `k` of the vertices `0 .. k` are roots.
pub proof fn lemma_count_roots_bound<K>(edges: Seq<(usize, usize, K, usize)>, k: int)
    requires
        0 <= k,
    ensures
        count_roots(edges, k) <= k,
    decreases k,
{
    if k > 0 {
        lemma_count_roots_bound(edges, k - 1);
    }
}

/// Every vertex is connected to itself.
pub proof fn lemma_connected_reflexive<K>(edges: Seq<(usize, usize, K, usize)>, a: int)
    ensures
        connected(edges, a, a),
{
    assert(is_walk(edges, seq![a], a, a));
}

/// A walk extended by one edge is a walk.
pub proof fn lemma_connected_step<K>(edges: Seq<(usize, usize, K, usize)>, a: int, b: int, c: int)
    requires
        connected(edges, a, b),
        adjacent(edges, b, c),
    ensures
        connected(edges, a, c),
{
    let p = choose|p: Seq<int>| is_walk(edges, p, a, b);
    let q = p.push(c);
    assert forall|k: int| 0 <= k < q.len() - 1 implies adjacent(edges, #[trigger] q[k], q[k + 1]) by {
        if k < p.len() - 1 {
            assert(q[k] == p[k] && q[k + 1] == p[k + 1]);
        }
    }
    assert(is_walk(edges, q, a, c));
}

/// Adjacency goes both ways.
pub proof fn lemma_adjacent_symmetric<K>(edges: Seq<(usize, usize, K, usize)>, a: int, b: int)
    requires
        adjacent(edges, a, b),
    ensures
        adjacent(edges, b, a),
{
    let e = choose|e: int| 0 <= e < edges.len() && #[trigger] joins(edges[e], a, b);
    assert(joins(edges[e], b, a));
}

/// Connectivity goes both ways.
pub proof fn lemma_connected_symmetric<K>(edges: Seq<(usize, usize, K, usize)>, a: int, b: int)
    requires
        connected(edges, a, b),
    ensures
        connected(edges, b, a),
{
    let p = choose|p: Seq<int>| is_walk(edges, p, a, b);
    let n = p.len();
    let q = Seq::new(n, |k: int| p[n - 1 - k]);
    assert forall|k: int| 0 <= k < q.len() - 1 implies adjacent(edges, #[trigger] q[k], q[k + 1]) by {
        let j = n - 2 - k;
        assert(adjacent(edges, p[j], p[j + 1]));
        lemma_adjacent_symmetric(edges, p[j], p[j + 1]);
    }
    assert(is_walk(edges, q, b, a));
}

/// Two walks that meet end to end make a walk: connectivity is transitive.
pub proof fn lemma_connected_transitive<K>(
    edges: Seq<(usize, usize, K, usize)>,
    a: int,
    b: int,
    c: int,
)
    requires
        connected(edges, a, b),
        connected(edges, b, c),
    ensures
        connected(edges, a, c),
{
    let p = choose|p: Seq<int>| is_walk(edges, p, a, b);
    let q = choose|q: Seq<int>| is_walk(edges, q, b, c);
    let r = p + q.subrange(1, q.len() as int);
    assert forall|k: int| 0 <= k < r.len() - 1 implies adjacent(edges, #[trigger] r[k], r[k + 1]) by {
        if k < p.len() - 1 {
            assert(r[k] == p[k] && r[k + 1] == p[k + 1]);
        } else {
            let j = k - (p.len() - 1);
            assert(r[k] == q[j] && r[k + 1] == q[j + 1]);
            assert(adjacent(edges, q[j], q[j + 1]));
        }
    }
    assert(is_walk(edges, r, a, c));
}

} // verus!
