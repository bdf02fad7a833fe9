//! What holds of every labeling by component: isolated vertices stand alone,
//! and edges that add no connectivity (duplicates, reversed duplicates,
//! self-loops) leave the partition of the vertices unchanged.

use vstd::prelude::*;
use crate::graph::{
    adjacent, connected, is_walk, isolated, joins, labels_components, lemma_connected_reflexive,
    lemma_connected_step, lemma_connected_symmetric, lemma_connected_transitive,
};

verus! {

/// A vertex that no edge touches gets a label of its own: no other vertex
/// shares it.
pub proof fn lemma_isolated_vertex_alone<K>(
    edges: Seq<(usize, usize, K, usize)>,
    n: int,
    r: Seq<isize>,
    i: int,
    j: int,
)
    requires
        labels_components(edges, n, r),
        isolated(edges, i),
        0 <= i < n,
        0 <= j < n,
        i != j,
    ensures
        r[i] != r[j],
{
    if connected(edges, i, j) {
        let p = choose|p: Seq<int>| is_walk(edges, p, i, j);
        assert(adjacent(edges, p[0], p[1]));
        let e = choose|e: int| 0 <= e < edges.len() && #[trigger] joins(edges[e], p[0], p[1]);
        assert(edges[e].0 != i && edges[e].1 != i);
    }
}

/// Where each edge of `e1` joins vertices that `e2` connects, whatever `e1`
/// connects `e2` connects too.
proof fn lemma_connected_mono<K>(
    e1: Seq<(usize, usize, K, usize)>,
    e2: Seq<(usize, usize, K, usize)>,
    a: int,
    b: int,
)
    requires
        forall|x: int, y: int| #[trigger] adjacent(e1, x, y) ==> connected(e2, x, y),
        connected(e1, a, b),
    ensures
        connected(e2, a, b),
{
    let p = choose|p: Seq<int>| is_walk(e1, p, a, b);
    lemma_walk_prefix_connected(e1, e2, p, a, b, p.len() - 1);
}

proof fn lemma_walk_prefix_connected<K>(
    e1: Seq<(usize, usize, K, usize)>,
    e2: Seq<(usize, usize, K, usize)>,
    p: Seq<int>,
    a: int,
    b: int,
    k: int,
)
    requires
        forall|x: int, y: int| #[trigger] adjacent(e1, x, y) ==> connected(e2, x, y),
        is_walk(e1, p, a, b),
        0 <= k < p.len(),
    ensures
        connected(e2, a, p[k]),
    decreases k,
{
    if k == 0 {
        lemma_connected_reflexive(e2, a);
    } else {
        lemma_walk_prefix_connected(e1, e2, p, a, b, k - 1);
        assert(adjacent(e1, p[k - 1], p[k]));
        lemma_connected_transitive(e2, a, p[k - 1], p[k]);
    }
}

/// An edge list with `d` inserted at position `k` joins what the list joined,
/// and the ends of `d`.
proof fn lemma_insert_adjacency<K>(
    edges: Seq<(usize, usize, K, usize)>,
    k: int,
    d: (usize, usize, K, usize),
    x: int,
    y: int,
)
    requires
        0 <= k <= edges.len(),
    ensures
        adjacent(edges.insert(k, d), x, y) <==> (adjacent(edges, x, y) || joins(d, x, y)),
{
    let e2 = edges.insert(k, d);
    if adjacent(edges, x, y) {
        let e = choose|e: int| 0 <= e < edges.len() && #[trigger] joins(edges[e], x, y);
        if e < k {
            assert(e2[e] == edges[e]);
            assert(joins(e2[e], x, y));
        } else {
            assert(e2[e + 1] == edges[e]);
            assert(joins(e2[e + 1], x, y));
        }
    }
    if joins(d, x, y) {
        assert(e2[k] == d);
        assert(joins(e2[k], x, y));
    }
    if adjacent(e2, x, y) {
        let e = choose|e: int| 0 <= e < e2.len() && #[trigger] joins(e2[e], x, y);
        if e < k {
            assert(joins(edges[e], x, y));
        } else if e > k {
            assert(joins(edges[e - 1], x, y));
        }
    }
}

/// Inserting an edge whose ends are already connected changes no connectivity.
proof fn lemma_redundant_edge<K>(
    edges: Seq<(usize, usize, K, usize)>,
    k: int,
    d: (usize, usize, K, usize),
    a: int,
    b: int,
)
    requires
        0 <= k <= edges.len(),
        connected(edges, d.0 as int, d.1 as int),
    ensures
        connected(edges, a, b) <==> connected(edges.insert(k, d), a, b),
{
    let e2 = edges.insert(k, d);
    assert forall|x: int, y: int| #[trigger] adjacent(edges, x, y) implies connected(e2, x, y) by {
        lemma_insert_adjacency(edges, k, d, x, y);
        lemma_connected_reflexive(e2, x);
        lemma_connected_step(e2, x, x, y);
    }
    assert forall|x: int, y: int| #[trigger] adjacent(e2, x, y) implies connected(edges, x, y) by {
        lemma_insert_adjacency(edges, k, d, x, y);
        if adjacent(edges, x, y) {
            lemma_connected_reflexive(edges, x);
            lemma_connected_step(edges, x, x, y);
        } else if x == d.0 {
            assert(y == d.1);
        } else {
            assert(x == d.1 && y == d.0);
            lemma_connected_symmetric(edges, d.0 as int, d.1 as int);
        }
    }
    if connected(edges, a, b) {
        lemma_connected_mono(edges, e2, a, b);
    }
    if connected(e2, a, b) {
        lemma_connected_mono(e2, edges, a, b);
    }
}

/// Two labelings by component of edge lists that connect the same vertices
/// induce the same partition.
proof fn lemma_same_partition<K>(
    e1: Seq<(usize, usize, K, usize)>,
    e2: Seq<(usize, usize, K, usize)>,
    n: int,
    r1: Seq<isize>,
    r2: Seq<isize>,
)
    requires
        labels_components(e1, n, r1),
        labels_components(e2, n, r2),
        forall|a: int, b: int| 0 <= a < n && 0 <= b < n ==> (#[trigger] connected(e1, a, b) <==> connected(e2, a, b)),
    ensures
        forall|i: int, j: int|
            0 <= i < n && 0 <= j < n ==> (#[trigger] r1[i] == #[trigger] r1[j] <==> r2[i] == r2[j]),
{
    assert forall|i: int, j: int| 0 <= i < n && 0 <= j < n implies (#[trigger] r1[i] == #[trigger] r1[j] <==> r2[i] == r2[j]) by {
        assert(r1[i] == r1[j] <==> connected(e1, i, j));
        assert(r2[i] == r2[j] <==> connected(e2, i, j));
    }
}

/// Inserting anywhere in the edge list a duplicate of an edge, in either
/// direction, leaves the partition into components unchanged.
pub proof fn lemma_duplicate_edge_keeps_partition<K>(
    edges: Seq<(usize, usize, K, usize)>,
    k: int,
    d: (usize, usize, K, usize),
    n: int,
    r1: Seq<isize>,
    r2: Seq<isize>,
)
    requires
        0 <= k <= edges.len(),
        adjacent(edges, d.0 as int, d.1 as int),
        labels_components(edges, n, r1),
        labels_components(edges.insert(k, d), n, r2),
    ensures
        forall|i: int, j: int|
            0 <= i < n && 0 <= j < n ==> (#[trigger] r1[i] == #[trigger] r1[j] <==> r2[i] == r2[j]),
{
    lemma_connected_reflexive(edges, d.0 as int);
    lemma_connected_step(edges, d.0 as int, d.0 as int, d.1 as int);
    assert forall|a: int, b: int| 0 <= a < n && 0 <= b < n implies (#[trigger] connected(edges, a, b) <==> connected(edges.insert(k, d), a, b)) by {
        lemma_redundant_edge(edges, k, d, a, b);
    }
    lemma_same_partition(edges, edges.insert(k, d), n, r1, r2);
}

/// Inserting anywhere in the edge list a self-loop leaves the partition into
/// components unchanged: the looped vertex is merged with nothing.
pub proof fn lemma_self_loop_keeps_partition<K>(
    edges: Seq<(usize, usize, K, usize)>,
    k: int,
    d: (usize, usize, K, usize),
    n: int,
    r1: Seq<isize>,
    r2: Seq<isize>,
)
    requires
        0 <= k <= edges.len(),
        d.0 == d.1,
        labels_components(edges, n, r1),
        labels_components(edges.insert(k, d), n, r2),
    ensures
        forall|i: int, j: int|
            0 <= i < n && 0 <= j < n ==> (#[trigger] r1[i] == #[trigger] r1[j] <==> r2[i] == r2[j]),
{
    lemma_connected_reflexive(edges, d.0 as int);
    assert forall|a: int, b: int| 0 <= a < n && 0 <= b < n implies (#[trigger] connected(edges, a, b) <==> connected(edges.insert(k, d), a, b)) by {
        lemma_redundant_edge(edges, k, d, a, b);
    }
    lemma_same_partition(edges, edges.insert(k, d), n, r1, r2);
}

} // verus!
