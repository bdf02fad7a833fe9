//! Labels the vertices of an undirected graph by connected component, with an
//! iterative depth-first search from each unlabeled vertex in increasing order.

use vstd::prelude::*;
use crate::graph::{
    adjacent, connected, count_roots, edges_in_range, is_root, is_walk, joins, labels_components,
    lemma_adjacent_symmetric, lemma_connected_reflexive, lemma_connected_step,
    lemma_connected_symmetric, lemma_connected_transitive, lemma_count_roots_bound,
};

verus! {

/// Why a labeling could not be made.
#[derive(Debug, Clone, Copy, PartialEq, Eq, Structural)]
pub enum LabelError {
    /// The edge at position `edge` names `vertex`, which is not below the
    /// number of vertices.
    IndexOutOfRange { edge: usize, vertex: usize },
}

/// The label of a vertex that no search has reached yet.
pub const UNVISITED: isize = -1;

/// `nbrs` lists, for each vertex `u < n`, only vertices adjacent to `u`, and
/// lists both ends of each of the first `m` edges at each other.
spec fn lists_neighbours<K>(
    edges: Seq<(usize, usize, K, usize)>,
    nbrs: Seq<Vec<usize>>,
    n: int,
    m: int,
) -> bool {
    &&& nbrs.len() == n
    &&& forall|u: int, j: int|
        0 <= u < n && 0 <= j < nbrs[u]@.len() ==> (#[trigger] nbrs[u]@[j]) < n && adjacent(
            edges,
            u,
            nbrs[u]@[j] as int,
        )
    &&& forall|e: int|
        0 <= e < m ==> nbrs[(#[trigger] edges[e]).0 as int]@.contains(edges[e].1)
            && nbrs[edges[e].1 as int]@.contains(edges[e].0)
}

/// Every neighbour of `w` carries the label of `w`.
spec fn closed_at(x: Seq<isize>, nbrs: Seq<Vec<usize>>, w: int) -> bool {
    forall|j: int| 0 <= j < nbrs[w]@.len() ==> x[#[trigger] nbrs[w]@[j] as int] == x[w]
}

/// The number of unlabeled entries of `x`.
spec fn count_unlabeled(x: Seq<isize>) -> nat
    decreases x.len(),
{
    if x.len() == 0 {
        0
    } else {
        count_unlabeled(x.drop_last()) + if x.last() == UNVISITED { 1nat } else { 0nat }
    }
}

proof fn lemma_label_one(x: Seq<isize>, i: int, c: isize)
    requires
        0 <= i < x.len(),
        x[i] == UNVISITED,
        c != UNVISITED,
    ensures
        count_unlabeled(x.update(i, c)) + 1 == count_unlabeled(x),
    decreases x.len(),
{
    let y = x.update(i, c);
    if i == x.len() - 1 {
        assert(y.drop_last() =~= x.drop_last());
    } else {
        assert(y.drop_last() =~= x.drop_last().update(i, c));
        lemma_label_one(x.drop_last(), i, c);
    }
}

/// Adjacent vertices are in range and listed as neighbours of each other.
proof fn lemma_adjacent_listed<K>(
    edges: Seq<(usize, usize, K, usize)>,
    nbrs: Seq<Vec<usize>>,
    n: int,
    a: int,
    b: int,
)
    requires
        lists_neighbours(edges, nbrs, n, edges.len() as int),
        edges_in_range(edges, n),
        adjacent(edges, a, b),
    ensures
        0 <= a < n,
        0 <= b < n,
        nbrs[a]@.contains(b as usize),
{
    let e = choose|e: int| 0 <= e < edges.len() && #[trigger] joins(edges[e], a, b);
    assert(nbrs[edges[e].0 as int]@.contains(edges[e].1));
    assert(nbrs[edges[e].1 as int]@.contains(edges[e].0));
}

/// A label that is closed under adjacency covers every vertex that a walk
/// reaches from a vertex that carries it.
proof fn lemma_closed_spreads<K>(
    edges: Seq<(usize, usize, K, usize)>,
    nbrs: Seq<Vec<usize>>,
    x: Seq<isize>,
    n: int,
    a: int,
    b: int,
)
    requires
        lists_neighbours(edges, nbrs, n, edges.len() as int),
        edges_in_range(edges, n),
        x.len() == n,
        forall|w: int| 0 <= w < n && x[w] != UNVISITED ==> #[trigger] closed_at(x, nbrs, w),
        0 <= a < n,
        x[a] != UNVISITED,
        connected(edges, a, b),
    ensures
        0 <= b < n,
        x[b] == x[a],
{
    let p = choose|p: Seq<int>| is_walk(edges, p, a, b);
    lemma_walk_keeps_label(edges, nbrs, x, n, p, a, b, p.len() - 1);
}

proof fn lemma_walk_keeps_label<K>(
    edges: Seq<(usize, usize, K, usize)>,
    nbrs: Seq<Vec<usize>>,
    x: Seq<isize>,
    n: int,
    p: Seq<int>,
    a: int,
    b: int,
    k: int,
)
    requires
        lists_neighbours(edges, nbrs, n, edges.len() as int),
        edges_in_range(edges, n),
        x.len() == n,
        forall|w: int| 0 <= w < n && x[w] != UNVISITED ==> #[trigger] closed_at(x, nbrs, w),
        0 <= a < n,
        x[a] != UNVISITED,
        is_walk(edges, p, a, b),
        0 <= k < p.len(),
    ensures
        0 <= p[k] < n,
        x[p[k]] == x[a],
    decreases k,
{
    if k > 0 {
        lemma_walk_keeps_label(edges, nbrs, x, n, p, a, b, k - 1);
        let u = p[k - 1];
        let v = p[k];
        assert(adjacent(edges, u, v));
        lemma_adjacent_listed(edges, nbrs, n, u, v);
        let j = choose|j: int| 0 <= j < nbrs[u]@.len() && nbrs[u]@[j] == v as usize;
        assert(closed_at(x, nbrs, u));
        assert(x[nbrs[u]@[j] as int] == x[u]);
    }
}

/// Labels vertex `i` of `0 .. num_vertices` by its connected component in the
/// undirected graph that `edges` describe. The payload and the auxiliary index
/// of each edge are carried along and never read.
///
/// Components are numbered from 0 in the order of their smallest vertex, which
/// is the order in which a search from each unlabeled vertex, in increasing
/// order, finds them.
pub fn dfs<K>(num_vertices: usize, edges: &[(usize, usize, K, usize)]) -> (r: Vec<isize>)
    requires
        num_vertices <= isize::MAX,
        edges_in_range(edges@, num_vertices as int),
    ensures
        labels_components(edges@, num_vertices as int, r@),
        forall|e: int|
            0 <= e < edges@.len() ==> r@[(#[trigger] edges@[e]).0 as int] == r@[edges@[e].1 as int],
{
    let n = num_vertices;
    let ghost g = edges@;

    // Neighbour lists, one per vertex, in edge order.
    let mut nbrs: Vec<Vec<usize>> = Vec::new();
    let mut i: usize = 0;
    while i < n
        invariant
            i <= n,
            nbrs@.len() == i,
            forall|u: int| 0 <= u < i ==> (#[trigger] nbrs@[u])@.len() == 0,
        decreases n - i,
    {
        nbrs.push(Vec::new());
        i = i + 1;
    }
    let mut m: usize = 0;
    while m < edges.len()
        invariant
            g == edges@,
            m <= edges@.len(),
            edges_in_range(g, n as int),
            lists_neighbours(g, nbrs@, n as int, m as int),
        decreases edges@.len() - m,
    {
        let u = edges[m].0;
        let v = edges[m].1;
        let ghost before = nbrs@;
        assert(u < n && v < n) by {
            assert(g[m as int].0 < n);
        }
        nbrs[u].push(v);
        nbrs[v].push(u);
        proof {
            assert(joins(g[m as int], u as int, v as int));
            assert(joins(g[m as int], v as int, u as int));
            assert forall|w: int, j: int|
                0 <= w < n && 0 <= j < nbrs@[w]@.len() implies (#[trigger] nbrs@[w]@[j]) < n
                && adjacent(g, w, nbrs@[w]@[j] as int) by {
                if j < before[w]@.len() {
                    assert(nbrs@[w]@[j] == before[w]@[j]);
                }
            }
            assert forall|e: int| 0 <= e < m + 1 implies nbrs@[(#[trigger] g[e]).0 as int]@.contains(
                g[e].1,
            ) && nbrs@[g[e].1 as int]@.contains(g[e].0) by {
                if e < m {
                    let a = g[e].0 as int;
                    let b = g[e].1 as int;
                    let ja = choose|ja: int| 0 <= ja < before[a]@.len() && before[a]@[ja] == g[e].1;
                    let jb = choose|jb: int| 0 <= jb < before[b]@.len() && before[b]@[jb] == g[e].0;
                    assert(nbrs@[a]@[ja] == g[e].1);
                    assert(nbrs@[b]@[jb] == g[e].0);
                } else {
                    assert(nbrs@[u as int]@.last() == v);
                    assert(nbrs@[v as int]@.last() == u);
                }
            }
        }
        m = m + 1;
    }

    // Labels, all unvisited at first.
    let mut x: Vec<isize> = Vec::new();
    let mut i: usize = 0;
    while i < n
        invariant
            i <= n,
            x@.len() == i,
            forall|w: int| 0 <= w < i ==> #[trigger] x@[w] == UNVISITED,
        decreases n - i,
    {
        x.push(UNVISITED);
        i = i + 1;
    }

    let mut cc_id: isize = 0;
    let ghost mut roots: Seq<int> = Seq::empty();
    let mut stack: Vec<usize> = Vec::new();
    let mut start: usize = 0;
    while start < n
        invariant
            g == edges@,
            n <= isize::MAX,
            edges_in_range(g, n as int),
            lists_neighbours(g, nbrs@, n as int, g.len() as int),
            start <= n,
            x@.len() == n,
            stack@.len() == 0,
            cc_id as int == count_roots(g, start as int),
            roots.len() == cc_id,
            forall|l: int| 0 <= l < roots.len() ==> 0 <= #[trigger] roots[l] < start,
            forall|w: int|
                0 <= w < n && #[trigger] x@[w] != UNVISITED ==> 0 <= x@[w] < cc_id && connected(
                    g,
                    roots[x@[w] as int],
                    w,
                ),
            forall|w: int| 0 <= w < start ==> #[trigger] x@[w] != UNVISITED,
            forall|w: int| 0 <= w < n && x@[w] != UNVISITED ==> #[trigger] closed_at(x@, nbrs@, w),
            forall|w: int|
                0 <= w < start && #[trigger] is_root(g, w) ==> x@[w] == count_roots(g, w),
        decreases n - start,
    {
        if x[start] == UNVISITED {
            proof {
                assert forall|j: int| 0 <= j < start implies !#[trigger] connected(g, j, start as int) by {
                    if connected(g, j, start as int) {
                        assert(x@[j] != UNVISITED);
                        lemma_closed_spreads(g, nbrs@, x@, n as int, j, start as int);
                    }
                }
                assert(is_root(g, start as int));
                lemma_count_roots_bound(g, start as int);
                lemma_connected_reflexive(g, start as int);
            }
            let ghost x0 = x@;
            x.set(start, cc_id);
            proof {
                roots = roots.push(start as int);
            }
            stack.push(start);
            proof {
                assert forall|w: int|
                    0 <= w < n && x@[w] != UNVISITED && !stack@.contains(w as usize)
                        implies #[trigger] closed_at(x@, nbrs@, w) by {
                    assert(stack@[0] == start);
                    assert(closed_at(x0, nbrs@, w));
                    assert forall|j: int| 0 <= j < nbrs@[w]@.len() implies x@[#[trigger] nbrs@[w]@[j] as int] == x@[w] by {
                        assert(x0[nbrs@[w]@[j] as int] == x0[w]);
                    }
                }
            }
            proof {
                lemma_label_one(x0, start as int, cc_id);
            }
            // Depth-first search of the component of `start`.
            while stack.len() > 0
                invariant
                    g == edges@,
                    n <= isize::MAX,
                    edges_in_range(g, n as int),
                    lists_neighbours(g, nbrs@, n as int, g.len() as int),
                    start < n,
                    x@.len() == n,
                    x0.len() == n,
                    0 <= cc_id < n,
                    roots.len() == cc_id + 1,
                    roots[cc_id as int] == start,
                    x@[start as int] == cc_id,
                    forall|l: int| 0 <= l < roots.len() ==> 0 <= #[trigger] roots[l] <= start,
                    forall|w: int|
                        0 <= w < n && #[trigger] x@[w] != UNVISITED ==> 0 <= x@[w] <= cc_id
                            && connected(g, roots[x@[w] as int], w),
                    forall|w: int|
                        0 <= w < n && #[trigger] x0[w] != UNVISITED ==> x@[w] == x0[w],
                    forall|k: int|
                        0 <= k < stack@.len() ==> #[trigger] stack@[k] < n && x@[stack@[k] as int]
                            == cc_id,
                    forall|w: int|
                        0 <= w < n && x@[w] != UNVISITED && !stack@.contains(w as usize)
                            ==> #[trigger] closed_at(x@, nbrs@, w),
                decreases count_unlabeled(x@) + stack@.len(),
            {
                let ghost measure = count_unlabeled(x@) + stack@.len();
                let ghost s0 = stack@;
                let u = stack.pop().unwrap();
                proof {
                    assert(u == s0[s0.len() - 1]);
                    assert(stack@ =~= s0.drop_last());
                    assert forall|w: int|
                        0 <= w < n && x@[w] != UNVISITED && !stack@.contains(w as usize) && w
                            != u implies #[trigger] closed_at(x@, nbrs@, w) by {
                        if s0.contains(w as usize) {
                            let k = choose|k: int| 0 <= k < s0.len() && s0[k] == w as usize;
                            if k < s0.len() - 1 {
                                assert(stack@[k] == w as usize);
                            }
                        }
                    }
                }
                let mut k: usize = 0;
                while k < nbrs[u].len()
                    invariant
                        g == edges@,
                        n <= isize::MAX,
                        edges_in_range(g, n as int),
                        lists_neighbours(g, nbrs@, n as int, g.len() as int),
                        start < n,
                        u < n,
                        x@.len() == n,
                        x0.len() == n,
                        x@[u as int] == cc_id,
                        0 <= cc_id < n,
                        k <= nbrs@[u as int]@.len(),
                        count_unlabeled(x@) + stack@.len() + 1 == measure,
                        roots.len() == cc_id + 1,
                        roots[cc_id as int] == start,
                        x@[start as int] == cc_id,
                    x@[start as int] == cc_id,
                        forall|l: int| 0 <= l < roots.len() ==> 0 <= #[trigger] roots[l] <= start,
                        forall|w: int|
                            0 <= w < n && #[trigger] x@[w] != UNVISITED ==> 0 <= x@[w] <= cc_id
                                && connected(g, roots[x@[w] as int], w),
                        forall|w: int|
                            0 <= w < n && #[trigger] x0[w] != UNVISITED ==> x@[w] == x0[w],
                        forall|q: int|
                            0 <= q < stack@.len() ==> #[trigger] stack@[q] < n && x@[stack@[q] as int]
                                == cc_id,
                        forall|j: int| 0 <= j < k ==> x@[#[trigger] nbrs@[u as int]@[j] as int] == cc_id,
                        forall|w: int|
                            0 <= w < n && x@[w] != UNVISITED && !stack@.contains(w as usize) && w
                                != u ==> #[trigger] closed_at(x@, nbrs@, w),
                    decreases nbrs@[u as int]@.len() - k,
                {
                    let v = nbrs[u][k];
                    proof {
                        assert(v < n && adjacent(g, u as int, v as int));
                    }
                    if x[v] == UNVISITED {
                        let ghost x1 = x@;
                        let ghost s1 = stack@;
                        proof {
                            lemma_label_one(x1, v as int, cc_id);
                            lemma_connected_step(g, start as int, u as int, v as int);
                        }
                        x.set(v, cc_id);
                        stack.push(v);
                        proof {
                            assert forall|w: int|
                                0 <= w < n && x@[w] != UNVISITED && !stack@.contains(w as usize)
                                    && w != u implies #[trigger] closed_at(x@, nbrs@, w) by {
                                assert(stack@.last() == v);
                                assert(w != v);
                                if s1.contains(w as usize) {
                                    let q = choose|q: int| 0 <= q < s1.len() && s1[q] == w as usize;
                                    assert(stack@[q] == w as usize);
                                }
                                assert(closed_at(x1, nbrs@, w));
                                assert forall|j: int| 0 <= j < nbrs@[w]@.len() implies x@[
                                    #[trigger] nbrs@[w]@[j] as int] == x@[w] by {
                                    assert(x1[nbrs@[w]@[j] as int] == x1[w]);
                                }
                            }
                            assert forall|q: int|
                                0 <= q < stack@.len() implies #[trigger] stack@[q] < n
                                && x@[stack@[q] as int] == cc_id by {
                                if q < s1.len() {
                                    assert(stack@[q] == s1[q]);
                                }
                            }
                        }
                    } else {
                        proof {
                            if x@[v as int] != cc_id {
                                assert(v != u);
                                if stack@.contains(v) {
                                    let q = choose|q: int| 0 <= q < stack@.len() && stack@[q] == v;
                                    assert(x@[stack@[q] as int] == cc_id);
                                }
                                assert(closed_at(x@, nbrs@, v as int));
                                lemma_adjacent_symmetric(g, u as int, v as int);
                                lemma_adjacent_listed(g, nbrs@, n as int, v as int, u as int);
                                let j = choose|j: int|
                                    0 <= j < nbrs@[v as int]@.len() && nbrs@[v as int]@[j] == u;
                                assert(x@[nbrs@[v as int]@[j] as int] == x@[v as int]);
                            }
                        }
                    }
                    k = k + 1;
                }
            }
            proof {
                assert forall|w: int| 0 <= w < start + 1 implies #[trigger] x@[w] != UNVISITED by {
                    if w < start {
                        assert(x0[w] != UNVISITED);
                    }
                }
                assert forall|w: int|
                    0 <= w < start + 1 && #[trigger] is_root(g, w) implies x@[w] == count_roots(g, w) by {
                    if w < start {
                        assert(x0[w] != UNVISITED);
                    }
                }
            }
            cc_id = cc_id + 1;
        } else {
            proof {
                let l = x@[start as int] as int;
                assert(connected(g, roots[l], start as int));
                assert(!is_root(g, start as int));
            }
        }
        start = start + 1;
    }
    proof {
        assert forall|i: int, j: int| 0 <= i < n && 0 <= j < n implies (x@[i] == x@[j] <==> connected(g, i, j)) by {
            if x@[i] == x@[j] {
                let rt = roots[x@[i] as int];
                lemma_connected_symmetric(g, rt, i);
                lemma_connected_transitive(g, i, rt, j);
            }
            if connected(g, i, j) {
                lemma_closed_spreads(g, nbrs@, x@, n as int, i, j);
            }
        }
        assert forall|e: int| 0 <= e < g.len() implies x@[(#[trigger] g[e]).0 as int] == x@[g[e].1 as int] by {
            let a = g[e].0 as int;
            let b = g[e].1 as int;
            assert(joins(g[e], a, b));
            lemma_connected_reflexive(g, a);
            lemma_connected_step(g, a, a, b);
            lemma_closed_spreads(g, nbrs@, x@, n as int, a, b);
        }
    }
    x
}

/// Labels the vertices as `dfs` does, after checking that every edge names
/// vertices below `num_vertices`. Where one does not, nothing is labeled and
/// the first such edge is reported, with its first vertex out of range.
pub fn dfs_checked<K>(num_vertices: usize, edges: &[(usize, usize, K, usize)]) -> (r: Result<
    Vec<isize>,
    LabelError,
>)
    requires
        num_vertices <= isize::MAX,
    ensures
        r is Ok <==> edges_in_range(edges@, num_vertices as int),
        r matches Ok(x) ==> labels_components(edges@, num_vertices as int, x@),
        r matches Ok(x) ==> forall|e: int|
            0 <= e < edges@.len() ==> x@[(#[trigger] edges@[e]).0 as int] == x@[edges@[e].1 as int],
        r matches Err(LabelError::IndexOutOfRange { edge, vertex }) ==> {
            &&& edge < edges@.len()
            &&& edges_in_range(edges@.subrange(0, edge as int), num_vertices as int)
            &&& vertex == if edges@[edge as int].0 >= num_vertices {
                edges@[edge as int].0
            } else {
                edges@[edge as int].1
            }
            &&& vertex >= num_vertices
        },
{
    let mut e: usize = 0;
    while e < edges.len()
        invariant
            e <= edges@.len(),
            edges_in_range(edges@.subrange(0, e as int), num_vertices as int),
        decreases edges@.len() - e,
    {
        let u = edges[e].0;
        let v = edges[e].1;
        if u >= num_vertices {
            return Err(LabelError::IndexOutOfRange { edge: e, vertex: u });
        }
        if v >= num_vertices {
            return Err(LabelError::IndexOutOfRange { edge: e, vertex: v });
        }
        proof {
            let s = edges@.subrange(0, e as int);
            let t = edges@.subrange(0, e + 1);
            assert forall|q: int| 0 <= q < t.len() implies (#[trigger] t[q]).0 < num_vertices
                && t[q].1 < num_vertices by {
                if q < e {
                    assert(t[q] == s[q]);
                }
            }
        }
        e = e + 1;
    }
    assert(edges@.subrange(0, edges@.len() as int) =~= edges@);
    Ok(dfs(num_vertices, edges))
}

} // verus!
