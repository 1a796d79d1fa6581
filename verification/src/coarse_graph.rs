//! Which coarse vertices the coarse graph joins. Every fine edge `{u, v}`
//! joins each coarse vertex of the row of `u` to each distinct coarse vertex
//! of the row of `v`; the weights of those edges are sums of floating-point
//! products and are left to the caller.

use vstd::prelude::*;
use crate::graph::Graph;

verus! {

/// The coarse pairs `(a, b)`, `a < b`, with one end in `r1` and the other in
/// `r2`.
pub open spec fn cross(r1: Seq<usize>, r2: Seq<usize>) -> Set<(usize, usize)> {
    Set::new(
        |p: (usize, usize)|
            p.0 < p.1 && ((r1.contains(p.0) && r2.contains(p.1)) || (r1.contains(p.1) && r2.contains(p.0))),
    )
}

/// Entry `k` of the list of `u` is an edge that the coarse graph is built
/// from: it leads to a vertex `v >= u`, so each undirected edge of a
/// symmetric graph is taken once.
pub open spec fn forward_entry(g: &Graph, u: int, k: int) -> bool {
    0 <= u < g.num_nodes() && 0 <= k < g.adj(u).len() && u <= g.adj(u)[k].target
}

/// The pairs contributed by the forward entries before entry `k` of the list
/// of `u` (in the order of vertices, then of list positions).
pub open spec fn pairs_before(g: &Graph, rows: Seq<Vec<usize>>, u: int, k: int) -> Set<(usize, usize)> {
    Set::new(
        |p: (usize, usize)|
            exists|u2: int, k2: int|
                (u2 < u || (u2 == u && k2 < k)) && #[trigger] forward_entry(g, u2, k2) && entry_cross(g, rows, u2, k2).contains(p),
    )
}

/// The pairs contributed by entry `k` of the list of `u`.
pub open spec fn entry_cross(g: &Graph, rows: Seq<Vec<usize>>, u: int, k: int) -> Set<(usize, usize)> {
    cross(rows[u]@, rows[g.adj(u)[k].target as int]@)
}

/// `(a, b)` is an edge of the coarse graph: a forward entry from `u` to `v`
/// has `a` in the row of one end and `b` in the row of the other, `a < b`.
pub open spec fn coarse_edge(g: &Graph, rows: Seq<Vec<usize>>, a: usize, b: usize) -> bool {
    pairs_before(g, rows, g.num_nodes() as int, 0).contains((a, b))
}

/// `edges` lists pairs `a < b < count` without repetition, and `seen[a]`
/// holds exactly the `b` listed with `a`.
pub open spec fn pair_list(seen: Seq<Vec<usize>>, edges: Seq<(usize, usize)>, count: nat) -> bool {
    &&& seen.len() == count
    &&& forall|i: int| 0 <= i < edges.len() ==> (#[trigger] edges[i]).0 < edges[i].1 < count
    &&& edges.no_duplicates()
    &&& forall|a: usize, b: usize| a < count ==> (#[trigger] seen[a as int]@.contains(b) <==> edges.contains((a, b)))
}

/// `x` and `y` as a pair, smaller first.
pub open spec fn ordered_pair(x: usize, y: usize) -> (usize, usize) {
    if x < y {
        (x, y)
    } else {
        (y, x)
    }
}

proof fn lemma_contains_push<T>(s: Seq<T>, y: T, z: T)
    ensures
        s.push(y).contains(z) <==> (s.contains(z) || z == y),
{
    if s.push(y).contains(z) && z != y {
        let k = choose|k: int| 0 <= k < s.push(y).len() && s.push(y)[k] == z;
        assert(s[k] == z);
    }
    if s.contains(z) {
        let k = choose|k: int| 0 <= k < s.len() && s[k] == z;
        assert(s.push(y)[k] == z);
    }
    if z == y {
        assert(s.push(y)[s.len() as int] == z);
    }
}

proof fn lemma_cross_push_right(x: usize, t: Seq<usize>, y: usize)
    ensures
        cross(seq![x], t.push(y)) == cross(seq![x], t) + if x == y {
            Set::empty()
        } else {
            set![ordered_pair(x, y)]
        },
{
    assert(seq![x].contains(x)) by {
        assert(seq![x][0] == x);
    }
    assert forall|z: usize| seq![x].contains(z) ==> z == x by {
        if seq![x].contains(z) {
            let k = choose|k: int| 0 <= k < 1 && seq![x][k] == z;
        }
    }
    assert forall|p: (usize, usize)| #[trigger] cross(seq![x], t.push(y)).contains(p) <==> (cross(seq![x], t) + if x == y {
        Set::empty()
    } else {
        set![ordered_pair(x, y)]
    }).contains(p) by {
        lemma_contains_push(t, y, p.0);
        lemma_contains_push(t, y, p.1);
    }
    assert(cross(seq![x], t.push(y)) =~= cross(seq![x], t) + if x == y {
        Set::empty()
    } else {
        set![ordered_pair(x, y)]
    });
}

proof fn lemma_cross_push_left(t: Seq<usize>, x: usize, r: Seq<usize>)
    ensures
        cross(t.push(x), r) == cross(t, r) + cross(seq![x], r),
{
    assert(seq![x].contains(x)) by {
        assert(seq![x][0] == x);
    }
    assert forall|z: usize| seq![x].contains(z) ==> z == x by {
        if seq![x].contains(z) {
            let k = choose|k: int| 0 <= k < 1 && seq![x][k] == z;
        }
    }
    assert forall|p: (usize, usize)| #[trigger] cross(t.push(x), r).contains(p) <==> (cross(t, r) + cross(seq![x], r)).contains(p) by {
        lemma_contains_push(t, x, p.0);
        lemma_contains_push(t, x, p.1);
    }
    assert(cross(t.push(x), r) =~= cross(t, r) + cross(seq![x], r));
}

proof fn lemma_to_set_push<T>(s: Seq<T>, y: T)
    ensures
        s.push(y).to_set() == s.to_set().insert(y),
{
    assert forall|z: T| #[trigger] s.push(y).to_set().contains(z) <==> s.to_set().insert(y).contains(z) by {
        lemma_contains_push(s, y, z);
    }
    assert(s.push(y).to_set() =~= s.to_set().insert(y));
}

/// Whether `list` holds `x`.
fn holds(list: &Vec<usize>, x: usize) -> (b: bool)
    ensures
        b == list@.contains(x),
{
    let mut i: usize = 0;
    while i < list.len()
        invariant
            i <= list@.len(),
            forall|j: int| 0 <= j < i ==> list@[j] != x,
        decreases list@.len() - i,
    {
        if list[i] == x {
            return true;
        }
        i += 1;
    }
    false
}

/// Records the pair of `x` and `y`, unless they are equal or it is already
/// listed.
fn add_pair(seen: &mut Vec<Vec<usize>>, edges: &mut Vec<(usize, usize)>, x: usize, y: usize, Ghost(count): Ghost<nat>)
    requires
        pair_list(old(seen)@, old(edges)@, count),
        x < count,
        y < count,
    ensures
        pair_list(final(seen)@, final(edges)@, count),
        final(edges)@.to_set() == old(edges)@.to_set() + if x == y {
            Set::empty()
        } else {
            set![ordered_pair(x, y)]
        },
{
    if x == y {
        proof {
            assert(edges@.to_set() + Set::empty() =~= edges@.to_set());
        }
        return;
    }
    let (a, b) = if x < y {
        (x, y)
    } else {
        (y, x)
    };
    if holds(&seen[a], b) {
        proof {
            assert(edges@.contains((a, b)));
            assert(edges@.to_set() + set![(a, b)] =~= edges@.to_set());
        }
        return;
    }
    let ghost s0 = seen@;
    let ghost e0 = edges@;
    seen[a].push(b);
    edges.push((a, b));
    proof {
        assert(!e0.contains((a, b)));
        assert forall|c: usize, d: usize| c < count implies (#[trigger] seen@[c as int]@.contains(d) <==> edges@.contains(
            (c, d),
        )) by {
            if c == a {
                assert(seen@[c as int]@ == s0[c as int]@.push(b));
                if seen@[c as int]@.contains(d) && d != b {
                    let i = choose|i: int| 0 <= i < seen@[c as int]@.len() && seen@[c as int]@[i] == d;
                    assert(s0[c as int]@[i] == d);
                }
                if s0[c as int]@.contains(d) {
                    let i = choose|i: int| 0 <= i < s0[c as int]@.len() && s0[c as int]@[i] == d;
                    assert(seen@[c as int]@[i] == d);
                }
                if edges@.contains((c, d)) && d != b {
                    let i = choose|i: int| 0 <= i < edges@.len() && edges@[i] == (c, d);
                    assert(e0[i] == (c, d));
                }
                if e0.contains((c, d)) {
                    let i = choose|i: int| 0 <= i < e0.len() && e0[i] == (c, d);
                    assert(edges@[i] == (c, d));
                }
                if d == b {
                    assert(seen@[c as int]@[s0[c as int]@.len() as int] == b);
                    assert(edges@[e0.len() as int] == (a, b));
                }
            } else {
                assert(seen@[c as int] == s0[c as int]);
                if edges@.contains((c, d)) {
                    let i = choose|i: int| 0 <= i < edges@.len() && edges@[i] == (c, d);
                    assert(i < e0.len());
                    assert(e0[i] == (c, d));
                }
                if e0.contains((c, d)) {
                    let i = choose|i: int| 0 <= i < e0.len() && e0[i] == (c, d);
                    assert(edges@[i] == (c, d));
                }
            }
        }
        assert(edges@ == e0.push((a, b)));
        lemma_to_set_push(e0, (a, b));
        assert(e0.to_set().insert((a, b)) =~= e0.to_set() + set![(a, b)]);
    }
}

/// Records every pair with one end in `r1` and the other in `r2`.
fn add_cross(
    seen: &mut Vec<Vec<usize>>,
    edges: &mut Vec<(usize, usize)>,
    r1: &Vec<usize>,
    r2: &Vec<usize>,
    Ghost(count): Ghost<nat>,
)
    requires
        pair_list(old(seen)@, old(edges)@, count),
        forall|i: int| 0 <= i < r1@.len() ==> #[trigger] r1@[i] < count,
        forall|i: int| 0 <= i < r2@.len() ==> #[trigger] r2@[i] < count,
    ensures
        pair_list(final(seen)@, final(edges)@, count),
        final(edges)@.to_set() == old(edges)@.to_set() + cross(r1@, r2@),
{
    let ghost e0 = edges@.to_set();
    let mut i: usize = 0;
    while i < r1.len()
        invariant
            i <= r1@.len(),
            pair_list(seen@, edges@, count),
            forall|i: int| 0 <= i < r1@.len() ==> #[trigger] r1@[i] < count,
            forall|i: int| 0 <= i < r2@.len() ==> #[trigger] r2@[i] < count,
            edges@.to_set() == e0 + cross(r1@.take(i as int), r2@),
        decreases r1@.len() - i,
    {
        let mut j: usize = 0;
        while j < r2.len()
            invariant
                i < r1@.len(),
                j <= r2@.len(),
                pair_list(seen@, edges@, count),
                forall|i: int| 0 <= i < r1@.len() ==> #[trigger] r1@[i] < count,
                forall|i: int| 0 <= i < r2@.len() ==> #[trigger] r2@[i] < count,
                edges@.to_set() == e0 + cross(r1@.take(i as int), r2@) + cross(seq![r1@[i as int]], r2@.take(j as int)),
            decreases r2@.len() - j,
        {
            let ghost before = edges@.to_set();
            add_pair(seen, edges, r1[i], r2[j], Ghost(count));
            proof {
                let x = r1@[i as int];
                let y = r2@[j as int];
                assert(r2@.take(j + 1) == r2@.take(j as int).push(y));
                lemma_cross_push_right(x, r2@.take(j as int), y);
                assert(edges@.to_set() =~= e0 + cross(r1@.take(i as int), r2@) + cross(
                    seq![r1@[i as int]],
                    r2@.take(j + 1),
                ));
            }
            j += 1;
        }
        proof {
            let x = r1@[i as int];
            assert(r2@.take(r2@.len() as int) == r2@);
            assert(r1@.take(i + 1) == r1@.take(i as int).push(x));
            lemma_cross_push_left(r1@.take(i as int), x, r2@);
            assert(edges@.to_set() =~= e0 + cross(r1@.take(i + 1), r2@));
        }
        i += 1;
    }
    proof {
        assert(r1@.take(r1@.len() as int) == r1@);
    }
}

proof fn lemma_pairs_step(g: &Graph, rows: Seq<Vec<usize>>, u: int, k: int)
    ensures
        pairs_before(g, rows, u, k + 1) == pairs_before(g, rows, u, k) + if forward_entry(g, u, k) {
            entry_cross(g, rows, u, k)
        } else {
            Set::empty()
        },
{
    let add = if forward_entry(g, u, k) {
        entry_cross(g, rows, u, k)
    } else {
        Set::empty()
    };
    assert forall|p: (usize, usize)| #[trigger] pairs_before(g, rows, u, k + 1).contains(p) <==> (pairs_before(g, rows, u, k) + add).contains(p) by {
        if pairs_before(g, rows, u, k + 1).contains(p) {
            let (u2, k2) = choose|u2: int, k2: int|
                (u2 < u || (u2 == u && k2 < k + 1)) && #[trigger] forward_entry(g, u2, k2) && entry_cross(g, rows, u2, k2).contains(p);
            if !(u2 == u && k2 == k) {
                assert(pairs_before(g, rows, u, k).contains(p));
            }
        }
        if pairs_before(g, rows, u, k).contains(p) {
            let (u2, k2) = choose|u2: int, k2: int|
                (u2 < u || (u2 == u && k2 < k)) && #[trigger] forward_entry(g, u2, k2) && entry_cross(g, rows, u2, k2).contains(p);
            assert(pairs_before(g, rows, u, k + 1).contains(p));
        }
        if add.contains(p) {
            assert(forward_entry(g, u, k));
            assert(pairs_before(g, rows, u, k + 1).contains(p));
        }
    }
    assert(pairs_before(g, rows, u, k + 1) =~= pairs_before(g, rows, u, k) + add);
}

proof fn lemma_pairs_next_vertex(g: &Graph, rows: Seq<Vec<usize>>, u: int)
    ensures
        pairs_before(g, rows, u + 1, 0) == pairs_before(g, rows, u, g.adj(u).len() as int),
{
    assert forall|p: (usize, usize)| #[trigger] pairs_before(g, rows, u + 1, 0).contains(p) <==> pairs_before(g, rows, u, g.adj(u).len() as int).contains(p) by {
        if pairs_before(g, rows, u + 1, 0).contains(p) {
            let (u2, k2) = choose|u2: int, k2: int|
                (u2 < u + 1 || (u2 == u + 1 && k2 < 0)) && #[trigger] forward_entry(g, u2, k2) && entry_cross(g, rows, u2, k2).contains(p);
            assert(pairs_before(g, rows, u, g.adj(u).len() as int).contains(p));
        }
        if pairs_before(g, rows, u, g.adj(u).len() as int).contains(p) {
            let (u2, k2) = choose|u2: int, k2: int|
                (u2 < u || (u2 == u && k2 < g.adj(u).len())) && #[trigger] forward_entry(g, u2, k2) && entry_cross(g, rows, u2, k2).contains(p);
            assert(pairs_before(g, rows, u + 1, 0).contains(p));
        }
    }
    assert(pairs_before(g, rows, u + 1, 0) =~= pairs_before(g, rows, u, g.adj(u).len() as int));
}

/// The edges of the coarse graph, each once, as pairs `a < b`: for every
/// fine vertex `u` and every vertex `v >= u` that it lists, each coarse
/// vertex of the row of `u` is joined to each distinct coarse vertex of the
/// row of `v`.
pub fn coarse_edges(graph: &Graph, coarse_count: usize, rows: &Vec<Vec<usize>>) -> (edges: Vec<(usize, usize)>)
    requires
        graph.targets_in_range(),
        rows@.len() == graph.num_nodes(),
        forall|f: int, i: int| 0 <= f < rows@.len() && 0 <= i < rows@[f]@.len() ==> #[trigger] rows@[f]@[i] < coarse_count,
    ensures
        forall|i: int| 0 <= i < edges@.len() ==> (#[trigger] edges@[i]).0 < edges@[i].1 < coarse_count,
        edges@.no_duplicates(),
        forall|a: usize, b: usize| #[trigger] edges@.contains((a, b)) <==> coarse_edge(graph, rows@, a, b),
{
    let ghost count = coarse_count as nat;
    let n = graph.node_count();
    let mut seen = crate::coarsen::empty_rows(coarse_count);
    let mut edges: Vec<(usize, usize)> = Vec::new();
    proof {
        assert(edges@.to_set() =~= pairs_before(graph, rows@, 0, 0));
    }
    let mut u: usize = 0;
    while u < n
        invariant
            n == graph.num_nodes(),
            u <= n,
            graph.targets_in_range(),
            rows@.len() == n,
            forall|f: int, i: int| 0 <= f < rows@.len() && 0 <= i < rows@[f]@.len() ==> #[trigger] rows@[f]@[i] < coarse_count,
            pair_list(seen@, edges@, count),
            count == coarse_count,
            edges@.to_set() == pairs_before(graph, rows@, u as int, 0),
        decreases n - u,
    {
        let deg = graph.nodes[u].neighbors.len();
        let mut k: usize = 0;
        while k < deg
            invariant
                n == graph.num_nodes(),
                u < n,
                deg == graph.adj(u as int).len(),
                k <= deg,
                graph.targets_in_range(),
                rows@.len() == n,
                forall|f: int, i: int| 0 <= f < rows@.len() && 0 <= i < rows@[f]@.len() ==> #[trigger] rows@[f]@[i] < coarse_count,
                pair_list(seen@, edges@, count),
                count == coarse_count,
                edges@.to_set() == pairs_before(graph, rows@, u as int, k as int),
            decreases deg - k,
        {
            let v = graph.nodes[u].neighbors[k].target;
            assert(graph.adj(u as int)[k as int].target == v);
            if u <= v {
                add_cross(&mut seen, &mut edges, &rows[u], &rows[v], Ghost(count));
            }
            proof {
                lemma_pairs_step(graph, rows@, u as int, k as int);
                assert(edges@.to_set() =~= pairs_before(graph, rows@, u as int, k + 1));
            }
            k += 1;
        }
        proof {
            lemma_pairs_next_vertex(graph, rows@, u as int);
        }
        u += 1;
    }
    proof {
        assert forall|a: usize, b: usize| #[trigger] edges@.contains((a, b)) <==> coarse_edge(graph, rows@, a, b) by {
            assert(edges@.contains((a, b)) <==> edges@.to_set().contains((a, b)));
        }
    }
    edges
}

} // verus!
