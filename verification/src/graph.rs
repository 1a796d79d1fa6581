use vstd::prelude::*;
use std::collections::VecDeque;
use crate::search::{bfs_farthest_spec, bfs_scan, bfs_state, deepest_first, expand_vertex, lemma_scan};
use crate::search::{lemma_bfs_farthest_spec, lemma_deepest_prefix, lemma_order_complete, lemma_state_inv};

verus! {

/// Order key of the weight `1.0`, the weight every vertex starts with.
pub const UNIT_WEIGHT_KEY: u64 = 0xBFF0_0000_0000_0000;

#[verifier::external_type_specification]
#[verifier::external_body]
pub struct ExIoError(std::io::Error);

/// Why a graph could not be read.
#[derive(Debug)]
pub enum GraphError {
    /// Reading the input failed.
    Io(std::io::Error),
    /// The input is not a valid edge list; the message says why and where.
    Parse(String),
}

/// One entry of an adjacency list: the vertex at the other end and the
/// order key of the edge weight.
#[derive(Clone, Copy, Debug)]
pub struct Neighbor {
    pub target: usize,
    pub weight: u64,
}

/// A vertex: its weight key and its adjacency list.
#[derive(Clone, Debug)]
pub struct Node {
    pub weight: u64,
    pub neighbors: Vec<Neighbor>,
}

/// An undirected graph stored as adjacency lists.
#[derive(Clone, Debug)]
pub struct Graph {
    pub nodes: Vec<Node>,
}

impl Graph {
    pub open spec fn num_nodes(&self) -> nat {
        self.nodes@.len()
    }

    pub open spec fn adj(&self, u: int) -> Seq<Neighbor> {
        self.nodes@[u].neighbors@
    }

    /// Whether `v` occurs in the adjacency list of `u`.
    pub open spec fn lists(&self, u: int, v: int) -> bool {
        lists_target(self.adj(u), v)
    }

    /// No vertex lists itself.
    pub open spec fn no_self_loops(&self) -> bool {
        forall|u: int, k: int|
            0 <= u < self.num_nodes() && 0 <= k < self.adj(u).len() ==> #[trigger] self.adj(u)[k].target
                != u
    }

    /// No adjacency list names the same vertex twice.
    pub open spec fn no_duplicates(&self) -> bool {
        forall|u: int, k1: int, k2: int|
            0 <= u < self.num_nodes() && 0 <= k1 < self.adj(u).len() && 0 <= k2 < self.adj(u).len()
                && k1 != k2 ==> #[trigger] self.adj(u)[k1].target != #[trigger] self.adj(u)[k2].target
    }

    /// Every entry `u -> v` with weight `w` is mirrored by an entry `v -> u`
    /// with the same weight.
    pub open spec fn symmetric(&self) -> bool {
        forall|u: int, k: int|
            0 <= u < self.num_nodes() && 0 <= k < self.adj(u).len() ==> has_entry(
                self.adj(#[trigger] self.adj(u)[k].target as int),
                u,
                self.adj(u)[k].weight,
            )
    }

    /// The invariant that `new` establishes and `add_edge` keeps: a simple
    /// undirected graph.
    pub open spec fn wf(&self) -> bool {
        &&& self.targets_in_range()
        &&& self.no_self_loops()
        &&& self.no_duplicates()
        &&& self.symmetric()
    }

    /// Every adjacency entry names a vertex of the graph.
    pub open spec fn targets_in_range(&self) -> bool {
        forall|u: int, k: int|
            0 <= u < self.num_nodes() && 0 <= k < self.adj(u).len() ==> #[trigger] self.adj(u)[k].target
                < self.num_nodes()
    }

    /// `p` is a walk: a nonempty sequence of vertices, each listed by the one
    /// before it.
    pub open spec fn is_walk(&self, p: Seq<int>) -> bool {
        &&& p.len() >= 1
        &&& forall|i: int| 0 <= i < p.len() ==> 0 <= #[trigger] p[i] < self.num_nodes()
        &&& forall|i: int| 0 <= i < p.len() - 1 ==> #[trigger] self.lists(p[i], p[i + 1])
    }

    /// There is a walk of at most `k` edges from `s` to `t`.
    pub open spec fn reach(&self, s: int, t: int, k: nat) -> bool {
        exists|p: Seq<int>|
            #[trigger] self.is_walk(p) && p.len() <= k + 1 && p[0] == s && p.last() == t
    }

    /// The shortest walk from `s` to `t` has exactly `d` edges.
    pub open spec fn is_dist(&self, s: int, t: int, d: nat) -> bool {
        &&& self.reach(s, t, d)
        &&& (d == 0 || !self.reach(s, t, (d - 1) as nat))
    }

    /// `d` is the largest distance from `s` to a vertex reachable from `s`,
    /// and `t` is a vertex at that distance.
    #[verifier::opaque]
    pub open spec fn is_farthest(&self, s: int, t: int, d: nat) -> bool {
        &&& 0 <= t < self.num_nodes()
        &&& self.is_dist(s, t, d)
        &&& forall|x: int, k: nat|
            0 <= x < self.num_nodes() && #[trigger] self.reach(s, x, k) ==> self.reach(s, x, d)
    }

    /// A lower estimate of the diameter by repeated breadth-first sweeps:
    /// start at vertex 0, move to the farthest vertex found while that
    /// increases the eccentricity, and return the last eccentricity that grew.
    pub fn approximate_diameter(&self) -> (r: usize)
        requires
            self.targets_in_range(),
        ensures
            self.num_nodes() <= 1 ==> r == 0,
            self.num_nodes() > 1 ==> r == sweep_from(self, 0, 0),
    {
        let n = self.node_count();
        if n <= 1 {
            return 0;
        }
        let mut start: usize = 0;
        let mut best: usize = 0;
        loop
            invariant
                n == self.num_nodes(),
                n > 1,
                self.targets_in_range(),
                start < n,
                best < n,
                sweep_from(self, start, best as nat) == sweep_from(self, 0, 0),
            decreases n - best,
        {
            let (target, dist) = self.bfs_farthest(start);
            if dist <= best {
                return best;
            }
            start = target;
            best = dist;
        }
    }

    pub fn new(node_count: usize) -> (g: Graph)
        ensures
            g.num_nodes() == node_count,
            g.wf(),
            forall|u: int|
                0 <= u < node_count ==> (#[trigger] g.nodes@[u]).weight == UNIT_WEIGHT_KEY
                    && g.nodes@[u].neighbors@.len() == 0,
    {
        let mut nodes: Vec<Node> = Vec::new();
        let mut i: usize = 0;
        while i < node_count
            invariant
                i <= node_count,
                nodes@.len() == i,
                forall|u: int|
                    0 <= u < i ==> (#[trigger] nodes@[u]).weight == UNIT_WEIGHT_KEY
                        && nodes@[u].neighbors@.len() == 0,
            decreases node_count - i,
        {
            nodes.push(Node { weight: UNIT_WEIGHT_KEY, neighbors: Vec::new() });
            i += 1;
        }
        Graph { nodes }
    }

    /// Breadth-first search from `start`: returns the first vertex found at
    /// the greatest distance, and that distance.
    fn bfs_farthest(&self, start: usize) -> (res: (usize, usize))
        requires
            self.targets_in_range(),
            start < self.num_nodes(),
        ensures
            res == bfs_farthest_spec(self, start),
            self.is_farthest(start as int, res.0 as int, res.1 as nat),
            res.0 < self.num_nodes(),
            res.1 < self.num_nodes(),
    {
        let n = self.nodes.len();
        let mut visited: Vec<bool> = all_false(n);
        visited.set(start, true);
        let mut queue: VecDeque<(usize, usize)> = VecDeque::new();
        queue.push_back((start, 0));
        let mut farthest: (usize, usize) = (start, 0);
        let ghost mut gq: Seq<(usize, usize)> = seq![(start, 0usize)];
        let ghost mut head: nat = 0;
        proof {
            assert(visited@ =~= bfs_state(self, start, 0).0);
            assert(queue@ =~= gq.subrange(0, 1));
        }
        loop
            invariant
                n == self.num_nodes(),
                self.targets_in_range(),
                start < n,
                head <= gq.len(),
                (visited@, gq) == bfs_state(self, start, head),
                queue@ == gq.subrange(head as int, gq.len() as int),
                farthest == deepest_first(gq, head),
            ensures
                head == gq.len(),
                (visited@, gq) == bfs_state(self, start, head),
                farthest == deepest_first(gq, head),
            decreases n - head,
        {
            proof {
                lemma_state_inv(self, start, head);
                lemma_count_true_le(visited@);
            }
            let front = queue.pop_front();
            match front {
                None => {
                    break;
                },
                Some((node, dist)) => {
                    assert(gq[head as int] == (node, dist));
                    assert(queue@ =~= gq.subrange(head + 1 as int, gq.len() as int));
                    if dist > farthest.1 {
                        farthest = (node, dist);
                    }
                    let ghost q0 = gq;
                    expand_vertex(self, node, dist, &mut visited, &mut queue, Ghost(start as int), Ghost(head as int), Ghost(gq));
                    proof {
                        let deg = self.adj(node as int).len();
                        lemma_scan(self, start as int, bfs_state(self, start, head).0, q0, head as int, deg);
                        gq = bfs_scan(self, bfs_state(self, start, head).0, q0, node as int, dist, deg).1;
                        lemma_deepest_prefix(q0, gq, head + 1);
                        head = head + 1;
                    }
                },
            }
        }
        proof {
            lemma_order_complete(self, start, head);
            lemma_bfs_farthest_spec(self, start);
        }
        farthest
    }

    /// Half the total length of the adjacency lists: in a simple undirected
    /// graph, the number of edges.
    pub fn edge_count(&self) -> (c: usize)
        requires
            degree_sum(self.nodes@) <= usize::MAX,
        ensures
            c == degree_sum(self.nodes@) / 2,
            self.wf() ==> c == edge_set(self).len(),
    {
        proof {
            if self.wf() {
                lemma_degree_sum_counts_edges(self);
            }
        }
        let mut total: usize = 0;
        let mut i: usize = 0;
        while i < self.nodes.len()
            invariant
                i <= self.nodes@.len(),
                total == degree_sum(self.nodes@.take(i as int)),
                degree_sum(self.nodes@) <= usize::MAX,
            decreases self.nodes@.len() - i,
        {
            proof {
                assert(self.nodes@.take(i + 1).drop_last() =~= self.nodes@.take(i as int));
                lemma_degree_sum_prefix(self.nodes@, i + 1);
            }
            total = total + self.nodes[i].neighbors.len();
            i += 1;
        }
        assert(self.nodes@.take(i as int) =~= self.nodes@);
        total / 2
    }

    /// Adds the undirected edge `{u, v}` with weight key `weight`: each end
    /// gets an entry for the other unless it already has one. A loop
    /// (`u == v`) is ignored.
    pub fn add_edge(&mut self, u: usize, v: usize, weight: u64)
        requires
            u < old(self).num_nodes(),
            v < old(self).num_nodes(),
        ensures
            edge_added(*old(self), *final(self), u, v, weight),
            old(self).wf() ==> final(self).wf(),
            old(self).wf() && u != v ==> degree_sum(final(self).nodes@) == degree_sum(old(self).nodes@)
                + if old(self).lists(u as int, v as int) {
                0nat
            } else {
                2nat
            },
    {
        if u == v {
            return;
        }
        let ghost g0 = *self;
        if !contains_target(&self.nodes[u].neighbors, v) {
            self.nodes[u].neighbors.push(Neighbor { target: v, weight });
        }
        let ghost g1 = *self;
        if !contains_target(&self.nodes[v].neighbors, u) {
            self.nodes[v].neighbors.push(Neighbor { target: u, weight });
        }
        proof {
            if g0.wf() {
                lemma_symmetric_lists(g0, u as int, v as int);
            }
            lemma_degree_sum_update(g0.nodes@, u as int, g1.nodes@[u as int]);
            assert(g1.nodes@ =~= g0.nodes@.update(u as int, g1.nodes@[u as int]));
            lemma_degree_sum_update(g1.nodes@, v as int, self.nodes@[v as int]);
            assert(self.nodes@ =~= g1.nodes@.update(v as int, self.nodes@[v as int]));
            if g0.wf() {
                lemma_add_edge_wf(g0, *self, u, v, weight);
            }
        }
    }

    pub fn neighbors(&self, node: usize) -> (r: &Vec<Neighbor>)
        requires
            node < self.num_nodes(),
        ensures
            r@ == self.adj(node as int),
    {
        &self.nodes[node].neighbors
    }

    pub fn node_weight(&self, node: usize) -> (w: u64)
        requires
            node < self.num_nodes(),
        ensures
            w == self.nodes@[node as int].weight,
    {
        self.nodes[node].weight
    }

    pub fn set_node_weight(&mut self, node: usize, weight: u64)
        requires
            node < old(self).num_nodes(),
        ensures
            final(self).num_nodes() == old(self).num_nodes(),
            final(self).nodes@[node as int].weight == weight,
            final(self).adj(node as int) == old(self).adj(node as int),
            forall|x: int|
                0 <= x < old(self).num_nodes() && x != node ==> #[trigger] final(self).nodes@[x] == old(
                    self,
                ).nodes@[x],
            old(self).wf() ==> final(self).wf(),
    {
        self.nodes[node].weight = weight;
        proof {
            assert forall|x: int| 0 <= x < self.num_nodes() implies #[trigger] self.adj(x) == old(self).adj(x) by {
                if x != node {
                    assert(self.nodes@[x] == old(self).nodes@[x]);
                }
            }
        }
    }

    pub fn node_count(&self) -> (n: usize)
        ensures
            n == self.num_nodes(),
    {
        self.nodes.len()
    }
}

/// A vector of `n` times `false`.
pub fn all_false(n: usize) -> (v: Vec<bool>)
    ensures
        v@.len() == n,
        forall|i: int| 0 <= i < n ==> !#[trigger] v@[i],
{
    let mut v: Vec<bool> = Vec::new();
    let mut i: usize = 0;
    while i < n
        invariant
            i <= n,
            v@.len() == i,
            forall|j: int| 0 <= j < i ==> !#[trigger] v@[j],
        decreases n - i,
    {
        v.push(false);
        i += 1;
    }
    v
}

/// The estimate that the sweeps reach from `start` when the last
/// eccentricity that grew is `best`: search from `start`; stop with `best`
/// when the farthest vertex is no farther than `best`, else go on from it.
/// (A search never goes as deep as the vertex count; that bound only makes
/// the recursion well founded.)
pub open spec fn sweep_from(g: &Graph, start: usize, best: nat) -> nat
    decreases g.num_nodes() - best,
{
    let f = bfs_farthest_spec(g, start);
    if f.1 <= best || f.1 >= g.num_nodes() {
        best
    } else {
        sweep_from(g, f.0, f.1 as nat)
    }
}

proof fn lemma_sweep_from(g: &Graph, start: usize, best: nat)
    requires
        g.targets_in_range(),
        start < g.num_nodes(),
        g.num_nodes() <= usize::MAX,
        best == 0 || exists|x: int, y: int| g.is_farthest(x, y, best),
    ensures
        best <= sweep_from(g, start, best),
        exists|x: int, y: int| g.is_farthest(x, y, sweep_from(g, start, best)),
    decreases g.num_nodes() - best,
{
    let f = bfs_farthest_spec(g, start);
    lemma_bfs_farthest_spec(g, start);
    if f.1 <= best {
        assert(sweep_from(g, start, best) == best);
        if best == 0 {
            assert(g.is_farthest(start as int, f.0 as int, best));
        } else {
            let (x, y) = choose|x: int, y: int| g.is_farthest(x, y, best);
            assert(g.is_farthest(x, y, sweep_from(g, start, best)));
        }
    } else {
        assert(sweep_from(g, start, best) == sweep_from(g, f.0, f.1 as nat));
        assert(g.is_farthest(start as int, f.0 as int, f.1 as nat));
        lemma_sweep_from(g, f.0, f.1 as nat);
    }
}

proof fn lemma_sweep_stops_at_fixed_point(g: &Graph, start: usize, best: nat)
    requires
        g.targets_in_range(),
        start < g.num_nodes(),
        g.num_nodes() <= usize::MAX,
        best == 0 || exists|x: usize|
            x < g.num_nodes() && #[trigger] bfs_farthest_spec(g, x).1 == best && bfs_farthest_spec(g, x).0 == start,
    ensures
        exists|x: usize|
            x < g.num_nodes() && #[trigger] bfs_farthest_spec(g, x).1 == sweep_from(g, start, best)
                && bfs_farthest_spec(g, bfs_farthest_spec(g, x).0).1 <= sweep_from(g, start, best),
    decreases g.num_nodes() - best,
{
    let f = bfs_farthest_spec(g, start);
    lemma_bfs_farthest_spec(g, start);
    if f.1 <= best {
        assert(sweep_from(g, start, best) == best);
        if best == 0 {
            reveal(Graph::is_farthest);
            lemma_reach_zero_same(g, start as int, f.0 as int);
            assert(bfs_farthest_spec(g, start).1 == sweep_from(g, start, best));
        } else {
            let x = choose|x: usize|
                x < g.num_nodes() && #[trigger] bfs_farthest_spec(g, x).1 == best && bfs_farthest_spec(g, x).0 == start;
            assert(bfs_farthest_spec(g, x).1 == sweep_from(g, start, best));
        }
    } else {
        assert(sweep_from(g, start, best) == sweep_from(g, f.0, f.1 as nat));
        assert(bfs_farthest_spec(g, start).1 == f.1 as nat);
        lemma_sweep_stops_at_fixed_point(g, f.0, f.1 as nat);
    }
}

/// The sweeps stop only once the eccentricity no longer grows: the estimate
/// is the eccentricity of some vertex `x` (the last start), and the search
/// from the farthest vertex found from `x` goes no farther.
pub proof fn lemma_diameter_fixed_point(g: &Graph)
    requires
        g.targets_in_range(),
        1 < g.num_nodes() <= usize::MAX,
    ensures
        exists|x: usize|
            x < g.num_nodes() && #[trigger] bfs_farthest_spec(g, x).1 == sweep_from(g, 0, 0)
                && bfs_farthest_spec(g, bfs_farthest_spec(g, x).0).1 <= sweep_from(g, 0, 0),
{
    lemma_sweep_stops_at_fixed_point(g, 0, 0);
}

/// The diameter estimate is an eccentricity, the largest distance from some
/// vertex, so it is a distance between two vertices and at most the
/// diameter; and it is at least the eccentricity of vertex 0.
pub proof fn lemma_diameter_estimate(g: &Graph)
    requires
        g.targets_in_range(),
        1 < g.num_nodes() <= usize::MAX,
    ensures
        bfs_farthest_spec(g, 0).1 <= sweep_from(g, 0, 0),
        exists|x: int, y: int| g.is_farthest(x, y, sweep_from(g, 0, 0)),
{
    lemma_sweep_from(g, 0, 0);
    lemma_bfs_farthest_spec(g, 0);
    let f = bfs_farthest_spec(g, 0);
    if f.1 > 0 {
        assert(g.is_farthest(0, f.0 as int, f.1 as nat));
        lemma_sweep_from(g, f.0, f.1 as nat);
    }
}

/// Adding an edge connects both ends: each lists the other.
pub proof fn lemma_add_edge_connects(g0: Graph, g1: Graph, u: usize, v: usize, w: u64)
    requires
        edge_added(g0, g1, u, v, w),
        u != v,
    ensures
        g1.lists(u as int, v as int),
        g1.lists(v as int, u as int),
{
    if !g0.lists(u as int, v as int) {
        assert(g1.adj(u as int)[g0.adj(u as int).len() as int].target == v);
    }
    if !g0.lists(v as int, u as int) {
        assert(g1.adj(v as int)[g0.adj(v as int).len() as int].target == u);
    }
}

/// Adding the same edge again, with any weight, changes nothing.
pub proof fn lemma_add_edge_twice(g0: Graph, g1: Graph, g2: Graph, u: usize, v: usize, w1: u64, w2: u64)
    requires
        edge_added(g0, g1, u, v, w1),
        edge_added(g1, g2, u, v, w2),
    ensures
        g2.num_nodes() == g1.num_nodes(),
        forall|x: int| 0 <= x < g1.num_nodes() ==> #[trigger] g2.adj(x) == g1.adj(x) && g2.nodes@[x].weight == g1.nodes@[x].weight,
{
    if u != v {
        lemma_add_edge_connects(g0, g1, u, v, w1);
    }
    assert forall|x: int| 0 <= x < g1.num_nodes() implies #[trigger] g2.adj(x) == g1.adj(x) && g2.nodes@[x].weight == g1.nodes@[x].weight by {
        if u == v {
            assert(g2.nodes@[x] == g1.nodes@[x]);
        }
    }
}

/// The adjacency lists of `g`, one per vertex.
pub open spec fn adjacency(g: Graph) -> Seq<Seq<Neighbor>> {
    Seq::new(g.num_nodes(), |u: int| g.adj(u))
}

/// The adjacency lists of `Graph::new(n)` after adding the edges `(u, v,
/// weight)` of `edges` in order, as `add_edge` adds them.
pub open spec fn adjacency_after(n: nat, edges: Seq<(usize, usize, u64)>) -> Seq<Seq<Neighbor>>
    decreases edges.len(),
{
    if edges.len() == 0 {
        Seq::new(n, |u: int| Seq::<Neighbor>::empty())
    } else {
        let a = adjacency_after(n, edges.drop_last());
        let (u, v, w) = edges.last();
        if u == v {
            a
        } else {
            a.update(u as int, with_neighbor(a[u as int], v, w)).update(v as int, with_neighbor(a[v as int], u, w))
        }
    }
}

/// A graph built by `Graph::new(n)` and a run of `add_edge` calls depends
/// only on `n` and the edges in the order added: its adjacency lists are
/// `adjacency_after(n, edges)`, every vertex keeps the unit weight, and it is
/// a simple undirected graph.
pub proof fn lemma_edges_applied(gs: Seq<Graph>, n: nat, edges: Seq<(usize, usize, u64)>)
    requires
        gs.len() == edges.len() + 1,
        gs[0].num_nodes() == n,
        forall|u: int|
            0 <= u < n ==> (#[trigger] gs[0].nodes@[u]).weight == UNIT_WEIGHT_KEY && gs[0].nodes@[u].neighbors@.len() == 0,
        forall|i: int|
            0 <= i < edges.len() ==> (#[trigger] edges[i]).0 < n && edges[i].1 < n && edge_added(
                gs[i],
                gs[i + 1],
                edges[i].0,
                edges[i].1,
                edges[i].2,
            ),
    ensures
        adjacency(gs.last()) == adjacency_after(n, edges),
        gs.last().num_nodes() == n,
        forall|u: int| 0 <= u < n ==> (#[trigger] gs.last().nodes@[u]).weight == UNIT_WEIGHT_KEY,
        gs.last().wf(),
    decreases edges.len(),
{
    if edges.len() == 0 {
        let g = gs[0];
        assert forall|u: int| 0 <= u < n implies #[trigger] g.adj(u).len() == 0 by {
            assert(g.nodes@[u].neighbors@.len() == 0);
        }
        assert(g.wf());
        assert(adjacency(g) =~= adjacency_after(n, edges)) by {
            assert forall|u: int| 0 <= u < n implies adjacency(g)[u] == adjacency_after(n, edges)[u] by {
                assert(g.nodes@[u].neighbors@.len() == 0);
                assert(g.adj(u) =~= Seq::<Neighbor>::empty());
            }
        }
    } else {
        let k = edges.len() - 1;
        let g0 = gs[k];
        let g1 = gs.last();
        assert forall|i: int| 0 <= i < edges.drop_last().len() implies (#[trigger] edges.drop_last()[i]).0 < n
            && edges.drop_last()[i].1 < n && edge_added(
            gs.drop_last()[i],
            gs.drop_last()[i + 1],
            edges.drop_last()[i].0,
            edges.drop_last()[i].1,
            edges.drop_last()[i].2,
        ) by {
            assert(edges.drop_last()[i] == edges[i]);
            assert(edge_added(gs[i], gs[i + 1], edges[i].0, edges[i].1, edges[i].2));
        }
        lemma_edges_applied(gs.drop_last(), n, edges.drop_last());
        assert(gs.drop_last().last() == g0);
        let (u, v, w) = edges.last();
        assert(edges[k] == edges.last());
        assert(edges.drop_last().push(edges.last()) =~= edges);
        lemma_adjacency_step(g0, g1, n, edges.drop_last(), u, v, w);
    }
}

/// Adding an edge to a simple undirected graph built from `edges` gives the
/// graph built from `edges` followed by that edge.
pub proof fn lemma_adjacency_step(g0: Graph, g1: Graph, n: nat, edges: Seq<(usize, usize, u64)>, u: usize, v: usize, w: u64)
    requires
        g0.num_nodes() == n,
        g0.wf(),
        adjacency(g0) == adjacency_after(n, edges),
        u < n,
        v < n,
        edge_added(g0, g1, u, v, w),
    ensures
        adjacency(g1) == adjacency_after(n, edges.push((u, v, w))),
        g1.num_nodes() == n,
        g1.wf(),
        forall|x: int| 0 <= x < n ==> #[trigger] g1.nodes@[x].weight == g0.nodes@[x].weight,
{
    let es = edges.push((u, v, w));
    assert(es.drop_last() =~= edges);
    assert(es.last() == (u, v, w));
    let a = adjacency_after(n, edges);
    if u == v {
        assert(g1.nodes@ == g0.nodes@);
        assert(forall|x: int| 0 <= x < n ==> #[trigger] g1.adj(x) == g0.adj(x));
        assert(adjacency(g1) =~= adjacency(g0));
    } else {
        lemma_add_edge_wf(g0, g1, u, v, w);
        assert(adjacency(g1) =~= a.update(u as int, with_neighbor(a[u as int], v, w)).update(
            v as int,
            with_neighbor(a[v as int], u, w),
        )) by {
            assert(a[u as int] == g0.adj(u as int));
            assert(a[v as int] == g0.adj(v as int));
        }
    }
}

/// The undirected edges of `g`: the pairs of vertices `u < v` where `u`
/// lists `v`.
pub open spec fn edge_set(g: &Graph) -> Set<(int, int)> {
    Set::new(|p: (int, int)| 0 <= p.0 < p.1 < g.num_nodes() && g.lists(p.0, p.1))
}

/// The adjacency entries of the first `k` vertices, as pairs.
pub open spec fn entry_set(g: &Graph, k: int) -> Set<(int, int)> {
    Set::new(|p: (int, int)| 0 <= p.0 < k && g.lists(p.0, p.1))
}

/// The adjacency entries of vertex `u`, as pairs.
pub open spec fn row_set(g: &Graph, u: int) -> Set<(int, int)> {
    Set::new(|p: (int, int)| p.0 == u && g.lists(p.0, p.1))
}

/// A list without repeated targets has as many entries as targets.
proof fn lemma_row_len(g: &Graph, u: int)
    requires
        g.wf(),
        0 <= u < g.num_nodes(),
    ensures
        row_set(g, u).finite(),
        row_set(g, u).len() == g.adj(u).len(),
{
    let list = g.adj(u);
    let t = Seq::new(list.len(), |j: int| list[j].target as int);
    assert(t.no_duplicates()) by {
        assert forall|i: int, j: int| 0 <= i < t.len() && 0 <= j < t.len() && i != j implies t[i] != t[j] by {
            assert(g.adj(u)[i].target != g.adj(u)[j].target);
        }
    }
    t.unique_seq_to_set();
    let f = |v: int| (u, v);
    assert(vstd::relations::injective_on(f, t.to_set()));
    assert(t.to_set().map(f) =~= row_set(g, u)) by {
        assert forall|p: (int, int)| row_set(g, u).contains(p) implies t.to_set().map(f).contains(p) by {
            let k = choose|k: int| 0 <= k < list.len() && #[trigger] list[k].target == p.1;
            assert(t[k] == p.1);
            assert(t.to_set().contains(p.1));
            assert(f(p.1) == p);
        }
        assert forall|p: (int, int)| t.to_set().map(f).contains(p) implies row_set(g, u).contains(p) by {
            let v = choose|v: int| t.to_set().contains(v) && f(v) == p;
            let k = choose|k: int| 0 <= k < t.len() && t[k] == v;
            assert(list[k].target == v);
        }
    }
    vstd::set_lib::lemma_map_size(t.to_set(), row_set(g, u), f);
}

/// The entries of the first `k` lists number the sum of their lengths.
proof fn lemma_entry_count(g: &Graph, k: int)
    requires
        g.wf(),
        0 <= k <= g.num_nodes(),
    ensures
        entry_set(g, k).finite(),
        entry_set(g, k).len() == degree_sum(g.nodes@.take(k)),
    decreases k,
{
    if k == 0 {
        assert(entry_set(g, 0) =~= Set::<(int, int)>::empty());
        assert(g.nodes@.take(0) =~= Seq::<Node>::empty());
    } else {
        lemma_entry_count(g, k - 1);
        lemma_row_len(g, k - 1);
        assert(entry_set(g, k) =~= entry_set(g, k - 1) + row_set(g, k - 1));
        assert(entry_set(g, k - 1).disjoint(row_set(g, k - 1)));
        vstd::set_lib::lemma_set_disjoint_lens(entry_set(g, k - 1), row_set(g, k - 1));
        assert(g.nodes@.take(k).drop_last() =~= g.nodes@.take(k - 1));
    }
}

/// In a simple undirected graph every edge appears in two adjacency lists:
/// the lists hold twice as many entries as there are edges.
pub proof fn lemma_degree_sum_counts_edges(g: &Graph)
    requires
        g.wf(),
    ensures
        edge_set(g).finite(),
        degree_sum(g.nodes@) == 2 * edge_set(g).len(),
{
    let n = g.num_nodes() as int;
    lemma_entry_count(g, n);
    let all = entry_set(g, n);
    let e = edge_set(g);
    let swap = |p: (int, int)| (p.1, p.0);
    let back = e.map(swap);
    assert(e.subset_of(all));
    vstd::set_lib::lemma_set_subset_finite(all, e);
    assert(vstd::relations::injective_on(swap, e));
    vstd::set_lib::lemma_map_size(e, back, swap);
    assert(all =~= e + back) by {
        assert forall|p: (int, int)| all.contains(p) implies (e + back).contains(p) by {
            let k = choose|k: int| 0 <= k < g.adj(p.0).len() && #[trigger] g.adj(p.0)[k].target == p.1;
            assert(g.adj(p.0)[k].target < n);
            assert(g.adj(p.0)[k].target != p.0);
            if p.0 > p.1 {
                lemma_symmetric_lists(*g, p.0, p.1);
                assert(e.contains((p.1, p.0)));
                assert(swap((p.1, p.0)) == p);
            }
        }
        assert forall|p: (int, int)| (e + back).contains(p) implies all.contains(p) by {
            if back.contains(p) {
                let q = choose|q: (int, int)| e.contains(q) && swap(q) == p;
                lemma_symmetric_lists(*g, q.0, q.1);
            }
        }
    }
    assert(e.disjoint(back));
    vstd::set_lib::lemma_set_disjoint_lens(e, back);
    assert(g.nodes@.take(n) =~= g.nodes@);
}

/// `g1` is `g0` after adding the edge `{u, v}` with weight key `w`: the
/// vertex weights are kept; a loop changes nothing; otherwise `u` gets an
/// entry for `v` and `v` one for `u`, each unless already there, and every
/// other adjacency list is kept.
pub open spec fn edge_added(g0: Graph, g1: Graph, u: usize, v: usize, w: u64) -> bool {
    &&& g1.num_nodes() == g0.num_nodes()
    &&& forall|x: int| 0 <= x < g0.num_nodes() ==> (#[trigger] g1.nodes@[x]).weight == g0.nodes@[x].weight
    &&& u == v ==> g1.nodes@ == g0.nodes@
    &&& u != v ==> g1.adj(u as int) == with_neighbor(g0.adj(u as int), v, w)
    &&& u != v ==> g1.adj(v as int) == with_neighbor(g0.adj(v as int), u, w)
    &&& forall|x: int| 0 <= x < g0.num_nodes() && x != u && x != v ==> #[trigger] g1.adj(x) == g0.adj(x)
}

/// `list` has an entry for vertex `v`.
pub open spec fn lists_target(list: Seq<Neighbor>, v: int) -> bool {
    exists|k: int| 0 <= k < list.len() && #[trigger] list[k].target == v
}

/// `list` has an entry for vertex `v` with weight key `w`.
pub open spec fn has_entry(list: Seq<Neighbor>, v: int, w: u64) -> bool {
    exists|k: int| 0 <= k < list.len() && #[trigger] list[k].target == v && list[k].weight == w
}

/// `list` after adding an entry for `v` with weight `w`, unless one is
/// already there.
pub open spec fn with_neighbor(list: Seq<Neighbor>, v: usize, w: u64) -> Seq<Neighbor> {
    if lists_target(list, v as int) {
        list
    } else {
        list.push(Neighbor { target: v, weight: w })
    }
}

/// Sum of the lengths of all adjacency lists.
pub open spec fn degree_sum(nodes: Seq<Node>) -> nat
    decreases nodes.len(),
{
    if nodes.len() == 0 {
        0
    } else {
        degree_sum(nodes.drop_last()) + nodes.last().neighbors@.len()
    }
}

proof fn lemma_degree_sum_update(nodes: Seq<Node>, i: int, node: Node)
    requires
        0 <= i < nodes.len(),
    ensures
        degree_sum(nodes.update(i, node)) + nodes[i].neighbors@.len() == degree_sum(nodes)
            + node.neighbors@.len(),
    decreases nodes.len(),
{
    let u = nodes.update(i, node);
    if i == nodes.len() - 1 {
        assert(u.drop_last() =~= nodes.drop_last());
    } else {
        assert(u.drop_last() =~= nodes.drop_last().update(i, node));
        lemma_degree_sum_update(nodes.drop_last(), i, node);
    }
}

proof fn lemma_degree_sum_prefix(nodes: Seq<Node>, i: int)
    requires
        0 <= i <= nodes.len(),
    ensures
        degree_sum(nodes.take(i)) <= degree_sum(nodes),
    decreases nodes.len(),
{
    if i < nodes.len() {
        assert(nodes.drop_last().take(i) =~= nodes.take(i));
        lemma_degree_sum_prefix(nodes.drop_last(), i);
    } else {
        assert(nodes.take(i) =~= nodes);
    }
}

/// Whether `list` has an entry for vertex `v`.
fn contains_target(list: &Vec<Neighbor>, v: usize) -> (b: bool)
    ensures
        b == lists_target(list@, v as int),
{
    let mut k: usize = 0;
    while k < list.len()
        invariant
            k <= list@.len(),
            forall|j: int| 0 <= j < k ==> (#[trigger] list@[j]).target != v,
        decreases list@.len() - k,
    {
        if list[k].target == v {
            return true;
        }
        k += 1;
    }
    false
}

/// In a symmetric graph `u` lists `v` exactly when `v` lists `u`.
pub proof fn lemma_symmetric_lists(g: Graph, u: int, v: int)
    requires
        g.wf(),
        0 <= u < g.num_nodes(),
        0 <= v < g.num_nodes(),
    ensures
        g.lists(u, v) == g.lists(v, u),
{
    if g.lists(u, v) {
        let k = choose|k: int| 0 <= k < g.adj(u).len() && #[trigger] g.adj(u)[k].target == v;
        assert(has_entry(g.adj(g.adj(u)[k].target as int), u, g.adj(u)[k].weight));
    }
    if g.lists(v, u) {
        let k = choose|k: int| 0 <= k < g.adj(v).len() && #[trigger] g.adj(v)[k].target == u;
        assert(has_entry(g.adj(g.adj(v)[k].target as int), v, g.adj(v)[k].weight));
    }
}

/// Adding an edge between two distinct vertices keeps the graph simple and
/// undirected.
proof fn lemma_add_edge_wf(g0: Graph, g: Graph, u: usize, v: usize, w: u64)
    requires
        g0.wf(),
        u != v,
        u < g0.num_nodes(),
        v < g0.num_nodes(),
        g.num_nodes() == g0.num_nodes(),
        g.adj(u as int) == with_neighbor(g0.adj(u as int), v, w),
        g.adj(v as int) == with_neighbor(g0.adj(v as int), u, w),
        forall|x: int| 0 <= x < g0.num_nodes() && x != u && x != v ==> #[trigger] g.adj(x) == g0.adj(x),
    ensures
        g.wf(),
{
    let n = g.num_nodes();
    lemma_symmetric_lists(g0, u as int, v as int);
    // Every old entry is still present at the same position.
    assert forall|x: int, k: int| 0 <= x < n && 0 <= k < g0.adj(x).len() implies #[trigger] g.adj(x)[k]
        == g0.adj(x)[k] && k < g.adj(x).len() by {
        if x != u && x != v {
            assert(g.adj(x) == g0.adj(x));
        }
    }
    assert forall|x: int, k: int| 0 <= x < n && 0 <= k < g.adj(x).len() implies {
        &&& #[trigger] g.adj(x)[k].target < n
        &&& g.adj(x)[k].target != x
        &&& has_entry(g.adj(g.adj(x)[k].target as int), x, g.adj(x)[k].weight)
    } by {
        if k < g0.adj(x).len() {
            assert(g.adj(x)[k] == g0.adj(x)[k]);
            let y = g0.adj(x)[k].target as int;
            assert(has_entry(g0.adj(y), x, g0.adj(x)[k].weight));
            let j = choose|j: int| 0 <= j < g0.adj(y).len() && #[trigger] g0.adj(y)[j].target == x
                && g0.adj(y)[j].weight == g0.adj(x)[k].weight;
            assert(g.adj(y)[j] == g0.adj(y)[j]);
        } else if x == u {
            assert(g.adj(x)[k].target == v);
            assert(!g0.lists(v as int, u as int));
            let j = g0.adj(v as int).len() as int;
            assert(g.adj(v as int)[j].target == u);
        } else {
            assert(x == v);
            assert(g.adj(x)[k].target == u);
            assert(!g0.lists(u as int, v as int));
            let j = g0.adj(u as int).len() as int;
            assert(g.adj(u as int)[j].target == v);
        }
    }
    assert forall|x: int, k1: int, k2: int|
        0 <= x < n && 0 <= k1 < g.adj(x).len() && 0 <= k2 < g.adj(x).len() && k1 != k2 implies #[trigger] g.adj(
        x,
    )[k1].target != #[trigger] g.adj(x)[k2].target by {
        if k1 < g0.adj(x).len() && k2 < g0.adj(x).len() {
            assert(g.adj(x)[k1] == g0.adj(x)[k1]);
            assert(g.adj(x)[k2] == g0.adj(x)[k2]);
        } else if k1 < g0.adj(x).len() {
            assert(g.adj(x)[k1] == g0.adj(x)[k1]);
        } else {
            assert(g.adj(x)[k2] == g0.adj(x)[k2]);
        }
    }
}

pub open spec fn count_true(s: Seq<bool>) -> nat
    decreases s.len(),
{
    if s.len() == 0 {
        0
    } else {
        count_true(s.drop_last()) + if s.last() {
            1nat
        } else {
            0nat
        }
    }
}

pub proof fn lemma_count_true_le(s: Seq<bool>)
    ensures
        count_true(s) <= s.len(),
    decreases s.len(),
{
    if s.len() > 0 {
        lemma_count_true_le(s.drop_last());
    }
}

pub proof fn lemma_count_true_all_false(s: Seq<bool>)
    requires
        forall|i: int| 0 <= i < s.len() ==> !s[i],
    ensures
        count_true(s) == 0,
    decreases s.len(),
{
    if s.len() > 0 {
        lemma_count_true_all_false(s.drop_last());
    }
}

pub proof fn lemma_count_true_set(s: Seq<bool>, i: int)
    requires
        0 <= i < s.len(),
        !s[i],
    ensures
        count_true(s.update(i, true)) == count_true(s) + 1,
    decreases s.len(),
{
    let u = s.update(i, true);
    if i == s.len() - 1 {
        assert(u.drop_last() =~= s.drop_last());
    } else {
        assert(u.drop_last() =~= s.drop_last().update(i, true));
        lemma_count_true_set(s.drop_last(), i);
    }
}

pub(crate) proof fn lemma_reach_mono(g: &Graph, s: int, t: int, k1: nat, k2: nat)
    requires
        g.reach(s, t, k1),
        k1 <= k2,
    ensures
        g.reach(s, t, k2),
{
    let p = choose|p: Seq<int>| #[trigger] g.is_walk(p) && p.len() <= k1 + 1 && p[0] == s && p.last() == t;
    assert(g.is_walk(p) && p.len() <= k2 + 1 && p[0] == s && p.last() == t);
}

pub(crate) proof fn lemma_reach_zero(g: &Graph, s: int)
    requires
        0 <= s < g.num_nodes(),
    ensures
        g.reach(s, s, 0),
{
    let p = seq![s];
    assert(g.is_walk(p) && p.len() <= 1 && p[0] == s && p.last() == s);
}

pub(crate) proof fn lemma_reach_zero_same(g: &Graph, s: int, t: int)
    requires
        g.reach(s, t, 0),
    ensures
        s == t,
{
    let p = choose|p: Seq<int>| #[trigger] g.is_walk(p) && p.len() <= 1 && p[0] == s && p.last() == t;
}

pub(crate) proof fn lemma_reach_step(g: &Graph, s: int, x: int, t: int, k: nat)
    requires
        g.reach(s, x, k),
        g.lists(x, t),
        0 <= t < g.num_nodes(),
    ensures
        g.reach(s, t, k + 1),
{
    let p = choose|p: Seq<int>| #[trigger] g.is_walk(p) && p.len() <= k + 1 && p[0] == s && p.last() == x;
    let p2 = p.push(t);
    assert forall|i: int| 0 <= i < p2.len() - 1 implies #[trigger] g.lists(p2[i], p2[i + 1]) by {
        if i < p.len() - 1 {
            assert(g.lists(p[i], p[i + 1]));
        }
    }
    assert(g.is_walk(p2) && p2.len() <= k + 2 && p2[0] == s && p2.last() == t);
}

/// A vertex first reached with `k + 1` edges is listed by a vertex reached
/// with `k` edges.
pub(crate) proof fn lemma_reach_pred(g: &Graph, s: int, t: int, k: nat) -> (x: int)
    requires
        g.reach(s, t, k + 1),
        !g.reach(s, t, k),
    ensures
        0 <= x < g.num_nodes(),
        g.reach(s, x, k),
        g.lists(x, t),
{
    let p = choose|p: Seq<int>| #[trigger] g.is_walk(p) && p.len() <= k + 2 && p[0] == s && p.last() == t;
    if p.len() <= k + 1 {
        assert(g.is_walk(p) && p.len() <= k + 1 && p[0] == s && p.last() == t);
    }
    let q = p.drop_last();
    let x = p[p.len() - 2];
    assert(g.lists(p[p.len() - 2], p[p.len() - 1]));
    assert forall|i: int| 0 <= i < q.len() - 1 implies #[trigger] g.lists(q[i], q[i + 1]) by {
        assert(g.lists(p[i], p[i + 1]));
    }
    assert(g.is_walk(q) && q.len() <= k + 1 && q[0] == s && q.last() == x);
    x
}

pub(crate) proof fn lemma_dist_le(g: &Graph, s: int, t: int, d: nat, e: nat)
    requires
        g.is_dist(s, t, d),
        g.reach(s, t, e),
    ensures
        d <= e,
{
    if e < d {
        lemma_reach_mono(g, s, t, e, (d - 1) as nat);
    }
}

} // verus!
