//! Breadth-first search over the adjacency lists, as the library runs it:
//! a queue of `(vertex, depth)` entries, a `visited` flag per vertex, and
//! each expanded vertex scanning its list in order.

use vstd::prelude::*;
use std::collections::VecDeque;
use crate::graph::{Graph, count_true, lemma_count_true_all_false, lemma_count_true_le, lemma_count_true_set};
use crate::graph::{lemma_dist_le, lemma_reach_mono, lemma_reach_pred, lemma_reach_step, lemma_reach_zero, lemma_reach_zero_same};

verus! {

/// The search state `(visited, q)` after scanning the first `k` entries of
/// the list of `x`, which sits at depth `d`: each entry whose vertex is not
/// yet visited is marked and queued one level deeper.
pub open spec fn bfs_scan(
    g: &Graph,
    visited: Seq<bool>,
    q: Seq<(usize, usize)>,
    x: int,
    d: usize,
    k: nat,
) -> (Seq<bool>, Seq<(usize, usize)>)
    decreases k,
{
    if k == 0 {
        (visited, q)
    } else {
        let (v, p) = bfs_scan(g, visited, q, x, d, (k - 1) as nat);
        let t = g.adj(x)[k - 1].target;
        if !v[t as int] {
            (v.update(t as int, true), p.push((t, (d + 1) as usize)))
        } else {
            (v, p)
        }
    }
}

/// The state of the breadth-first search from `start` after the first `h`
/// queue entries have been expanded (or all of them, when the queue is
/// shorter).
pub open spec fn bfs_state(g: &Graph, start: usize, h: nat) -> (Seq<bool>, Seq<(usize, usize)>)
    decreases h,
{
    if h == 0 {
        (Seq::new(g.num_nodes(), |i: int| i == start), seq![(start, 0usize)])
    } else {
        let (v, q) = bfs_state(g, start, (h - 1) as nat);
        if h - 1 < q.len() {
            bfs_scan(g, v, q, q[h - 1].0 as int, q[h - 1].1, g.adj(q[h - 1].0 as int).len())
        } else {
            (v, q)
        }
    }
}

/// Every vertex reachable from `start` with its depth, in the order the
/// breadth-first search discovers them.
pub open spec fn bfs_order(g: &Graph, start: usize) -> Seq<(usize, usize)> {
    bfs_state(g, start, g.num_nodes()).1
}

/// Among the first `k` entries of `q` (the first entry when `k` is 0), the
/// first one of greatest depth.
pub open spec fn deepest_first(q: Seq<(usize, usize)>, k: nat) -> (usize, usize)
    decreases k,
{
    if k == 0 {
        q[0]
    } else {
        let f = deepest_first(q, (k - 1) as nat);
        if q[k - 1].1 > f.1 {
            q[k - 1]
        } else {
            f
        }
    }
}

/// The first vertex that the breadth-first search from `start` discovers at
/// the greatest depth, and that depth.
pub open spec fn bfs_farthest_spec(g: &Graph, start: usize) -> (usize, usize) {
    let q = bfs_order(g, start);
    deepest_first(q, q.len())
}

/// What holds of every search state, expanded or not: each entry is a vertex
/// reached by a walk of its recorded depth, depths never decrease along the
/// queue and grow by at most one past position `h`, and `visited` marks
/// exactly the queued vertices.
pub open spec fn search_basic(g: &Graph, start: int, visited: Seq<bool>, q: Seq<(usize, usize)>, h: int) -> bool {
    let n = g.num_nodes();
    &&& g.targets_in_range()
    &&& n <= usize::MAX
    &&& 0 <= start < n
    &&& visited.len() == n
    &&& 1 <= q.len() == count_true(visited)
    &&& 0 <= h <= q.len()
    &&& q[0].0 == start && q[0].1 == 0
    &&& forall|i: int|
        0 <= i < q.len() ==> {
            &&& (#[trigger] q[i]).0 < n
            &&& visited[q[i].0 as int]
            &&& g.reach(start, q[i].0 as int, q[i].1 as nat)
            &&& q[i].1 <= i
        }
    &&& forall|i: int, j: int| 0 <= i <= j < q.len() ==> (#[trigger] q[i]).1 <= (#[trigger] q[j]).1
    &&& forall|i: int, j: int| 0 <= i < j < q.len() ==> (#[trigger] q[i]).0 != (#[trigger] q[j]).0
    &&& forall|j: int| h <= j < q.len() ==> (#[trigger] q[j]).1 <= q[h].1 + 1
    &&& forall|t: int|
        0 <= t < n && #[trigger] visited[t] ==> exists|i: int| 0 <= i < q.len() && (#[trigger] q[i]).0 == t
}

/// A search state in which the first `h` entries have been fully expanded:
/// besides `search_basic`, each recorded depth is the distance, and every
/// vertex listed by an expanded entry is visited.
pub open spec fn bfs_inv(g: &Graph, start: int, visited: Seq<bool>, q: Seq<(usize, usize)>, h: int) -> bool {
    &&& search_basic(g, start, visited, q, h)
    &&& forall|i: int| 0 <= i < q.len() ==> g.is_dist(start, (#[trigger] q[i]).0 as int, q[i].1 as nat)
    &&& forall|i: int, k: int|
        0 <= i < h && 0 <= k < g.adj(q[i].0 as int).len() ==> visited[(#[trigger] g.adj(
            (#[trigger] q[i]).0 as int,
        )[k]).target as int]
}

/// Queuing a new vertex one level below the entry at `h` keeps the basic
/// search state.
proof fn lemma_search_push(g: &Graph, start: int, visited: Seq<bool>, q: Seq<(usize, usize)>, h: int, t: usize)
    requires
        search_basic(g, start, visited, q, h),
        h < q.len(),
        t < g.num_nodes(),
        !visited[t as int],
        g.reach(start, t as int, (q[h].1 + 1) as nat),
    ensures
        q[h].1 + 1 <= usize::MAX,
        search_basic(g, start, visited.update(t as int, true), q.push((t, (q[h].1 + 1) as usize)), h),
{
    let v2 = visited.update(t as int, true);
    let q2 = q.push((t, (q[h].1 + 1) as usize));
    lemma_count_true_set(visited, t as int);
    lemma_count_true_le(visited);
    assert(q[h].1 <= h);
    assert forall|i: int, j: int| 0 <= i <= j < q2.len() implies (#[trigger] q2[i]).1 <= (#[trigger] q2[j]).1 by {
        if j == q.len() {
            if i == j {
            } else if i >= h {
                assert(q[i].1 <= q[h].1 + 1);
            } else {
                assert(q[i].1 <= q[h].1);
            }
        } else {
            assert(q[i].1 <= q[j].1);
        }
    }
    assert forall|x: int| 0 <= x < g.num_nodes() && #[trigger] v2[x] implies exists|i: int|
        0 <= i < q2.len() && (#[trigger] q2[i]).0 == x by {
        if x == t as int {
            assert(q2[q.len() as int].0 == x);
        } else {
            let i = choose|i: int| 0 <= i < q.len() && (#[trigger] q[i]).0 == x;
            assert(q2[i].0 == x);
        }
    }
    assert forall|i: int| 0 <= i < q2.len() implies {
        &&& (#[trigger] q2[i]).0 < g.num_nodes()
        &&& v2[q2[i].0 as int]
        &&& g.reach(start, q2[i].0 as int, q2[i].1 as nat)
        &&& q2[i].1 <= i
    } by {
        if i < q.len() {
            assert(q[i] == q2[i]);
        }
    }
    assert forall|i: int, j: int| 0 <= i < j < q2.len() implies (#[trigger] q2[i]).0 != (#[trigger] q2[j]).0 by {
        assert(q2[i] == q[i]);
        if j < q.len() {
            assert(q2[j] == q[j]);
        } else {
            assert(visited[q[i].0 as int]);
        }
    }
}

/// Queuing a new vertex at its distance keeps the exact search state.
proof fn lemma_bfs_push(g: &Graph, start: int, visited: Seq<bool>, q: Seq<(usize, usize)>, h: int, t: usize)
    requires
        bfs_inv(g, start, visited, q, h),
        h < q.len(),
        t < g.num_nodes(),
        !visited[t as int],
        g.is_dist(start, t as int, (q[h].1 + 1) as nat),
    ensures
        bfs_inv(g, start, visited.update(t as int, true), q.push((t, (q[h].1 + 1) as usize)), h),
{
    let v2 = visited.update(t as int, true);
    let q2 = q.push((t, (q[h].1 + 1) as usize));
    lemma_search_push(g, start, visited, q, h, t);
    assert forall|i: int, k: int|
        0 <= i < h && 0 <= k < g.adj(q2[i].0 as int).len() implies v2[(#[trigger] g.adj(
        (#[trigger] q2[i]).0 as int,
    )[k]).target as int] by {
        assert(q2[i] == q[i]);
        assert(visited[g.adj(q[i].0 as int)[k].target as int]);
    }
    assert forall|i: int| 0 <= i < q2.len() implies g.is_dist(start, (#[trigger] q2[i]).0 as int, q2[i].1 as nat) by {
        if i < q.len() {
            assert(q[i] == q2[i]);
        }
    }
}

/// Moving past an entry keeps the basic search state.
pub(crate) proof fn lemma_search_advance(g: &Graph, start: int, visited: Seq<bool>, q: Seq<(usize, usize)>, h: int)
    requires
        search_basic(g, start, visited, q, h),
        h < q.len(),
    ensures
        search_basic(g, start, visited, q, h + 1),
{
    assert forall|j: int| h + 1 <= j < q.len() implies (#[trigger] q[j]).1 <= q[h + 1].1 + 1 by {
        assert(q[j].1 <= q[h].1 + 1);
        assert(q[h].1 <= q[h + 1].1);
    }
}

/// Moving past an entry whose listed vertices are all visited keeps the
/// exact search state.
pub(crate) proof fn lemma_bfs_advance(g: &Graph, start: int, visited: Seq<bool>, q: Seq<(usize, usize)>, h: int)
    requires
        bfs_inv(g, start, visited, q, h),
        h < q.len(),
        forall|k: int|
            0 <= k < g.adj(q[h].0 as int).len() ==> visited[(#[trigger] g.adj(q[h].0 as int)[k]).target as int],
    ensures
        bfs_inv(g, start, visited, q, h + 1),
{
    lemma_search_advance(g, start, visited, q, h);
    assert forall|i: int, k: int|
        0 <= i < h + 1 && 0 <= k < g.adj(q[i].0 as int).len() implies visited[(#[trigger] g.adj(
        (#[trigger] q[i]).0 as int,
    )[k]).target as int] by {
        if i == h {
            assert(visited[g.adj(q[h].0 as int)[k].target as int]);
        }
    }
}

/// Every vertex within the depth of the next entry to expand has already
/// been discovered.
pub(crate) proof fn lemma_bfs_closed(
    g: &Graph,
    start: int,
    visited: Seq<bool>,
    q: Seq<(usize, usize)>,
    h: int,
    t: int,
    e: nat,
)
    requires
        bfs_inv(g, start, visited, q, h),
        h < q.len(),
        0 <= t < g.num_nodes(),
        g.reach(start, t, e),
        e <= q[h].1,
    ensures
        visited[t],
    decreases e,
{
    if e == 0 {
        lemma_reach_zero_same(g, start, t);
        assert(q[0].0 == start);
    } else if g.reach(start, t, (e - 1) as nat) {
        lemma_bfs_closed(g, start, visited, q, h, t, (e - 1) as nat);
    } else {
        let x = lemma_reach_pred(g, start, t, (e - 1) as nat);
        lemma_bfs_closed(g, start, visited, q, h, x, (e - 1) as nat);
        let i = choose|i: int| 0 <= i < q.len() && (#[trigger] q[i]).0 == x;
        lemma_dist_le(g, start, x, q[i].1 as nat, (e - 1) as nat);
        if i >= h {
            assert(q[h].1 <= q[i].1);
        }
        let k = choose|k: int| 0 <= k < g.adj(x).len() && #[trigger] g.adj(x)[k].target == t;
        assert(visited[g.adj(q[i].0 as int)[k].target as int]);
    }
}

/// Once every queued entry has been expanded, every reachable vertex has
/// been discovered.
pub(crate) proof fn lemma_bfs_complete(
    g: &Graph,
    start: int,
    visited: Seq<bool>,
    q: Seq<(usize, usize)>,
    t: int,
    e: nat,
)
    requires
        bfs_inv(g, start, visited, q, q.len() as int),
        0 <= t < g.num_nodes(),
        g.reach(start, t, e),
    ensures
        visited[t],
    decreases e,
{
    if e == 0 {
        lemma_reach_zero_same(g, start, t);
        assert(q[0].0 == start);
    } else if g.reach(start, t, (e - 1) as nat) {
        lemma_bfs_complete(g, start, visited, q, t, (e - 1) as nat);
    } else {
        let x = lemma_reach_pred(g, start, t, (e - 1) as nat);
        lemma_bfs_complete(g, start, visited, q, x, (e - 1) as nat);
        let i = choose|i: int| 0 <= i < q.len() && (#[trigger] q[i]).0 == x;
        let k = choose|k: int| 0 <= k < g.adj(x).len() && #[trigger] g.adj(x)[k].target == t;
        assert(visited[g.adj(q[i].0 as int)[k].target as int]);
    }
}

/// Scanning a prefix of the list of the entry at `h` keeps the search state,
/// only appends to the queue, and visits every scanned vertex; from an exact
/// state it yields an exact state.
pub(crate) proof fn lemma_scan(g: &Graph, start: int, v: Seq<bool>, q: Seq<(usize, usize)>, h: int, k: nat)
    requires
        search_basic(g, start, v, q, h),
        0 <= h < q.len(),
        k <= g.adj(q[h].0 as int).len(),
    ensures
        ({
            let (v2, q2) = bfs_scan(g, v, q, q[h].0 as int, q[h].1, k);
            &&& search_basic(g, start, v2, q2, h)
            &&& q2.len() >= q.len()
            &&& forall|i: int| 0 <= i < q.len() ==> #[trigger] q2[i] == q[i]
            &&& forall|j: int|
                0 <= j < k ==> v2[(#[trigger] g.adj(q[h].0 as int)[j]).target as int]
            &&& bfs_inv(g, start, v, q, h) ==> bfs_inv(g, start, v2, q2, h)
        }),
    decreases k,
{
    if k > 0 {
        lemma_scan(g, start, v, q, h, (k - 1) as nat);
        let x = q[h].0 as int;
        let d = q[h].1;
        let (v1, q1) = bfs_scan(g, v, q, x, d, (k - 1) as nat);
        let t = g.adj(x)[k - 1].target;
        assert(q1[h] == q[h]);
        assert(t < g.num_nodes());
        if !v1[t as int] {
            assert(g.lists(x, t as int));
            lemma_reach_step(g, start, x, t as int, d as nat);
            lemma_search_push(g, start, v1, q1, h, t);
            if bfs_inv(g, start, v, q, h) {
                if g.reach(start, t as int, d as nat) {
                    lemma_bfs_closed(g, start, v1, q1, h, t as int, d as nat);
                }
                lemma_bfs_push(g, start, v1, q1, h, t);
            }
        }
    }
}

/// The search state after `h` expansions is exact at position `h`, or at
/// the end of the queue once every entry is expanded.
pub proof fn lemma_state_inv(g: &Graph, start: usize, h: nat)
    requires
        g.targets_in_range(),
        start < g.num_nodes(),
        g.num_nodes() <= usize::MAX,
    ensures
        ({
            let (v, q) = bfs_state(g, start, h);
            &&& h <= q.len() ==> bfs_inv(g, start as int, v, q, h as int)
            &&& h > q.len() ==> bfs_inv(g, start as int, v, q, q.len() as int)
        }),
    decreases h,
{
    let n = g.num_nodes();
    if h == 0 {
        let (v, q) = bfs_state(g, start, 0);
        let none = Seq::new(n, |i: int| false);
        lemma_count_true_all_false(none);
        lemma_count_true_set(none, start as int);
        assert(none.update(start as int, true) =~= v);
        lemma_reach_zero(g, start as int);
        assert(q[0] == (start, 0usize));
        assert forall|t: int| 0 <= t < n && #[trigger] v[t] implies exists|i: int|
            0 <= i < q.len() && (#[trigger] q[i]).0 == t by {
            assert(q[0].0 == t);
        }
    } else {
        lemma_state_inv(g, start, (h - 1) as nat);
        let (v, q) = bfs_state(g, start, (h - 1) as nat);
        if h - 1 < q.len() {
            let x = q[h - 1].0 as int;
            lemma_scan(g, start as int, v, q, h - 1, g.adj(x).len());
            let (v2, q2) = bfs_scan(g, v, q, x, q[h - 1].1, g.adj(x).len());
            assert(q2[h - 1] == q[h - 1]);
            lemma_bfs_advance(g, start as int, v2, q2, h - 1);
        }
    }
}

/// Past the end of the queue, further steps change nothing.
proof fn lemma_state_stable(g: &Graph, start: usize, h: nat, m: nat)
    requires
        h <= m,
        h >= bfs_state(g, start, h).1.len(),
    ensures
        bfs_state(g, start, m) == bfs_state(g, start, h),
    decreases m - h,
{
    if m > h {
        lemma_state_stable(g, start, h, (m - 1) as nat);
    }
}

/// The search runs out after at most one expansion per vertex: the order is
/// the state in which every queued entry has been expanded.
pub proof fn lemma_order_complete(g: &Graph, start: usize, h: nat)
    requires
        g.targets_in_range(),
        start < g.num_nodes(),
        g.num_nodes() <= usize::MAX,
        h == bfs_state(g, start, h).1.len(),
    ensures
        bfs_state(g, start, g.num_nodes()) == bfs_state(g, start, h),
        bfs_inv(g, start as int, bfs_state(g, start, h).0, bfs_order(g, start), h as int),
{
    lemma_state_inv(g, start, h);
    lemma_count_true_le(bfs_state(g, start, h).0);
    lemma_state_stable(g, start, h, g.num_nodes());
}

/// The queue after `h` expansions is a prefix of the queue after any later
/// number of expansions.
pub proof fn lemma_state_prefix(g: &Graph, start: usize, h: nat, h2: nat)
    requires
        g.targets_in_range(),
        start < g.num_nodes(),
        g.num_nodes() <= usize::MAX,
        h <= h2,
    ensures
        bfs_state(g, start, h2).1.len() >= bfs_state(g, start, h).1.len(),
        forall|i: int| 0 <= i < bfs_state(g, start, h).1.len() ==> #[trigger] bfs_state(g, start, h2).1[i] == bfs_state(g, start, h).1[i],
    decreases h2,
{
    if h2 > h {
        lemma_state_prefix(g, start, h, (h2 - 1) as nat);
        lemma_state_inv(g, start, (h2 - 1) as nat);
        let (v, q) = bfs_state(g, start, (h2 - 1) as nat);
        if h2 - 1 < q.len() {
            lemma_scan(g, start as int, v, q, h2 - 1, g.adj(q[h2 - 1].0 as int).len());
        }
    }
}

/// The full search order is an exact search state in which every entry has
/// been expanded.
pub proof fn lemma_order_inv(g: &Graph, start: usize)
    requires
        g.targets_in_range(),
        start < g.num_nodes(),
        g.num_nodes() <= usize::MAX,
    ensures
        bfs_inv(g, start as int, bfs_state(g, start, g.num_nodes()).0, bfs_order(g, start), bfs_order(g, start).len() as int),
{
    lemma_state_inv(g, start, g.num_nodes());
    lemma_count_true_le(bfs_state(g, start, g.num_nodes()).0);
}

/// The deepest-first entry is one of the entries considered, and no entry
/// considered is deeper.
proof fn lemma_deepest(q: Seq<(usize, usize)>, k: nat)
    requires
        1 <= q.len(),
        k <= q.len(),
    ensures
        exists|i: int| 0 <= i < q.len() && q[i] == deepest_first(q, k),
        forall|j: int| 0 <= j < k ==> (#[trigger] q[j]).1 <= deepest_first(q, k).1,
    decreases k,
{
    if k == 0 {
        assert(q[0] == deepest_first(q, 0));
    } else {
        lemma_deepest(q, (k - 1) as nat);
        if q[k - 1].1 > deepest_first(q, (k - 1) as nat).1 {
            assert(q[k - 1] == deepest_first(q, k));
        }
    }
}

/// Appending to the queue does not change the deepest-first entry of a
/// prefix.
pub(crate) proof fn lemma_deepest_prefix(q1: Seq<(usize, usize)>, q2: Seq<(usize, usize)>, k: nat)
    requires
        1 <= q1.len() <= q2.len(),
        k <= q1.len(),
        forall|i: int| 0 <= i < q1.len() ==> #[trigger] q2[i] == q1[i],
    ensures
        deepest_first(q2, k) == deepest_first(q1, k),
    decreases k,
{
    if k == 0 {
        assert(q2[0] == q1[0]);
    } else {
        lemma_deepest_prefix(q1, q2, (k - 1) as nat);
        assert(q2[k - 1] == q1[k - 1]);
    }
}

/// The vertex returned by the farthest-vertex search is at the largest
/// distance from `start` of any reachable vertex, and that distance is
/// smaller than the number of vertices.
pub proof fn lemma_bfs_farthest_spec(g: &Graph, start: usize)
    requires
        g.targets_in_range(),
        start < g.num_nodes(),
        g.num_nodes() <= usize::MAX,
    ensures
        g.is_farthest(start as int, bfs_farthest_spec(g, start).0 as int, bfs_farthest_spec(g, start).1 as nat),
        bfs_farthest_spec(g, start).0 < g.num_nodes(),
        bfs_farthest_spec(g, start).1 < g.num_nodes(),
{
    let n = g.num_nodes();
    lemma_state_inv(g, start, n);
    let (v, q) = bfs_state(g, start, n);
    lemma_count_true_le(v);
    assert(q == bfs_order(g, start));
    assert(bfs_inv(g, start as int, v, q, q.len() as int));
    let f = bfs_farthest_spec(g, start);
    lemma_deepest(q, q.len());
    let fi = choose|i: int| 0 <= i < q.len() && q[i] == deepest_first(q, q.len());
    assert(q[fi] == f);
    reveal(Graph::is_farthest);
    assert forall|x: int, k: nat| 0 <= x < n && #[trigger] g.reach(start as int, x, k) implies g.reach(
        start as int,
        x,
        f.1 as nat,
    ) by {
        lemma_bfs_complete(g, start as int, v, q, x, k);
        let i = choose|i: int| 0 <= i < q.len() && (#[trigger] q[i]).0 == x;
        lemma_reach_mono(g, start as int, x, q[i].1 as nat, f.1 as nat);
    }
}

/// Marks every not yet visited vertex listed by `node` and queues it one
/// level below `node`. The search so far is `gq`, whose entry at `h` is
/// `node`, taken off the front of `queue`, which holds the entries after it.
pub(crate) fn expand_vertex(
    g: &Graph,
    node: usize,
    depth: usize,
    visited: &mut Vec<bool>,
    queue: &mut VecDeque<(usize, usize)>,
    Ghost(start): Ghost<int>,
    Ghost(h): Ghost<int>,
    Ghost(gq): Ghost<Seq<(usize, usize)>>,
)
    requires
        search_basic(g, start, old(visited)@, gq, h),
        0 <= h < gq.len(),
        gq[h] == (node, depth),
        old(queue)@ == gq.subrange(h + 1, gq.len() as int),
    ensures
        ({
            let (v2, q2) = bfs_scan(g, old(visited)@, gq, node as int, depth, g.adj(node as int).len());
            &&& final(visited)@ == v2
            &&& final(queue)@ == q2.subrange(h + 1, q2.len() as int)
        }),
{
    let ghost v0 = visited@;
    let deg = g.nodes[node].neighbors.len();
    let mut j: usize = 0;
    proof {
        lemma_scan(g, start, v0, gq, h, 0);
    }
    while j < deg
        invariant
            deg == g.adj(node as int).len(),
            j <= deg,
            search_basic(g, start, v0, gq, h),
            0 <= h < gq.len(),
            gq[h] == (node, depth),
            visited@ == bfs_scan(g, v0, gq, node as int, depth, j as nat).0,
            queue@ == bfs_scan(g, v0, gq, node as int, depth, j as nat).1.subrange(
                h + 1,
                bfs_scan(g, v0, gq, node as int, depth, j as nat).1.len() as int,
            ),
            search_basic(g, start, visited@, bfs_scan(g, v0, gq, node as int, depth, j as nat).1, h),
            bfs_scan(g, v0, gq, node as int, depth, j as nat).1.len() >= gq.len(),
        decreases deg - j,
    {
        let ghost qj = bfs_scan(g, v0, gq, node as int, depth, j as nat).1;
        proof {
            lemma_scan(g, start, v0, gq, h, (j + 1) as nat);
            lemma_count_true_le(v0);
            assert(gq[h].1 <= h);
        }
        let t = g.nodes[node].neighbors[j].target;
        assert(g.adj(node as int)[j as int].target == t);
        if !visited[t] {
            visited.set(t, true);
            queue.push_back((t, depth + 1));
            proof {
                assert(qj.push((t, (depth + 1) as usize)).subrange(h + 1, qj.len() + 1 as int) =~= qj.subrange(
                    h + 1,
                    qj.len() as int,
                ).push((t, (depth + 1) as usize)));
            }
        }
        j += 1;
    }
}

} // verus!
