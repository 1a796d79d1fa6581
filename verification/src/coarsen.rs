use vstd::prelude::*;
use std::collections::VecDeque;
use rand::rngs::StdRng;
use rand::seq::SliceRandom;
use crate::graph::{has_entry, Graph};
use crate::search::{bfs_inv, bfs_scan, lemma_scan, bfs_order, bfs_state, lemma_order_inv, lemma_state_inv, lemma_state_prefix, expand_vertex, lemma_bfs_advance, lemma_bfs_closed, lemma_bfs_complete, lemma_search_advance, search_basic};

verus! {

broadcast use vstd::seq_lib::group_to_multiset_ensures;

/// How a graph is shrunk to the next coarser level.
#[derive(Debug, Clone, Copy, PartialEq, Eq, Structural)]
pub enum CoarseningStrategy {
    /// Collapse a matching of edges, preferring heavy edges.
    EdgeCollapse,
    /// Keep a maximal independent vertex set.
    Mivs,
    /// Edge collapse, or the independent set when the collapse shrinks too little.
    Hybrid,
}

#[verifier::external_type_specification]
#[verifier::external_body]
pub struct ExStdRng(StdRng);

/// `SliceRandom::shuffle` of the `rand` crate on a slice of indices. Its
/// source swaps each position `i`, from the last down to 1, with a random
/// position at most `i`; the contract claims only that the result is a
/// rearrangement of the input (same multiset of elements). Which
/// rearrangement comes out depends on the generator's state.
#[verifier::external_body]
fn shuffle(v: &mut Vec<usize>, rng: &mut StdRng)
    ensures
        final(v)@.to_multiset() == old(v)@.to_multiset(),
{
    v.shuffle(rng);
}

/// `s` lists each of `0..n` exactly once, in some order.
pub open spec fn is_order_of(s: Seq<usize>, n: nat) -> bool {
    &&& s.len() == n
    &&& forall|i: int| 0 <= i < s.len() ==> #[trigger] s[i] < n
    &&& forall|x: int| 0 <= x < n ==> #[trigger] s.contains(x as usize)
}

/// The vector `0, 1, ..., n - 1`.
fn identity_order(n: usize) -> (v: Vec<usize>)
    ensures
        v@.len() == n,
        forall|i: int| 0 <= i < n ==> #[trigger] v@[i] == i,
{
    let mut v: Vec<usize> = Vec::new();
    let mut i: usize = 0;
    while i < n
        invariant
            i <= n,
            v@.len() == i,
            forall|j: int| 0 <= j < i ==> #[trigger] v@[j] == j,
        decreases n - i,
    {
        v.push(i);
        i += 1;
    }
    v
}

/// A random order of `0..n`.
fn random_order(n: usize, rng: &mut StdRng) -> (v: Vec<usize>)
    ensures
        is_order_of(v@, n as nat),
{
    let mut v = identity_order(n);
    let ghost before = v@;
    shuffle(&mut v, rng);
    proof {
        assert forall|i: int| 0 <= i < v@.len() implies #[trigger] v@[i] < n by {
            assert(v@.contains(v@[i]));
            assert(before.to_multiset().count(v@[i]) > 0);
            assert(before.contains(v@[i]));
        }
        assert forall|x: int| 0 <= x < n implies #[trigger] v@.contains(x as usize) by {
            assert(before[x] == x as usize);
            assert(before.contains(x as usize));
            assert(before.to_multiset().count(x as usize) > 0);
            assert(v@.to_multiset().count(x as usize) > 0);
        }
        assert(v@.len() == v@.to_multiset().len());
        assert(before.len() == before.to_multiset().len());
    }
    v
}

/// `x` is a vertex of the independent set (it has a coarse index), it is
/// at distance `d` from `start`, and no set vertex is closer.
pub open spec fn nearest_hit(g: &Graph, im: Seq<Option<usize>>, start: int, x: int, d: nat) -> bool {
    &&& 0 <= x < g.num_nodes()
    &&& im[x] is Some
    &&& g.is_dist(start, x, d)
    &&& (d == 0 || no_member_within(g, im, start, (d - 1) as nat))
}

/// No vertex with a coarse index is within `d` edges of `start`.
pub open spec fn no_member_within(g: &Graph, im: Seq<Option<usize>>, start: int, d: nat) -> bool {
    forall|y: int| 0 <= y < g.num_nodes() && im[y] is Some ==> !#[trigger] g.reach(start, y, d)
}

/// The coarse indices of the set vertices nearest to `start`, when they are
/// at most `max_depth` edges away; empty otherwise.
pub open spec fn nearest_members(g: &Graph, im: Seq<Option<usize>>, start: int, max_depth: nat) -> Set<usize> {
    Set::new(
        |c: usize|
            exists|x: int, d: nat|
                #[trigger] nearest_hit(g, im, start, x, d) && d <= max_depth && im[x] == Some(c),
    )
}

/// The coarse indices of the set vertices among the first `k` entries of
/// `q` that sit at depth `d`, in queue order.
pub open spec fn members_at(q: Seq<(usize, usize)>, im: Seq<Option<usize>>, d: usize, k: nat) -> Seq<usize>
    decreases k,
{
    if k == 0 {
        Seq::empty()
    } else {
        let prev = members_at(q, im, d, (k - 1) as nat);
        if q[k - 1].1 == d && im[q[k - 1].0 as int] is Some {
            prev.push(im[q[k - 1].0 as int]->0)
        } else {
            prev
        }
    }
}

/// The depth of the first set vertex among the first `k` entries of `q`.
pub open spec fn first_member_depth(q: Seq<(usize, usize)>, im: Seq<Option<usize>>, k: nat) -> Option<usize>
    decreases k,
{
    if k == 0 {
        None
    } else {
        match first_member_depth(q, im, (k - 1) as nat) {
            Some(d) => Some(d),
            None => if im[q[k - 1].0 as int] is Some {
                Some(q[k - 1].1)
            } else {
                None
            },
        }
    }
}

/// What the search for the nearest set vertices returns: the coarse indices
/// of the set vertices at the depth of the first set vertex that the
/// breadth-first search from `start` discovers, in the order it discovers
/// them; nothing when no set vertex is within `max_depth` edges.
pub open spec fn nearest_list(g: &Graph, im: Seq<Option<usize>>, start: usize, max_depth: nat) -> Seq<usize> {
    let q = bfs_order(g, start);
    match first_member_depth(q, im, q.len()) {
        Some(d) => if d <= max_depth {
            members_at(q, im, d, q.len())
        } else {
            Seq::empty()
        },
        None => Seq::empty(),
    }
}

proof fn lemma_members_agree(q1: Seq<(usize, usize)>, q2: Seq<(usize, usize)>, im: Seq<Option<usize>>, d: usize, k: nat)
    requires
        forall|i: int| 0 <= i < k ==> #[trigger] q1[i] == q2[i],
    ensures
        members_at(q1, im, d, k) == members_at(q2, im, d, k),
        first_member_depth(q1, im, k) == first_member_depth(q2, im, k),
    decreases k,
{
    if k > 0 {
        lemma_members_agree(q1, q2, im, d, (k - 1) as nat);
        assert(q1[k - 1] == q2[k - 1]);
    }
}

proof fn lemma_members_skip(q: Seq<(usize, usize)>, im: Seq<Option<usize>>, d: usize, k1: nat, k2: nat)
    requires
        k1 <= k2,
        forall|i: int| k1 <= i < k2 ==> (#[trigger] q[i]).1 != d,
    ensures
        members_at(q, im, d, k2) == members_at(q, im, d, k1),
    decreases k2,
{
    if k2 > k1 {
        lemma_members_skip(q, im, d, k1, (k2 - 1) as nat);
        assert(q[k2 - 1].1 != d);
    }
}

proof fn lemma_first_member_none(q: Seq<(usize, usize)>, im: Seq<Option<usize>>, k: nat)
    requires
        first_member_depth(q, im, k) is None,
    ensures
        forall|i: int| 0 <= i < k ==> im[(#[trigger] q[i]).0 as int] is None,
    decreases k,
{
    if k > 0 {
        lemma_first_member_none(q, im, (k - 1) as nat);
    }
}

/// Once a set vertex has been seen, later entries do not change the first
/// depth; before, it is the depth of some later entry, if any.
proof fn lemma_first_member_extend(q: Seq<(usize, usize)>, im: Seq<Option<usize>>, k1: nat, k2: nat)
    requires
        k1 <= k2,
    ensures
        first_member_depth(q, im, k1) is Some ==> first_member_depth(q, im, k2) == first_member_depth(q, im, k1),
        first_member_depth(q, im, k1) is None ==> (first_member_depth(q, im, k2) is None || exists|i: int|
            k1 <= i < k2 && first_member_depth(q, im, k2) == Some((#[trigger] q[i]).1)),
    decreases k2,
{
    if k2 > k1 {
        lemma_first_member_extend(q, im, k1, (k2 - 1) as nat);
        if first_member_depth(q, im, k1) is None && first_member_depth(q, im, (k2 - 1) as nat) is None {
            if im[q[k2 - 1].0 as int] is Some {
                assert(first_member_depth(q, im, k2) == Some(q[k2 - 1].1));
            }
        }
    }
}

/// The state of the search for the nearest set vertices. Until the first
/// set vertex is met (`best` is `None`) it is a plain breadth-first search
/// in which no expanded vertex is a set vertex. Afterwards `best` holds the
/// nearest distance `d`: some expanded set vertex is at depth `d`, no set
/// vertex is closer, every vertex within `d` edges is queued with its
/// distance, and `found` holds the coarse indices of the expanded set
/// vertices at depth `d`.
#[verifier::opaque]
pub open spec fn near_inv(
    g: &Graph,
    im: Seq<Option<usize>>,
    st: int,
    max_depth: nat,
    visited: Seq<bool>,
    q: Seq<(usize, usize)>,
    head: int,
    found: Seq<usize>,
    best: Option<usize>,
) -> bool {
    &&& im.len() == g.num_nodes()
    &&& search_basic(g, st, visited, q, head)
    &&& best is None ==> bfs_inv(g, st, visited, q, head)
    &&& best is None ==> forall|i: int| 0 <= i < head ==> (#[trigger] q[i]).0 < g.num_nodes() && im[q[i].0 as int] is None
    &&& best is None ==> found.len() == 0
    &&& best matches Some(d) ==> d <= max_depth
    &&& best matches Some(d) ==> exists|i: int| 0 <= i < head && (#[trigger] q[i]).1 == d && im[q[i].0 as int] is Some
    &&& best matches Some(d) ==> (d == 0 || no_member_within(g, im, st, (d - 1) as nat))
    &&& best matches Some(d) ==> forall|x: int|
        0 <= x < g.num_nodes() && #[trigger] g.reach(st, x, d as nat) ==> exists|i: int|
            0 <= i < q.len() && (#[trigger] q[i]).0 == x && q[i].1 <= d
    &&& best matches Some(d) ==> forall|c: usize|
        found.contains(c) <==> exists|i: int| 0 <= i < head && (#[trigger] q[i]).1 == d && im[q[i].0 as int] == Some(c)
}

/// The step that meets the first set vertex.
#[verifier::spinoff_prover]
#[verifier::rlimit(40)]
proof fn lemma_near_step_first(
    g: &Graph,
    im: Seq<Option<usize>>,
    st: int,
    max_depth: nat,
    v0: Seq<bool>,
    q0: Seq<(usize, usize)>,
    f0: Seq<usize>,
    b0: Option<usize>,
    v1: Seq<bool>,
    q1: Seq<(usize, usize)>,
    f1: Seq<usize>,
    b1: Option<usize>,
    head: int,
    take: bool,
)
    requires
        near_inv(g, im, st, max_depth, v0, q0, head, f0, b0),
        0 <= head < q0.len(),
        q0[head].1 <= max_depth,
        take == (im[q0[head].0 as int] is Some && (b0 matches Some(b) ==> q0[head].1 <= b)),
        b1 == (if take && b0 is None { Some(q0[head].1) } else { b0 }),
        f1 == (if take { f0.push(im[q0[head].0 as int]->0) } else { f0 }),
        (take || b1 == Some(q0[head].1)) ==> v1 == v0 && q1 == q0,
        !(take || b1 == Some(q0[head].1)) ==> {
            &&& search_basic(g, st, v1, q1, head)
            &&& q1.len() >= q0.len()
            &&& forall|i: int| 0 <= i < q0.len() ==> #[trigger] q1[i] == q0[i]
            &&& forall|k: int|
                0 <= k < g.adj(q0[head].0 as int).len() ==> v1[(#[trigger] g.adj(q0[head].0 as int)[k]).target as int]
            &&& bfs_inv(g, st, v0, q0, head) ==> bfs_inv(g, st, v1, q1, head)
        },
        b0 is None,
        take,
    ensures
        near_inv(g, im, st, max_depth, v1, q1, head + 1, f1, b1),
{
    reveal(near_inv);
    let n = g.num_nodes();
    let node = q0[head].0;
    let depth = q0[head].1;
    assert(node < n);
    if let Some(d) = b0 {
        let i0 = choose|i: int| 0 <= i < head && (#[trigger] q0[i]).1 == d && im[q0[i].0 as int] is Some;
        assert(q0[i0].1 <= q0[head].1);
    }
    assert(forall|i: int| 0 <= i < q0.len() ==> #[trigger] q1[i] == q0[i]);
    lemma_search_advance(g, st, v1, q1, head);
            lemma_near_first_hit(g, im, st, v0, q0, head);
            assert forall|c: usize| f1.contains(c) <==> exists|i: int|
                0 <= i < head + 1 && (#[trigger] q1[i]).1 == depth && im[q1[i].0 as int] == Some(c) by {
                if f1.contains(c) {
                    assert(f1[0] == c);
                    assert(q1[head].1 == depth && im[q1[head].0 as int] == Some(c));
                }
                if exists|i: int| 0 <= i < head + 1 && (#[trigger] q1[i]).1 == depth && im[q1[i].0 as int] == Some(c) {
                    let i = choose|i: int| 0 <= i < head + 1 && (#[trigger] q1[i]).1 == depth && im[q1[i].0 as int] == Some(c);
                    if i < head {
                        assert(q0[i] == q1[i]);
                    }
                    assert(f1[0] == c);
                }
            }
            assert(q1[head].1 == depth && im[q1[head].0 as int] is Some);
}

/// A step before any set vertex is met: the vertex is expanded.
#[verifier::spinoff_prover]
#[verifier::rlimit(40)]
proof fn lemma_near_step_plain(
    g: &Graph,
    im: Seq<Option<usize>>,
    st: int,
    max_depth: nat,
    v0: Seq<bool>,
    q0: Seq<(usize, usize)>,
    f0: Seq<usize>,
    b0: Option<usize>,
    v1: Seq<bool>,
    q1: Seq<(usize, usize)>,
    f1: Seq<usize>,
    b1: Option<usize>,
    head: int,
    take: bool,
)
    requires
        near_inv(g, im, st, max_depth, v0, q0, head, f0, b0),
        0 <= head < q0.len(),
        q0[head].1 <= max_depth,
        take == (im[q0[head].0 as int] is Some && (b0 matches Some(b) ==> q0[head].1 <= b)),
        b1 == (if take && b0 is None { Some(q0[head].1) } else { b0 }),
        f1 == (if take { f0.push(im[q0[head].0 as int]->0) } else { f0 }),
        (take || b1 == Some(q0[head].1)) ==> v1 == v0 && q1 == q0,
        !(take || b1 == Some(q0[head].1)) ==> {
            &&& search_basic(g, st, v1, q1, head)
            &&& q1.len() >= q0.len()
            &&& forall|i: int| 0 <= i < q0.len() ==> #[trigger] q1[i] == q0[i]
            &&& forall|k: int|
                0 <= k < g.adj(q0[head].0 as int).len() ==> v1[(#[trigger] g.adj(q0[head].0 as int)[k]).target as int]
            &&& bfs_inv(g, st, v0, q0, head) ==> bfs_inv(g, st, v1, q1, head)
        },
        b0 is None,
        !take,
    ensures
        near_inv(g, im, st, max_depth, v1, q1, head + 1, f1, b1),
{
    reveal(near_inv);
    let n = g.num_nodes();
    let node = q0[head].0;
    let depth = q0[head].1;
    assert(node < n);
    if let Some(d) = b0 {
        let i0 = choose|i: int| 0 <= i < head && (#[trigger] q0[i]).1 == d && im[q0[i].0 as int] is Some;
        assert(q0[i0].1 <= q0[head].1);
    }
    assert(forall|i: int| 0 <= i < q0.len() ==> #[trigger] q1[i] == q0[i]);
    lemma_search_advance(g, st, v1, q1, head);
            lemma_bfs_advance(g, st, v1, q1, head);
            assert forall|i: int| 0 <= i < head + 1 implies (#[trigger] q1[i]).0 < n && im[q1[i].0 as int] is None by {
                if i < head {
                    assert(q0[i] == q1[i]);
                }
            }
}

/// A step after the nearest distance is known.
#[verifier::spinoff_prover]
#[verifier::rlimit(40)]
proof fn lemma_near_step_after(
    g: &Graph,
    im: Seq<Option<usize>>,
    st: int,
    max_depth: nat,
    v0: Seq<bool>,
    q0: Seq<(usize, usize)>,
    f0: Seq<usize>,
    b0: Option<usize>,
    v1: Seq<bool>,
    q1: Seq<(usize, usize)>,
    f1: Seq<usize>,
    b1: Option<usize>,
    head: int,
    take: bool,
)
    requires
        near_inv(g, im, st, max_depth, v0, q0, head, f0, b0),
        0 <= head < q0.len(),
        q0[head].1 <= max_depth,
        take == (im[q0[head].0 as int] is Some && (b0 matches Some(b) ==> q0[head].1 <= b)),
        b1 == (if take && b0 is None { Some(q0[head].1) } else { b0 }),
        f1 == (if take { f0.push(im[q0[head].0 as int]->0) } else { f0 }),
        (take || b1 == Some(q0[head].1)) ==> v1 == v0 && q1 == q0,
        !(take || b1 == Some(q0[head].1)) ==> {
            &&& search_basic(g, st, v1, q1, head)
            &&& q1.len() >= q0.len()
            &&& forall|i: int| 0 <= i < q0.len() ==> #[trigger] q1[i] == q0[i]
            &&& forall|k: int|
                0 <= k < g.adj(q0[head].0 as int).len() ==> v1[(#[trigger] g.adj(q0[head].0 as int)[k]).target as int]
            &&& bfs_inv(g, st, v0, q0, head) ==> bfs_inv(g, st, v1, q1, head)
        },
        b0 is Some,
    ensures
        near_inv(g, im, st, max_depth, v1, q1, head + 1, f1, b1),
{
    reveal(near_inv);
    let n = g.num_nodes();
    let node = q0[head].0;
    let depth = q0[head].1;
    assert(node < n);
    if let Some(d) = b0 {
        let i0 = choose|i: int| 0 <= i < head && (#[trigger] q0[i]).1 == d && im[q0[i].0 as int] is Some;
        assert(q0[i0].1 <= q0[head].1);
    }
    assert(forall|i: int| 0 <= i < q0.len() ==> #[trigger] q1[i] == q0[i]);
    lemma_search_advance(g, st, v1, q1, head);
        let d = b0->0;
        let i0 = choose|i: int| 0 <= i < head && (#[trigger] q0[i]).1 == d && im[q0[i].0 as int] is Some;
        assert(q1[i0] == q0[i0]);
        assert forall|x: int| 0 <= x < n && #[trigger] g.reach(st, x, d as nat) implies exists|i: int|
            0 <= i < q1.len() && (#[trigger] q1[i]).0 == x && q1[i].1 <= d by {
            let i = choose|i: int| 0 <= i < q0.len() && (#[trigger] q0[i]).0 == x && q0[i].1 <= d;
            assert(q1[i] == q0[i]);
        }
        assert forall|c: usize| f1.contains(c) <==> exists|i: int|
            0 <= i < head + 1 && (#[trigger] q1[i]).1 == d && im[q1[i].0 as int] == Some(c) by {
            if f1.contains(c) {
                if take && c == f1.last() {
                    assert(q1[head].1 == d && im[q1[head].0 as int] == Some(c));
                } else {
                    let k = choose|k: int| 0 <= k < f1.len() && f1[k] == c;
                    if take {
                        assert(f0[k] == c);
                    }
                    assert(f0.contains(c));
                    let i = choose|i: int| 0 <= i < head && (#[trigger] q0[i]).1 == d && im[q0[i].0 as int] == Some(c);
                    assert(q1[i] == q0[i]);
                }
            }
            if exists|i: int| 0 <= i < head + 1 && (#[trigger] q1[i]).1 == d && im[q1[i].0 as int] == Some(c) {
                let i = choose|i: int| 0 <= i < head + 1 && (#[trigger] q1[i]).1 == d && im[q1[i].0 as int] == Some(c);
                if i < head {
                    assert(q0[i] == q1[i]);
                    assert(f0.contains(c));
                    let k = choose|k: int| 0 <= k < f0.len() && f0[k] == c;
                    assert(f1[k] == c);
                } else {
                    assert(take);
                    assert(f1.last() == c);
                }
            }
        }
    }

/// One step of the search for the nearest set vertices: the entry at `head`
/// (at depth at most `max_depth`) is taken as a nearest set vertex, skipped,
/// or expanded.
proof fn lemma_near_step(
    g: &Graph,
    im: Seq<Option<usize>>,
    st: int,
    max_depth: nat,
    v0: Seq<bool>,
    q0: Seq<(usize, usize)>,
    f0: Seq<usize>,
    b0: Option<usize>,
    v1: Seq<bool>,
    q1: Seq<(usize, usize)>,
    f1: Seq<usize>,
    b1: Option<usize>,
    head: int,
    take: bool,
)
    requires
        near_inv(g, im, st, max_depth, v0, q0, head, f0, b0),
        0 <= head < q0.len(),
        q0[head].1 <= max_depth,
        take == (im[q0[head].0 as int] is Some && (b0 matches Some(b) ==> q0[head].1 <= b)),
        b1 == (if take && b0 is None { Some(q0[head].1) } else { b0 }),
        f1 == (if take { f0.push(im[q0[head].0 as int]->0) } else { f0 }),
        (take || b1 == Some(q0[head].1)) ==> v1 == v0 && q1 == q0,
        !(take || b1 == Some(q0[head].1)) ==> {
            &&& search_basic(g, st, v1, q1, head)
            &&& q1.len() >= q0.len()
            &&& forall|i: int| 0 <= i < q0.len() ==> #[trigger] q1[i] == q0[i]
            &&& forall|k: int|
                0 <= k < g.adj(q0[head].0 as int).len() ==> v1[(#[trigger] g.adj(q0[head].0 as int)[k]).target as int]
            &&& bfs_inv(g, st, v0, q0, head) ==> bfs_inv(g, st, v1, q1, head)
        },
    ensures
        near_inv(g, im, st, max_depth, v1, q1, head + 1, f1, b1),
{
    if b0 is None {
        if take {
            lemma_near_step_first(g, im, st, max_depth, v0, q0, f0, b0, v1, q1, f1, b1, head, take);
        } else {
            lemma_near_step_plain(g, im, st, max_depth, v0, q0, f0, b0, v1, q1, f1, b1, head, take);
        }
    } else {
        lemma_near_step_after(g, im, st, max_depth, v0, q0, f0, b0, v1, q1, f1, b1, head, take);
    }
}

/// When the search meets its first set vertex, at depth `d`: no set vertex
/// is closer, and every vertex within `d` edges is already queued with its
/// distance.
proof fn lemma_near_first_hit(
    g: &Graph,
    im: Seq<Option<usize>>,
    st: int,
    v0: Seq<bool>,
    q0: Seq<(usize, usize)>,
    head: int,
)
    requires
        bfs_inv(g, st, v0, q0, head),
        0 <= head < q0.len(),
        im.len() == g.num_nodes(),
        forall|i: int| 0 <= i < head ==> (#[trigger] q0[i]).0 < g.num_nodes() && im[q0[i].0 as int] is None,
    ensures
        q0[head].1 == 0 || no_member_within(g, im, st, (q0[head].1 - 1) as nat),
        forall|x: int|
            0 <= x < g.num_nodes() && #[trigger] g.reach(st, x, q0[head].1 as nat) ==> exists|i: int|
                0 <= i < q0.len() && (#[trigger] q0[i]).0 == x && q0[i].1 <= q0[head].1,
{
    let n = g.num_nodes();
    let d = q0[head].1;
    if d > 0 {
        assert forall|y: int| 0 <= y < n && im[y] is Some implies !#[trigger] g.reach(st, y, (d - 1) as nat) by {
            if g.reach(st, y, (d - 1) as nat) {
                lemma_bfs_closed(g, st, v0, q0, head, y, (d - 1) as nat);
                let i = choose|i: int| 0 <= i < q0.len() && (#[trigger] q0[i]).0 == y;
                crate::graph::lemma_dist_le(g, st, y, q0[i].1 as nat, (d - 1) as nat);
                if i >= head {
                    assert(q0[head].1 <= q0[i].1);
                }
            }
        }
    }
    assert forall|x: int| 0 <= x < n && #[trigger] g.reach(st, x, d as nat) implies exists|i: int|
        0 <= i < q0.len() && (#[trigger] q0[i]).0 == x && q0[i].1 <= d by {
        lemma_bfs_closed(g, st, v0, q0, head, x, d as nat);
        let i = choose|i: int| 0 <= i < q0.len() && (#[trigger] q0[i]).0 == x;
        crate::graph::lemma_dist_le(g, st, x, q0[i].1 as nat, d as nat);
    }
}

/// The state in which the search stops yields exactly the nearest set
/// vertices.
#[verifier::spinoff_prover]
#[verifier::rlimit(40)]
proof fn lemma_near_result(
    g: &Graph,
    im: Seq<Option<usize>>,
    st: int,
    max_depth: nat,
    visited: Seq<bool>,
    q: Seq<(usize, usize)>,
    head: int,
    found: Seq<usize>,
    best_depth: Option<usize>,
)
    requires
        im.len() == g.num_nodes(),
        search_basic(g, st, visited, q, head),
        head == q.len() || q[head].1 > max_depth,
        best_depth is None ==> bfs_inv(g, st, visited, q, head),
        best_depth is None ==> forall|i: int| 0 <= i < head ==> (#[trigger] q[i]).0 < g.num_nodes() && im[q[i].0 as int] is None,
        best_depth is None ==> found.len() == 0,
        best_depth matches Some(d) ==> d <= max_depth,
        best_depth matches Some(d) ==> exists|i: int|
            0 <= i < head && (#[trigger] q[i]).1 == d && im[q[i].0 as int] is Some,
        best_depth matches Some(d) ==> (d == 0 || no_member_within(g, im, st, (d - 1) as nat)),
        best_depth matches Some(d) ==> forall|x: int|
            0 <= x < g.num_nodes() && #[trigger] g.reach(st, x, d as nat) ==> exists|i: int|
                0 <= i < q.len() && (#[trigger] q[i]).0 == x && q[i].1 <= d,
        best_depth matches Some(d) ==> forall|c: usize|
            found.contains(c) <==> exists|i: int|
                0 <= i < head && (#[trigger] q[i]).1 == d && im[q[i].0 as int] == Some(c),
    ensures
        found.to_set() == nearest_members(g, im, st, max_depth),
{
        assert forall|c: usize| found.contains(c) <==> nearest_members(g, im, st, max_depth).contains(c) by {
            if let Some(d) = best_depth {
                if found.contains(c) {
                    let i = choose|i: int| 0 <= i < head && (#[trigger] q[i]).1 == d && im[q[i].0 as int] == Some(c);
                    let x = q[i].0 as int;
                    assert(nearest_hit(g, im, st, x, d as nat));
                }
                if nearest_members(g, im, st, max_depth).contains(c) {
                    let (x, e) = choose|x: int, e: nat| #[trigger] nearest_hit(g, im, st, x, e) && e <= max_depth && im[x] == Some(c);
                    let i0 = choose|i: int| 0 <= i < head && (#[trigger] q[i]).1 == d && im[q[i].0 as int] is Some;
                    let w = q[i0].0 as int;
                    if e < d {
                        crate::graph::lemma_reach_mono(g, st, x, e, (d - 1) as nat);
                    }
                    if e > d {
                        crate::graph::lemma_reach_mono(g, st, w, d as nat, (e - 1) as nat);
                    }
                    assert(e == d);
                    let i = choose|i: int| 0 <= i < q.len() && (#[trigger] q[i]).0 == x && q[i].1 <= d;
                    if q[i].1 < d {
                        crate::graph::lemma_reach_mono(g, st, x, q[i].1 as nat, (d - 1) as nat);
                    }
                    if i >= head {
                        assert(q[head].1 <= q[i].1);
                    }
                }
            } else {
                if nearest_members(g, im, st, max_depth).contains(c) {
                    let (x, e) = choose|x: int, e: nat| #[trigger] nearest_hit(g, im, st, x, e) && e <= max_depth && im[x] == Some(c);
                    if head == q.len() {
                        lemma_bfs_complete(g, st, visited, q, x, e);
                        let i = choose|i: int| 0 <= i < q.len() && (#[trigger] q[i]).0 == x;
                    } else {
                        lemma_bfs_closed(g, st, visited, q, head, x, e);
                        let i = choose|i: int| 0 <= i < q.len() && (#[trigger] q[i]).0 == x;
                        crate::graph::lemma_dist_le(g, st, x, q[i].1 as nat, e);
                        if i >= head {
                            assert(q[head].1 <= q[i].1);
                        }
                    }
                }
            }
        }
        assert(found.to_set() =~= nearest_members(g, im, st, max_depth));
    }


/// How the search for the nearest set vertices relates to the full
/// breadth-first search from `start`. Until the first set vertex is met it
/// is that search, with no set vertex among the expanded entries. Afterwards
/// `qhit`, the queue when the first set vertex was met, is a prefix of both
/// the current queue and the full search order and holds every entry of the
/// full order up to the nearest depth `d`; later entries of the queue are
/// deeper; and `found` lists the set vertices at depth `d` among the entries
/// taken so far, in queue order.
pub open spec fn near_order(
    g: &Graph,
    im: Seq<Option<usize>>,
    start: usize,
    visited: Seq<bool>,
    q: Seq<(usize, usize)>,
    head: int,
    found: Seq<usize>,
    best: Option<usize>,
    qhit: Seq<(usize, usize)>,
) -> bool {
    let p = bfs_order(g, start);
    &&& best is None ==> (visited, q) == bfs_state(g, start, head as nat)
    &&& best is None ==> first_member_depth(q, im, head as nat) is None
    &&& best matches Some(d) ==> {
        &&& qhit.len() <= q.len()
        &&& qhit.len() <= p.len()
        &&& forall|i: int| 0 <= i < qhit.len() ==> #[trigger] q[i] == qhit[i]
        &&& forall|i: int| 0 <= i < qhit.len() ==> #[trigger] p[i] == qhit[i]
        &&& first_member_depth(p, im, p.len()) == Some(d)
        &&& forall|i: int| 0 <= i < p.len() && (#[trigger] p[i]).1 <= d ==> i < qhit.len()
        &&& forall|i: int| qhit.len() <= i < q.len() ==> (#[trigger] q[i]).1 > d
        &&& found == members_at(q, im, d, head as nat)
    }
}

proof fn lemma_members_none(q: Seq<(usize, usize)>, im: Seq<Option<usize>>, d: usize, k: nat)
    requires
        forall|i: int| 0 <= i < k ==> im[(#[trigger] q[i]).0 as int] is None,
    ensures
        members_at(q, im, d, k) == Seq::<usize>::empty(),
    decreases k,
{
    if k > 0 {
        lemma_members_none(q, im, d, (k - 1) as nat);
        assert(im[q[k - 1].0 as int] is None);
    }
}

/// The step that meets the first set vertex fixes the nearest depth.
proof fn lemma_near_order_hit(
    g: &Graph,
    im: Seq<Option<usize>>,
    start: usize,
    v0: Seq<bool>,
    q0: Seq<(usize, usize)>,
    head: int,
)
    requires
        g.targets_in_range(),
        start < g.num_nodes(),
        g.num_nodes() <= usize::MAX,
        0 <= head < q0.len(),
        (v0, q0) == bfs_state(g, start, head as nat),
        first_member_depth(q0, im, head as nat) is None,
        im[q0[head].0 as int] is Some,
    ensures
        ({
            let p = bfs_order(g, start);
            let d = q0[head].1;
            &&& q0.len() <= p.len()
            &&& forall|i: int| 0 <= i < q0.len() ==> #[trigger] p[i] == q0[i]
            &&& first_member_depth(p, im, p.len()) == Some(d)
            &&& forall|i: int| 0 <= i < p.len() && (#[trigger] p[i]).1 <= d ==> i < q0.len()
            &&& members_at(q0, im, d, (head + 1) as nat) == seq![im[q0[head].0 as int]->0]
        }),
{
    let n = g.num_nodes();
    let p = bfs_order(g, start);
    let d = q0[head].1;
    lemma_state_inv(g, start, head as nat);
    crate::graph::lemma_count_true_le(v0);
    lemma_state_prefix(g, start, head as nat, n);
    lemma_members_agree(p, q0, im, d, (head + 1) as nat);
    lemma_first_member_extend(p, im, (head + 1) as nat, p.len());
    lemma_order_inv(g, start);
    assert forall|i: int| 0 <= i < p.len() && (#[trigger] p[i]).1 <= d implies i < q0.len() by {
        if i >= q0.len() {
            let x = p[i].0 as int;
            crate::graph::lemma_reach_mono(g, start as int, x, p[i].1 as nat, d as nat);
            lemma_bfs_closed(g, start as int, v0, q0, head, x, d as nat);
            let j = choose|j: int| 0 <= j < q0.len() && (#[trigger] q0[j]).0 == x;
            assert(p[j] == q0[j]);
        }
    }
    lemma_first_member_none(q0, im, head as nat);
    lemma_members_none(q0, im, d, head as nat);
    assert(members_at(q0, im, d, (head + 1) as nat) =~= seq![im[q0[head].0 as int]->0]);
}

/// One step of the search for the nearest set vertices keeps its relation
/// to the full search.
proof fn lemma_near_order_step(
    g: &Graph,
    im: Seq<Option<usize>>,
    start: usize,
    max_depth: nat,
    v0: Seq<bool>,
    q0: Seq<(usize, usize)>,
    f0: Seq<usize>,
    b0: Option<usize>,
    v1: Seq<bool>,
    q1: Seq<(usize, usize)>,
    f1: Seq<usize>,
    b1: Option<usize>,
    head: int,
    take: bool,
    qhit: Seq<(usize, usize)>,
)
    requires
        near_inv(g, im, start as int, max_depth, v0, q0, head, f0, b0),
        near_order(g, im, start, v0, q0, head, f0, b0, qhit),
        0 <= head < q0.len(),
        take == (im[q0[head].0 as int] is Some && (b0 matches Some(b) ==> q0[head].1 <= b)),
        b1 == (if take && b0 is None { Some(q0[head].1) } else { b0 }),
        f1 == (if take { f0.push(im[q0[head].0 as int]->0) } else { f0 }),
        (take || b1 == Some(q0[head].1)) ==> v1 == v0 && q1 == q0,
        !(take || b1 == Some(q0[head].1)) ==> {
            &&& search_basic(g, start as int, v1, q1, head)
            &&& q1.len() >= q0.len()
            &&& forall|i: int| 0 <= i < q0.len() ==> #[trigger] q1[i] == q0[i]
            &&& (v1, q1) == bfs_scan(g, v0, q0, q0[head].0 as int, q0[head].1, g.adj(q0[head].0 as int).len())
        },
    ensures
        near_order(g, im, start, v1, q1, head + 1, f1, b1, if take && b0 is None { q0 } else { qhit }),
{
    reveal(near_inv);
    let n = g.num_nodes();
    let p = bfs_order(g, start);
    let depth = q0[head].1;
    lemma_members_agree(q1, q0, im, depth, head as nat);
    if b0 is None {
        if take {
            lemma_near_order_hit(g, im, start, v0, q0, head);
            assert(f0 =~= Seq::<usize>::empty());
            assert(f1 =~= seq![im[q0[head].0 as int]->0]);
            assert(near_order(g, im, start, v1, q1, head + 1, f1, b1, q0));
        } else {
            lemma_members_agree(q1, q0, im, 0, (head + 1) as nat);
            assert(first_member_depth(q0, im, (head + 1) as nat) is None);
            assert((v1, q1) == bfs_state(g, start, (head + 1) as nat));
        }
    } else {
        let d = b0->0;
        let i0 = choose|i: int| 0 <= i < head && (#[trigger] q0[i]).1 == d && im[q0[i].0 as int] is Some;
        assert(q0[i0].1 <= q0[head].1);
        lemma_members_agree(q1, q0, im, d, (head + 1) as nat);
        if !(take || b1 == Some(depth)) {
            assert forall|i: int| qhit.len() <= i < q1.len() implies (#[trigger] q1[i]).1 > d by {
                if i < q0.len() {
                    assert(q1[i] == q0[i]);
                } else {
                    assert(q1[head] == q0[head]);
                    assert(q1[head].1 <= q1[i].1);
                }
            }
            assert forall|i: int| 0 <= i < qhit.len() implies #[trigger] q1[i] == qhit[i] by {
                assert(q1[i] == q0[i]);
            }
        }
    }
}

/// The state in which the search stops yields the nearest set vertices in
/// the order the full search discovers them.
proof fn lemma_near_order_result(
    g: &Graph,
    im: Seq<Option<usize>>,
    start: usize,
    max_depth: nat,
    visited: Seq<bool>,
    q: Seq<(usize, usize)>,
    head: int,
    found: Seq<usize>,
    best: Option<usize>,
    qhit: Seq<(usize, usize)>,
)
    requires
        near_inv(g, im, start as int, max_depth, visited, q, head, found, best),
        near_order(g, im, start, visited, q, head, found, best, qhit),
        0 <= head <= q.len(),
        head == q.len() || q[head].1 > max_depth,
    ensures
        found == nearest_list(g, im, start, max_depth),
{
    reveal(near_inv);
    let n = g.num_nodes();
    let p = bfs_order(g, start);
    lemma_order_inv(g, start);
    crate::graph::lemma_count_true_le(visited);
    if best is None {
        assert(found =~= Seq::<usize>::empty());
        if head == q.len() {
            crate::search::lemma_order_complete(g, start, head as nat);
            assert(p == q);
        } else {
            lemma_state_prefix(g, start, head as nat, n);
            lemma_members_agree(p, q, im, 0, head as nat);
            lemma_first_member_extend(p, im, head as nat, p.len());
            if let Some(e) = first_member_depth(p, im, p.len()) {
                let i = choose|i: int| head <= i < p.len() && first_member_depth(p, im, p.len()) == Some((#[trigger] p[i]).1);
                assert(p[head] == q[head]);
                assert(p[head].1 <= p[i].1);
            }
        }
    } else {
        let d = best->0;
        lemma_members_skip(p, im, d, qhit.len(), p.len());
        lemma_members_agree(p, q, im, d, qhit.len());
        if head >= qhit.len() {
            lemma_members_skip(q, im, d, qhit.len(), head as nat);
        } else {
            assert forall|i: int| head <= i < qhit.len() implies (#[trigger] q[i]).1 != d by {
                assert(q[head].1 <= q[i].1);
            }
            lemma_members_skip(q, im, d, head as nat, qhit.len());
        }
    }
}

/// Breadth-first search from `start` for the vertices that have a coarse
/// index in `index_map`, up to `max_depth` edges away: returns the coarse
/// index of each such vertex at the smallest distance that has any, once per
/// vertex, in the order the search discovers them.
fn nearest_mivs_nodes(
    graph: &Graph,
    start: usize,
    index_map: &Vec<Option<usize>>,
    max_depth: usize,
) -> (found: Vec<usize>)
    requires
        graph.targets_in_range(),
        start < graph.num_nodes(),
        index_map@.len() == graph.num_nodes(),
    ensures
        found@ == nearest_list(graph, index_map@, start, max_depth as nat),
        found@.to_set() == nearest_members(graph, index_map@, start as int, max_depth as nat),
{
    let n = graph.node_count();
    let mut visited = crate::graph::all_false(n);
    proof {
        crate::graph::lemma_count_true_all_false(visited@);
        crate::graph::lemma_count_true_set(visited@, start as int);
        crate::graph::lemma_reach_zero(graph, start as int);
    }
    visited.set(start, true);
    let mut queue: VecDeque<(usize, usize)> = VecDeque::new();
    queue.push_back((start, 0));
    let mut found: Vec<usize> = Vec::new();
    let mut best_depth: Option<usize> = None;
    let ghost mut gq: Seq<(usize, usize)> = seq![(start, 0usize)];
    let ghost mut head: int = 0;
    let ghost mut qhit: Seq<(usize, usize)> = Seq::empty();
    proof {
        reveal(near_inv);
        assert(visited@ =~= bfs_state(graph, start, 0).0);
        assert(queue@ =~= gq.subrange(0, 1));
    }
    loop
        invariant_except_break
            queue@ == gq.subrange(head, gq.len() as int),
        invariant
            n == graph.num_nodes(),
            index_map@.len() == n,
            0 <= head <= gq.len(),
            near_inv(graph, index_map@, start as int, max_depth as nat, visited@, gq, head, found@, best_depth),
            near_order(graph, index_map@, start, visited@, gq, head, found@, best_depth, qhit),
        ensures
            near_inv(graph, index_map@, start as int, max_depth as nat, visited@, gq, head, found@, best_depth),
            near_order(graph, index_map@, start, visited@, gq, head, found@, best_depth, qhit),
            0 <= head <= gq.len(),
            head == gq.len() || gq[head].1 > max_depth,
        decreases n - head,
    {
        proof {
            reveal(near_inv);
            crate::graph::lemma_count_true_le(visited@);
        }
        let front = queue.pop_front();
        let (node, depth) = match front {
            None => {
                break;
            },
            Some(entry) => entry,
        };
        assert(gq[head] == (node, depth));
        assert(queue@ =~= gq.subrange(head + 1, gq.len() as int));
        if depth > max_depth {
            break;
        }
        let ghost q0 = gq;
        let ghost v0 = visited@;
        let ghost f0 = found@;
        let ghost b0 = best_depth;
        assert(node < n);
        let mut take = false;
        if let Some(idx) = index_map[node] {
            take = match best_depth {
                None => true,
                Some(b) => depth <= b,
            };
            if take {
                if best_depth.is_none() {
                    best_depth = Some(depth);
                }
                found.push(idx);
            }
        }
        let skip = take || best_depth == Some(depth);
        if !skip {
            expand_vertex(graph, node, depth, &mut visited, &mut queue, Ghost(start as int), Ghost(head), Ghost(gq));
            proof {
                let deg = graph.adj(node as int).len();
                lemma_scan(graph, start as int, v0, q0, head, deg);
                gq = bfs_scan(graph, v0, q0, node as int, depth, deg).1;
            }
        }
        proof {
            lemma_near_step(
                graph,
                index_map@,
                start as int,
                max_depth as nat,
                v0,
                q0,
                f0,
                b0,
                visited@,
                gq,
                found@,
                best_depth,
                head,
                take,
            );
            lemma_near_order_step(
                graph,
                index_map@,
                start,
                max_depth as nat,
                v0,
                q0,
                f0,
                b0,
                visited@,
                gq,
                found@,
                best_depth,
                head,
                take,
                qhit,
            );
            if take && b0 is None {
                qhit = q0;
            }
            head = head + 1;
        }
    }
    proof {
        reveal(near_inv);
        lemma_near_result(graph, index_map@, start as int, max_depth as nat, visited@, gq, head, found@, best_depth);
        lemma_near_order_result(graph, index_map@, start, max_depth as nat, visited@, gq, head, found@, best_depth, qhit);
    }
    found
}

/// The greedy independent set: vertices are taken in `order`; a vertex joins
/// the set unless it is blocked, and joining blocks it and every vertex it
/// lists. Returns the membership flags and the blocked flags.
pub open spec fn mis_state(g: &Graph, order: Seq<usize>) -> (Seq<bool>, Seq<bool>)
    decreases order.len(),
{
    if order.len() == 0 {
        (Seq::new(g.num_nodes(), |i: int| false), Seq::new(g.num_nodes(), |i: int| false))
    } else {
        let prev = mis_state(g, order.drop_last());
        let v = order.last() as int;
        if prev.1[v] {
            prev
        } else {
            (prev.0.update(v, true), Seq::new(g.num_nodes(), |x: int| x == v || prev.1[x] || g.lists(v, x)))
        }
    }
}

/// Some member of `s` lists `x`.
pub open spec fn dominated(g: &Graph, s: Seq<bool>, x: int) -> bool {
    exists|u: int| 0 <= u < g.num_nodes() && s[u] && #[trigger] g.lists(u, x)
}

/// What the greedy selection keeps at every step.
proof fn lemma_mis_inv(g: &Graph, order: Seq<usize>)
    requires
        g.wf(),
        forall|i: int| 0 <= i < order.len() ==> #[trigger] order[i] < g.num_nodes(),
    ensures
        ({
            let (s, b) = mis_state(g, order);
            &&& s.len() == g.num_nodes() && b.len() == g.num_nodes()
            &&& forall|x: int| 0 <= x < g.num_nodes() && #[trigger] s[x] ==> b[x]
            &&& forall|u: int, x: int|
                0 <= u < g.num_nodes() && 0 <= x < g.num_nodes() && s[u] && #[trigger] g.lists(u, x) ==> b[x]
            &&& forall|x: int| 0 <= x < g.num_nodes() && #[trigger] b[x] ==> s[x] || dominated(g, s, x)
            &&& forall|u: int, v: int|
                0 <= u < g.num_nodes() && 0 <= v < g.num_nodes() && s[u] && s[v] ==> !#[trigger] g.lists(u, v)
            &&& forall|j: int| 0 <= j < order.len() ==> b[#[trigger] order[j] as int]
        }),
    decreases order.len(),
{
    let n = g.num_nodes();
    if order.len() > 0 {
        let pre = order.drop_last();
        lemma_mis_inv(g, pre);
        let (s0, b0) = mis_state(g, pre);
        let (s, b) = mis_state(g, order);
        let v = order.last() as int;
        assert forall|j: int| 0 <= j < order.len() implies b[#[trigger] order[j] as int] by {
            if j < pre.len() {
                assert(pre[j] == order[j]);
            }
        }
        if !b0[v] {
            assert forall|x: int| 0 <= x < n && #[trigger] b[x] implies s[x] || dominated(g, s, x) by {
                if x != v && !g.lists(v, x) {
                    assert(b0[x]);
                    if !s0[x] {
                        let u = choose|u: int| 0 <= u < n && s0[u] && #[trigger] g.lists(u, x);
                        assert(s[u]);
                    }
                } else if x != v {
                    assert(s[v]);
                }
            }
            assert forall|u: int, w: int|
                0 <= u < n && 0 <= w < n && s[u] && s[w] implies !#[trigger] g.lists(u, w) by {
                if u == v && w != v {
                    assert(s0[w]);
                    if g.lists(v, w) {
                        crate::graph::lemma_symmetric_lists(*g, v, w);
                        assert(b0[v]);
                    }
                } else if w == v && u != v {
                    assert(s0[u]);
                    if g.lists(u, v) {
                        assert(b0[v]);
                    }
                } else if u == v && w == v {
                    if g.lists(v, v) {
                        let k = choose|k: int| 0 <= k < g.adj(v).len() && #[trigger] g.adj(v)[k].target == v;
                    }
                }
            }
        }
    }
}

/// The greedy set is independent: in a simple undirected graph no member
/// lists another member.
pub proof fn lemma_mis_independent(g: &Graph, order: Seq<usize>, u: int, v: int)
    requires
        g.wf(),
        forall|i: int| 0 <= i < order.len() ==> #[trigger] order[i] < g.num_nodes(),
        0 <= u < g.num_nodes(),
        0 <= v < g.num_nodes(),
        mis_state(g, order).0[u],
        mis_state(g, order).0[v],
    ensures
        !g.lists(u, v),
{
    lemma_mis_inv(g, order);
}

/// The greedy set is maximal: every vertex of the order is a member or is
/// listed by a member.
pub proof fn lemma_mis_maximal(g: &Graph, order: Seq<usize>, x: usize)
    requires
        g.wf(),
        forall|i: int| 0 <= i < order.len() ==> #[trigger] order[i] < g.num_nodes(),
        x < g.num_nodes(),
        order.contains(x),
    ensures
        mis_state(g, order).0[x as int] || dominated(g, mis_state(g, order).0, x as int),
{
    lemma_mis_inv(g, order);
    let j = choose|j: int| 0 <= j < order.len() && order[j] == x;
    assert(mis_state(g, order).1[order[j] as int]);
}

/// The greedy independent set of `g` taken in `order`, as membership flags.
fn select_independent(g: &Graph, order: &Vec<usize>) -> (in_set: Vec<bool>)
    requires
        g.targets_in_range(),
        forall|i: int| 0 <= i < order@.len() ==> #[trigger] order@[i] < g.num_nodes(),
    ensures
        in_set@ == mis_state(g, order@).0,
{
    let n = g.node_count();
    let mut in_set = crate::graph::all_false(n);
    let mut blocked = crate::graph::all_false(n);
    assert(in_set@ =~= mis_state(g, order@.take(0)).0);
    assert(blocked@ =~= mis_state(g, order@.take(0)).1);
    let mut i: usize = 0;
    while i < order.len()
        invariant
            n == g.num_nodes(),
            g.targets_in_range(),
            forall|j: int| 0 <= j < order@.len() ==> #[trigger] order@[j] < n,
            i <= order@.len(),
            in_set@ == mis_state(g, order@.take(i as int)).0,
            blocked@ == mis_state(g, order@.take(i as int)).1,
            in_set@.len() == n,
            blocked@.len() == n,
        decreases order@.len() - i,
    {
        let v = order[i];
        proof {
            assert(order@.take(i + 1).drop_last() =~= order@.take(i as int));
            assert(order@.take(i + 1).last() == v);
        }
        if !blocked[v] {
            let ghost mid = blocked@;
            in_set.set(v, true);
            blocked.set(v, true);
            let deg = g.nodes[v].neighbors.len();
            let mut k: usize = 0;
            while k < deg
                invariant
                    n == g.num_nodes(),
                    g.targets_in_range(),
                    v < n,
                    deg == g.adj(v as int).len(),
                    k <= deg,
                    mid.len() == n,
                    blocked@ =~= Seq::new(
                        n as nat,
                        |x: int| x == v || mid[x] || crate::graph::lists_target(g.adj(v as int).take(k as int), x),
                    ),
                decreases deg - k,
            {
                let t = g.nodes[v].neighbors[k].target;
                assert(g.adj(v as int)[k as int].target == t);
                blocked.set(t, true);
                proof {
                    let nb = g.adj(v as int);
                    assert forall|x: int| 0 <= x < n implies blocked@[x] == (x == v || mid[x]
                        || crate::graph::lists_target(nb.take(k + 1), x)) by {
                        if crate::graph::lists_target(nb.take(k as int), x) {
                            let j = choose|j: int| 0 <= j < nb.take(k as int).len() && #[trigger] nb.take(k as int)[j].target == x;
                            assert(nb.take(k + 1)[j] == nb.take(k as int)[j]);
                        }
                        if crate::graph::lists_target(nb.take(k + 1), x) {
                            let j = choose|j: int| 0 <= j < nb.take(k + 1).len() && #[trigger] nb.take(k + 1)[j].target == x;
                            if j < k {
                                assert(nb.take(k + 1)[j] == nb.take(k as int)[j]);
                            }
                        }
                        if x == t {
                            assert(nb.take(k + 1)[k as int].target == x);
                        }
                    }
                }
                k += 1;
            }
            assert(g.adj(v as int).take(deg as int) =~= g.adj(v as int));
            assert(blocked@ =~= mis_state(g, order@.take(i + 1)).1);
            assert(in_set@ =~= mis_state(g, order@.take(i + 1)).0);
        }
        i += 1;
    }
    assert(order@.take(i as int) =~= order@);
    in_set
}

/// The coarse index of a set vertex: how many set vertices come before it.
pub open spec fn rank(s: Seq<bool>, v: int) -> nat {
    crate::graph::count_true(s.take(v))
}

/// For each vertex, its coarse index if it belongs to the set `s`.
pub open spec fn coarse_index_map(s: Seq<bool>) -> Seq<Option<usize>> {
    Seq::new(s.len(), |v: int| if s[v] { Some(rank(s, v) as usize) } else { None })
}

/// Numbers the set vertices in increasing vertex order: returns the map from
/// vertex to coarse index and the number of set vertices.
fn build_index_map(in_set: &Vec<bool>) -> (res: (Vec<Option<usize>>, usize))
    ensures
        res.0@ == coarse_index_map(in_set@),
        res.1 == crate::graph::count_true(in_set@),
{
    let mut index_map: Vec<Option<usize>> = Vec::new();
    let mut count: usize = 0;
    let mut v: usize = 0;
    while v < in_set.len()
        invariant
            v <= in_set@.len(),
            count == crate::graph::count_true(in_set@.take(v as int)),
            index_map@ =~= coarse_index_map(in_set@).take(v as int),
        decreases in_set@.len() - v,
    {
        proof {
            assert(in_set@.take(v + 1).drop_last() =~= in_set@.take(v as int));
            crate::graph::lemma_count_true_le(in_set@.take(v as int));
        }
        if in_set[v] {
            index_map.push(Some(count));
            count = count + 1;
        } else {
            index_map.push(None);
        }
        v += 1;
    }
    assert(in_set@.take(v as int) =~= in_set@);
    (index_map, count)
}

/// The coarse indices of the set vertices listed by `v`.
pub open spec fn neighbor_index_set(g: &Graph, im: Seq<Option<usize>>, v: int) -> Set<usize> {
    Set::new(
        |c: usize|
            exists|k: int|
                0 <= k < g.adj(v).len() && #[trigger] im[g.adj(v)[k].target as int] == Some(c),
    )
}

/// The coarse indices of the set vertices listed by `v`, in list order.
fn neighbor_indices(g: &Graph, im: &Vec<Option<usize>>, v: usize) -> (res: Vec<usize>)
    requires
        g.targets_in_range(),
        v < g.num_nodes(),
        im@.len() == g.num_nodes(),
    ensures
        res@.to_set() == neighbor_index_set(g, im@, v as int),
{
    let mut res: Vec<usize> = Vec::new();
    let deg = g.nodes[v].neighbors.len();
    let mut k: usize = 0;
    while k < deg
        invariant
            g.targets_in_range(),
            v < g.num_nodes(),
            im@.len() == g.num_nodes(),
            deg == g.adj(v as int).len(),
            k <= deg,
            forall|c: usize|
                res@.contains(c) <==> exists|j: int|
                    0 <= j < k && #[trigger] im@[g.adj(v as int)[j].target as int] == Some(c),
        decreases deg - k,
    {
        let t = g.nodes[v].neighbors[k].target;
        assert(g.adj(v as int)[k as int].target == t);
        let ghost r0 = res@;
        if let Some(c) = im[t] {
            res.push(c);
        }
        proof {
            assert forall|c: usize| res@.contains(c) <==> exists|j: int|
                0 <= j < k + 1 && #[trigger] im@[g.adj(v as int)[j].target as int] == Some(c) by {
                if res@.contains(c) {
                    let i = choose|i: int| 0 <= i < res@.len() && res@[i] == c;
                    if i < r0.len() {
                        assert(r0[i] == c);
                        assert(r0.contains(c));
                    } else {
                        assert(im@[g.adj(v as int)[k as int].target as int] == Some(c));
                    }
                }
                if exists|j: int| 0 <= j < k + 1 && #[trigger] im@[g.adj(v as int)[j].target as int] == Some(c) {
                    let j = choose|j: int| 0 <= j < k + 1 && #[trigger] im@[g.adj(v as int)[j].target as int] == Some(c);
                    if j < k {
                        assert(r0.contains(c));
                        let i = choose|i: int| 0 <= i < r0.len() && #[trigger] r0[i] == c;
                        assert(res@[i] == c);
                    } else {
                        assert(res@.last() == c);
                    }
                }
            }
        }
        k += 1;
    }
    proof {
        assert(res@.to_set() =~= neighbor_index_set(g, im@, v as int));
    }
    res
}

pub open spec fn strictly_increasing(s: Seq<usize>) -> bool {
    forall|i: int, j: int| 0 <= i < j < s.len() ==> s[i] < s[j]
}

/// `r` lists the elements of `set` in increasing order, each once.
pub open spec fn sorted_listing(r: Seq<usize>, set: Set<usize>) -> bool {
    strictly_increasing(r) && r.to_set() == set
}

/// The distinct elements of `v` in increasing order.
fn sort_dedup(v: &Vec<usize>) -> (res: Vec<usize>)
    ensures
        sorted_listing(res@, v@.to_set()),
{
    let mut res: Vec<usize> = Vec::new();
    let mut i: usize = 0;
    while i < v.len()
        invariant
            i <= v@.len(),
            strictly_increasing(res@),
            res@.to_set() == v@.take(i as int).to_set(),
        decreases v@.len() - i,
    {
        let x = v[i];
        let mut p: usize = 0;
        while p < res.len() && res[p] < x
            invariant
                p <= res@.len(),
                forall|j: int| 0 <= j < p ==> res@[j] < x,
            decreases res@.len() - p,
        {
            p += 1;
        }
        let ghost r0 = res@;
        if p < res.len() && res[p] == x {
        } else {
            res.insert(p, x);
            proof {
                assert forall|a: int, b: int| 0 <= a < b < res@.len() implies res@[a] < res@[b] by {
                    if b < p {
                        assert(res@[a] == r0[a] && res@[b] == r0[b]);
                    } else if b == p {
                        assert(res@[a] == r0[a]);
                    } else if a < p {
                        assert(res@[a] == r0[a] && res@[b] == r0[b - 1]);
                    } else if a == p {
                        assert(res@[b] == r0[b - 1]);
                        assert(r0[p as int] >= x);
                        if b - 1 > p {
                            assert(r0[p as int] < r0[b - 1]);
                        }
                    } else {
                        assert(res@[a] == r0[a - 1] && res@[b] == r0[b - 1]);
                    }
                }
            }
        }
        proof {
            assert(v@.take(i + 1) =~= v@.take(i as int).push(x));
            assert forall|c: usize| res@.to_set().contains(c) <==> v@.take(i + 1).to_set().contains(c) by {
                if res@.contains(c) {
                    let k = choose|k: int| 0 <= k < res@.len() && #[trigger] res@[k] == c;
                    if c != x {
                        if res@.len() != r0.len() {
                            if k < p {
                                assert(r0[k] == c);
                            } else {
                                assert(r0[k - 1] == c);
                            }
                        } else {
                            assert(r0[k] == c);
                        }
                        assert(r0.contains(c));
                        assert(r0.to_set().contains(c));
                        assert(v@.take(i as int).to_set().contains(c));
                        assert(v@.take(i as int).contains(c));
                        let m = choose|m: int| 0 <= m < i && #[trigger] v@.take(i as int)[m] == c;
                        assert(v@.take(i + 1)[m] == c);
                    } else {
                        assert(v@.take(i + 1)[i as int] == c);
                    }
                }
                if v@.take(i + 1).contains(c) {
                    let m = choose|m: int| 0 <= m < i + 1 && #[trigger] v@.take(i + 1)[m] == c;
                    if m < i {
                        assert(v@.take(i as int)[m] == c);
                        assert(r0.to_set().contains(c));
                        let k = choose|k: int| 0 <= k < r0.len() && #[trigger] r0[k] == c;
                        if res@.len() != r0.len() {
                            if k < p {
                                assert(res@[k] == c);
                            } else {
                                assert(res@[k + 1] == c);
                            }
                        } else {
                            assert(res@[k] == c);
                        }
                    } else {
                        assert(c == x);
                        if res@.len() != r0.len() {
                            assert(res@[p as int] == x);
                        } else {
                            assert(res@[p as int] == x);
                        }
                    }
                }
            }
            assert(res@.to_set() =~= v@.take(i + 1).to_set());
        }
        i += 1;
    }
    assert(v@.take(i as int) =~= v@);
    res
}

/// The greedy selection yields flags for every vertex.
proof fn lemma_mis_len(g: &Graph, order: Seq<usize>)
    requires
        forall|i: int| 0 <= i < order.len() ==> #[trigger] order[i] < g.num_nodes(),
    ensures
        mis_state(g, order).0.len() == g.num_nodes(),
        mis_state(g, order).1.len() == g.num_nodes(),
    decreases order.len(),
{
    if order.len() > 0 {
        lemma_mis_len(g, order.drop_last());
    }
}

/// The first vertex of the order always joins the set.
pub proof fn lemma_mis_first(g: &Graph, order: Seq<usize>)
    requires
        order.len() >= 1,
        forall|i: int| 0 <= i < order.len() ==> #[trigger] order[i] < g.num_nodes(),
    ensures
        mis_state(g, order).0[order[0] as int],
    decreases order.len(),
{
    lemma_mis_len(g, order);
    assert(order[0] < g.num_nodes());
    if order.len() > 1 {
        let pre = order.drop_last();
        assert(pre[0] == order[0]);
        lemma_mis_first(g, pre);
        lemma_mis_len(g, pre);
    } else {
        lemma_mis_len(g, order.drop_last());
    }
}

/// A coarsening: the size of the coarse graph and, for each fine vertex, the
/// coarse vertices it is interpolated from, in increasing order. A fine
/// vertex takes an equal share of each coarse vertex of its list.
#[derive(Debug, Clone)]
pub struct CoarsenResult {
    pub coarse_count: usize,
    pub prolongation: Vec<Vec<usize>>,
    pub used_strategy: CoarseningStrategy,
}

/// The coarse vertices of fine vertex `v` under the independent-set scheme
/// with vertex order `order`: a set vertex maps to itself; another vertex to
/// the set vertices it lists; failing those, to the nearest set vertices
/// within three edges; failing those, to the first vertex of the order.
pub open spec fn mivs_row(g: &Graph, order: Seq<usize>, v: int) -> Set<usize> {
    let s = mis_state(g, order).0;
    let im = coarse_index_map(s);
    if s[v] {
        set![rank(s, v) as usize]
    } else if neighbor_index_set(g, im, v) != Set::<usize>::empty() {
        neighbor_index_set(g, im, v)
    } else if nearest_members(g, im, v, 3) != Set::<usize>::empty() {
        nearest_members(g, im, v, 3)
    } else {
        set![rank(s, order[0] as int) as usize]
    }
}

/// What the independent-set scheme yields for vertex order `order`: nothing
/// when the graph has at most one vertex or the set keeps every vertex;
/// otherwise one coarse vertex per set vertex and the rows of `mivs_row`.
pub open spec fn mivs_outcome(g: &Graph, order: Seq<usize>, res: Option<CoarsenResult>) -> bool {
    let s = mis_state(g, order).0;
    let c = crate::graph::count_true(s);
    if g.num_nodes() <= 1 || c == 0 || c == g.num_nodes() {
        res is None
    } else {
        &&& res matches Some(r)
        &&& r.coarse_count == c
        &&& r.used_strategy == CoarseningStrategy::Mivs
        &&& r.prolongation@.len() == g.num_nodes()
        &&& forall|v: int|
            0 <= v < g.num_nodes() ==> sorted_listing(#[trigger] r.prolongation@[v]@, mivs_row(g, order, v))
    }
}

proof fn lemma_singleton_to_set(c: usize)
    ensures
        seq![c].to_set() == set![c],
{
    assert(seq![c][0] == c);
    assert(seq![c].to_set() =~= set![c]);
}

proof fn lemma_empty_iff(s: Seq<usize>)
    ensures
        (s.len() == 0) == (s.to_set() == Set::<usize>::empty()),
{
    if s.len() > 0 {
        assert(s.to_set().contains(s[0]));
    } else {
        assert(s.to_set() =~= Set::<usize>::empty());
    }
}

/// The first coarse index in vertex order.
fn first_index(im: &Vec<Option<usize>>) -> (res: Option<usize>)
    ensures
        res matches Some(c) ==> exists|v: int| 0 <= v < im@.len() && im@[v] == Some(c),
        res is None ==> forall|v: int| 0 <= v < im@.len() ==> im@[v] is None,
{
    let mut v: usize = 0;
    while v < im.len()
        invariant
            v <= im@.len(),
            forall|u: int| 0 <= u < v ==> im@[u] is None,
        decreases im@.len() - v,
    {
        if let Some(c) = im[v] {
            return Some(c);
        }
        v += 1;
    }
    None
}

/// The independent-set coarsening for a given vertex order: the greedy
/// independent set taken in `order` becomes the coarse graph, and every
/// other vertex is interpolated from the set vertices nearest to it.
pub fn mivs_with_order(graph: &Graph, order: &Vec<usize>) -> (res: Option<CoarsenResult>)
    requires
        graph.targets_in_range(),
        order@.len() >= 1,
        forall|i: int| 0 <= i < order@.len() ==> #[trigger] order@[i] < graph.num_nodes(),
    ensures
        mivs_outcome(graph, order@, res),
{
    let n = graph.node_count();
    if n <= 1 {
        return None;
    }
    let in_set = select_independent(graph, order);
    let (index_map, coarse_count) = build_index_map(&in_set);
    proof {
        lemma_mis_len(graph, order@);
        lemma_mis_first(graph, order@);
    }
    if coarse_count == 0 {
        return None;
    }
    if coarse_count == n {
        return None;
    }
    let ghost s = in_set@;
    let ghost im = index_map@;
    let mut prolongation: Vec<Vec<usize>> = Vec::new();
    let mut v: usize = 0;
    while v < n
        invariant
            n == graph.num_nodes(),
            graph.targets_in_range(),
            order@.len() >= 1,
            forall|i: int| 0 <= i < order@.len() ==> #[trigger] order@[i] < n,
            s == mis_state(graph, order@).0,
            s.len() == n,
            s[order@[0] as int],
            index_map@ == im,
            im == coarse_index_map(s),
            v <= n,
            prolongation@.len() == v,
            forall|u: int|
                0 <= u < v ==> sorted_listing(#[trigger] prolongation@[u]@, mivs_row(graph, order@, u)),
        decreases n - v,
    {
        let row: Vec<usize>;
        if let Some(c) = index_map[v] {
            let mut r: Vec<usize> = Vec::new();
            r.push(c);
            proof {
                assert(r@ =~= seq![c]);
                lemma_singleton_to_set(c);
            }
            row = r;
        } else {
            let mut cands = neighbor_indices(graph, &index_map, v);
            proof {
                lemma_empty_iff(cands@);
            }
            if cands.len() == 0 {
                cands = nearest_mivs_nodes(graph, v, &index_map, 3);
                proof {
                    lemma_empty_iff(cands@);
                }
            }
            if cands.len() == 0 {
                let first = order[0];
                match index_map[first] {
                    Some(c) => {
                        cands.push(c);
                        proof {
                            assert(cands@ =~= seq![c]);
                            lemma_singleton_to_set(c);
                        }
                    },
                    None => {
                        match first_index(&index_map) {
                            Some(c) => {
                                cands.push(c);
                            },
                            None => {
                                return None;
                            },
                        }
                    },
                }
            }
            row = sort_dedup(&cands);
        }
        prolongation.push(row);
        proof {
            assert(prolongation@[v as int] == row);
        }
        v += 1;
    }
    Some(CoarsenResult { coarse_count, prolongation, used_strategy: CoarseningStrategy::Mivs })
}

/// The independent-set coarsening with a random vertex order.
fn mivs(graph: &Graph, rng: &mut StdRng) -> (res: Option<CoarsenResult>)
    requires
        graph.targets_in_range(),
    ensures
        graph.num_nodes() <= 1 ==> res is None,
        graph.num_nodes() > 1 ==> exists|order: Seq<usize>|
            is_order_of(order, graph.num_nodes()) && #[trigger] mivs_outcome(graph, order, res),
{
    let n = graph.node_count();
    if n <= 1 {
        return None;
    }
    let order = random_order(n, rng);
    let res = mivs_with_order(graph, &order);
    assert(is_order_of(order@, graph.num_nodes()) && mivs_outcome(graph, order@, res));
    res
}

/// Order key of negative infinity. Keys at or below it (negative infinity
/// and negative NaNs) are never preferred by the edge collapse.
pub const NEG_INFINITY_KEY: u64 = 0x000F_FFFF_FFFF_FFFF;

/// Order key of positive infinity. Keys above it are NaNs, which are never
/// preferred by the edge collapse.
pub const POS_INFINITY_KEY: u64 = 0xFFF0_0000_0000_0000;

/// Scanning the neighbors of `u` in the order `perm` (positions in the
/// adjacency list), the heaviest unmatched neighbor among the first `k`:
/// a later neighbor replaces the current choice only when its weight key is
/// strictly greater. Returns the choice and its key.
pub open spec fn pick_heaviest(g: &Graph, matched: Seq<bool>, u: int, perm: Seq<usize>, k: nat) -> (Option<usize>, u64)
    decreases k,
{
    if k == 0 {
        (None, NEG_INFINITY_KEY)
    } else {
        let prev = pick_heaviest(g, matched, u, perm, (k - 1) as nat);
        let nb = g.adj(u)[perm[k - 1] as int];
        if !matched[nb.target as int] && nb.weight <= POS_INFINITY_KEY && nb.weight > prev.1 {
            (Some(nb.target), nb.weight)
        } else {
            prev
        }
    }
}

/// The edge collapse for vertex order `order` and neighbor orders `perms`
/// (`perms[j]` is used when vertex `order[j]` is visited): each vertex not yet
/// matched is matched with its heaviest unmatched neighbor, if any, and the
/// pair (or the vertex alone) becomes a group. Returns the matched flags and
/// the groups in order of creation.
pub open spec fn collapse_state(g: &Graph, order: Seq<usize>, perms: Seq<Seq<usize>>) -> (Seq<bool>, Seq<Seq<usize>>)
    decreases order.len(),
{
    if order.len() == 0 {
        (Seq::new(g.num_nodes(), |i: int| false), Seq::empty())
    } else {
        let j = order.len() - 1;
        let prev = collapse_state(g, order.drop_last(), perms);
        let u = order[j];
        if prev.0[u as int] {
            prev
        } else {
            let m1 = prev.0.update(u as int, true);
            match pick_heaviest(g, m1, u as int, perms[j], g.adj(u as int).len()).0 {
                Some(v) => (m1.update(v as int, true), prev.1.push(seq![u, v])),
                None => (m1, prev.1.push(seq![u])),
            }
        }
    }
}

/// `perms` holds, for every position of `order`, an order of the adjacency
/// list of the vertex at that position.
pub open spec fn perms_fit(g: &Graph, order: Seq<usize>, perms: Seq<Seq<usize>>) -> bool {
    &&& perms.len() >= order.len()
    &&& forall|j: int|
        0 <= j < order.len() ==> is_order_of(#[trigger] perms[j], g.adj(order[j] as int).len())
}

/// What the edge collapse yields for vertex order `order` and neighbor
/// orders `perms`: nothing when the graph has at most one vertex or no pair
/// was formed; otherwise one coarse vertex per group, each fine vertex
/// mapped to a group that holds it.
pub open spec fn collapse_outcome(g: &Graph, order: Seq<usize>, perms: Seq<Seq<usize>>, res: Option<CoarsenResult>) -> bool {
    if g.num_nodes() <= 1 || collapse_state(g, order, perms).1.len() == g.num_nodes() {
        res is None
    } else {
        res is Some && collapse_result(g, collapse_state(g, order, perms).1, res.unwrap())
    }
}

/// `r` is the coarsening given by the groups `groups`: one coarse vertex per
/// group, each fine vertex mapped to a group that holds it.
pub open spec fn collapse_result(g: &Graph, groups: Seq<Seq<usize>>, r: CoarsenResult) -> bool {
    &&& r.coarse_count == groups.len()
    &&& r.used_strategy == CoarseningStrategy::EdgeCollapse
    &&& r.prolongation@.len() == g.num_nodes()
    &&& forall|f: int| 0 <= f < g.num_nodes() ==> group_row(groups, #[trigger] r.prolongation@[f]@, f)
}

/// `row` names exactly one group, and that group holds `f`.
pub open spec fn group_row(groups: Seq<Seq<usize>>, row: Seq<usize>, f: int) -> bool {
    exists|c: int| 0 <= c < groups.len() && #[trigger] groups[c].contains(f as usize) && row == seq![c as usize]
}

/// The chosen neighbor is an unmatched vertex listed by `u`.
proof fn lemma_pick(g: &Graph, matched: Seq<bool>, u: int, perm: Seq<usize>, k: nat)
    requires
        0 <= u < g.num_nodes(),
        k <= perm.len(),
        forall|i: int| 0 <= i < perm.len() ==> #[trigger] perm[i] < g.adj(u).len(),
    ensures
        pick_heaviest(g, matched, u, perm, k).0 matches Some(v) ==> !matched[v as int] && g.lists(u, v as int),
    decreases k,
{
    if k > 0 {
        lemma_pick(g, matched, u, perm, (k - 1) as nat);
        let nb = g.adj(u)[perm[k - 1] as int];
        assert(g.adj(u)[perm[k - 1] as int].target == nb.target);
    }
}

/// A weight key that the edge collapse can prefer: a number above negative
/// infinity (not a NaN).
pub open spec fn preferable(w: u64) -> bool {
    NEG_INFINITY_KEY < w <= POS_INFINITY_KEY
}

/// The entry at position `i` of the list of `u` leads to an unmatched vertex
/// over an edge of preferable weight.
pub open spec fn candidate(g: &Graph, matched: Seq<bool>, u: int, i: int) -> bool {
    !matched[g.adj(u)[i].target as int] && preferable(g.adj(u)[i].weight)
}

/// The neighbor chosen for `u` is a heaviest unmatched one. Among the first
/// `k` entries scanned in the order `perm`, every candidate weighs at most
/// the choice; the choice is a candidate, and no candidate scanned before it
/// weighs as much; there is no choice exactly when no entry scanned is a
/// candidate.
pub proof fn lemma_pick_heaviest(g: &Graph, matched: Seq<bool>, u: int, perm: Seq<usize>, k: nat)
    requires
        k <= perm.len(),
    ensures
        ({
            let p = pick_heaviest(g, matched, u, perm, k);
            &&& forall|i: int| 0 <= i < k && #[trigger] candidate(g, matched, u, perm[i] as int) ==> g.adj(u)[perm[i] as int].weight <= p.1
            &&& p.0 is None <==> forall|i: int| 0 <= i < k ==> !#[trigger] candidate(g, matched, u, perm[i] as int)
            &&& p.0 matches Some(v) ==> exists|i: int|
                0 <= i < k && #[trigger] candidate(g, matched, u, perm[i] as int) && g.adj(u)[perm[i] as int].target == v
                    && g.adj(u)[perm[i] as int].weight == p.1 && forall|j: int|
                    0 <= j < i && #[trigger] candidate(g, matched, u, perm[j] as int) ==> g.adj(u)[perm[j] as int].weight < p.1
            &&& p.0 is None ==> p.1 == NEG_INFINITY_KEY
            &&& p.1 >= NEG_INFINITY_KEY
        }),
    decreases k,
{
    if k > 0 {
        lemma_pick_heaviest(g, matched, u, perm, (k - 1) as nat);
        let prev = pick_heaviest(g, matched, u, perm, (k - 1) as nat);
        let p = pick_heaviest(g, matched, u, perm, k);
        let nb = g.adj(u)[perm[k - 1] as int];
        if !matched[nb.target as int] && nb.weight <= POS_INFINITY_KEY && nb.weight > prev.1 {
            assert(candidate(g, matched, u, perm[k - 1] as int));
            assert forall|j: int| 0 <= j < k - 1 && #[trigger] candidate(g, matched, u, perm[j] as int) implies g.adj(u)[perm[j] as int].weight < p.1 by {
            }
        } else {
            if let Some(v) = p.0 {
                let i = choose|i: int|
                    0 <= i < k - 1 && #[trigger] candidate(g, matched, u, perm[i] as int) && g.adj(u)[perm[i] as int].target == v
                        && g.adj(u)[perm[i] as int].weight == prev.1 && forall|j: int|
                        0 <= j < i && #[trigger] candidate(g, matched, u, perm[j] as int) ==> g.adj(u)[perm[j] as int].weight < prev.1;
                assert(0 <= i < k && candidate(g, matched, u, perm[i] as int));
            }
        }
    }
}

/// The groups of the edge collapse so far: each is a vertex, or a vertex and
/// a vertex it lists; every vertex occurs at most once in all groups; the
/// matched vertices are exactly those that occur; every visited vertex is
/// matched.
pub open spec fn groups_partition(g: &Graph, order: Seq<usize>, m: Seq<bool>, gr: Seq<Seq<usize>>) -> bool {
    let n = g.num_nodes();
    &&& m.len() == n
    &&& forall|c: int|
        0 <= c < gr.len() ==> {
            &&& 1 <= (#[trigger] gr[c]).len() <= 2
            &&& forall|k: int| 0 <= k < gr[c].len() ==> #[trigger] gr[c][k] < n
            &&& gr[c].len() == 2 ==> gr[c][0] != gr[c][1] && g.lists(gr[c][0] as int, gr[c][1] as int)
        }
    &&& forall|x: int| 0 <= x < n ==> (#[trigger] m[x] <==> exists|c: int, k: int|
        0 <= c < gr.len() && 0 <= k < gr[c].len() && #[trigger] gr[c][k] == x)
    &&& forall|c1: int, k1: int, c2: int, k2: int|
        0 <= c1 < gr.len() && 0 <= k1 < gr[c1].len() && 0 <= c2 < gr.len() && 0 <= k2 < gr[c2].len()
            && #[trigger] gr[c1][k1] == #[trigger] gr[c2][k2] ==> c1 == c2 && k1 == k2
    &&& forall|j: int| 0 <= j < order.len() ==> m[#[trigger] order[j] as int]
}

/// The edge collapse keeps its groups a partition of the visited vertices.
pub proof fn lemma_collapse_partition(g: &Graph, order: Seq<usize>, perms: Seq<Seq<usize>>)
    requires
        g.targets_in_range(),
        forall|i: int| 0 <= i < order.len() ==> #[trigger] order[i] < g.num_nodes(),
        perms_fit(g, order, perms),
    ensures
        groups_partition(g, order, collapse_state(g, order, perms).0, collapse_state(g, order, perms).1),
    decreases order.len(),
{
    let n = g.num_nodes();
    if order.len() > 0 {
        let j = order.len() - 1;
        let pre = order.drop_last();
        assert forall|i: int| 0 <= i < pre.len() implies is_order_of(#[trigger] perms[i], g.adj(pre[i] as int).len()) by {
            assert(pre[i] == order[i]);
            assert(is_order_of(perms[i], g.adj(order[i] as int).len()));
        }
        lemma_collapse_partition(g, pre, perms);
        let (m0, gr0) = collapse_state(g, pre, perms);
        let (m, gr) = collapse_state(g, order, perms);
        let u = order[j];
        assert(u < n);
        if !m0[u as int] {
            let m1 = m0.update(u as int, true);
            assert(is_order_of(perms[j], g.adj(u as int).len()));
            lemma_pick(g, m1, u as int, perms[j], g.adj(u as int).len());
            if let Some(v) = pick_heaviest(g, m1, u as int, perms[j], g.adj(u as int).len()).0 {
                let k = choose|k: int| 0 <= k < g.adj(u as int).len() && #[trigger] g.adj(u as int)[k].target == v as int;
                assert(g.adj(u as int)[k].target < n);
            }
        }
        assert(forall|x: int| 0 <= x < n && m0[x] ==> m[x]);
        assert(m[u as int]);
        assert forall|i: int| 0 <= i < order.len() implies m[#[trigger] order[i] as int] by {
            if i < j {
                assert(pre[i] == order[i]);
                assert(m0[pre[i] as int]);
            }
        }
        if !m0[u as int] {
            let m1 = m0.update(u as int, true);
            assert(is_order_of(perms[j], g.adj(u as int).len()));
            lemma_pick(g, m1, u as int, perms[j], g.adj(u as int).len());
            let pick = pick_heaviest(g, m1, u as int, perms[j], g.adj(u as int).len()).0;
            let grp = gr[gr.len() - 1];
            assert forall|x: int| 0 <= x < n implies (#[trigger] m[x] <==> exists|c: int, k: int|
                0 <= c < gr.len() && 0 <= k < gr[c].len() && #[trigger] gr[c][k] == x) by {
                if m0[x] {
                    let (c, k) = choose|c: int, k: int| 0 <= c < gr0.len() && 0 <= k < gr0[c].len() && #[trigger] gr0[c][k] == x;
                    assert(gr[c] == gr0[c]);
                }
                if exists|c: int, k: int| 0 <= c < gr.len() && 0 <= k < gr[c].len() && #[trigger] gr[c][k] == x {
                    let (c, k) = choose|c: int, k: int| 0 <= c < gr.len() && 0 <= k < gr[c].len() && #[trigger] gr[c][k] == x;
                    if c < gr0.len() {
                        assert(gr[c] == gr0[c]);
                    }
                }
                if x == u as int {
                    assert(gr[gr.len() - 1][0] == u);
                }
                if let Some(v) = pick {
                    if x == v as int {
                        assert(gr[gr.len() - 1][1] == v);
                    }
                }
            }
            assert forall|c1: int, k1: int, c2: int, k2: int|
                0 <= c1 < gr.len() && 0 <= k1 < gr[c1].len() && 0 <= c2 < gr.len() && 0 <= k2 < gr[c2].len()
                    && #[trigger] gr[c1][k1] == #[trigger] gr[c2][k2] implies c1 == c2 && k1 == k2 by {
                if c1 < gr0.len() {
                    assert(gr[c1] == gr0[c1]);
                    assert(m0[gr0[c1][k1] as int]);
                }
                if c2 < gr0.len() {
                    assert(gr[c2] == gr0[c2]);
                    assert(m0[gr0[c2][k2] as int]);
                }
            }
            assert forall|c: int| 0 <= c < gr.len() implies {
                &&& 1 <= (#[trigger] gr[c]).len() <= 2
                &&& forall|k: int| 0 <= k < gr[c].len() ==> #[trigger] gr[c][k] < n
                &&& gr[c].len() == 2 ==> gr[c][0] != gr[c][1] && g.lists(gr[c][0] as int, gr[c][1] as int)
            } by {
                if c < gr0.len() {
                    assert(gr[c] == gr0[c]);
                } else if let Some(v) = pick {
                    let k = choose|k: int| 0 <= k < g.adj(u as int).len() && #[trigger] g.adj(u as int)[k].target == v as int;
                    assert(g.adj(u as int)[k].target < n);
                }
            }
        }
    }
}

/// Every vertex that an unpaired vertex reaches over an edge of preferable
/// weight is in a pair.
pub open spec fn singles_covered(g: &Graph, gr: Seq<Seq<usize>>) -> bool {
    forall|c: int, k: int|
        #![trigger g.adj(gr[c][0] as int)[k]]
        0 <= c < gr.len() && gr[c].len() == 1 && 0 <= k < g.adj(gr[c][0] as int).len() && preferable(
            g.adj(gr[c][0] as int)[k].weight,
        ) ==> exists|c2: int|
            0 <= c2 < gr.len() && gr[c2].len() == 2 && (#[trigger] gr[c2]).contains(g.adj(gr[c][0] as int)[k].target)
}

proof fn lemma_collapse_covered(g: &Graph, order: Seq<usize>, perms: Seq<Seq<usize>>)
    requires
        g.wf(),
        forall|u: int| 0 <= u < g.num_nodes() ==> #[trigger] g.adj(u).len() <= usize::MAX,
        forall|i: int| 0 <= i < order.len() ==> #[trigger] order[i] < g.num_nodes(),
        perms_fit(g, order, perms),
    ensures
        singles_covered(g, collapse_state(g, order, perms).1),
    decreases order.len(),
{
    let n = g.num_nodes();
    if order.len() > 0 {
        let j = order.len() - 1;
        let pre = order.drop_last();
        assert forall|i: int| 0 <= i < pre.len() implies is_order_of(#[trigger] perms[i], g.adj(pre[i] as int).len()) by {
            assert(pre[i] == order[i]);
            assert(is_order_of(perms[i], g.adj(order[i] as int).len()));
        }
        assert forall|i: int| 0 <= i < pre.len() implies #[trigger] pre[i] < n by {
            assert(pre[i] == order[i]);
        }
        lemma_collapse_covered(g, pre, perms);
        lemma_collapse_partition(g, pre, perms);
        let (m0, gr0) = collapse_state(g, pre, perms);
        let (m, gr) = collapse_state(g, order, perms);
        let u = order[j];
        if !m0[u as int] {
            let m1 = m0.update(u as int, true);
            let deg = g.adj(u as int).len();
            assert(is_order_of(perms[j], deg));
            lemma_pick_heaviest(g, m1, u as int, perms[j], deg);
            assert forall|c: int, k: int|
                #![trigger g.adj(gr[c][0] as int)[k]]
                0 <= c < gr.len() && gr[c].len() == 1 && 0 <= k < g.adj(gr[c][0] as int).len() && preferable(
                    g.adj(gr[c][0] as int)[k].weight,
                ) implies exists|c2: int|
                0 <= c2 < gr.len() && gr[c2].len() == 2 && (#[trigger] gr[c2]).contains(g.adj(gr[c][0] as int)[k].target) by {
                if c < gr0.len() {
                    assert(gr[c] == gr0[c]);
                    let c2 = choose|c2: int|
                        0 <= c2 < gr0.len() && gr0[c2].len() == 2 && (#[trigger] gr0[c2]).contains(g.adj(gr0[c][0] as int)[k].target);
                    assert(gr[c2] == gr0[c2]);
                } else {
                    // The new group is `u` alone: no neighbor of `u` was a candidate.
                    assert(pick_heaviest(g, m1, u as int, perms[j], deg).0 is None);
                    assert(gr[c] == seq![u]);
                    let x = g.adj(u as int)[k].target;
                    assert(x < n);
                    assert(g.adj(u as int).len() <= usize::MAX);
                    assert(perms[j].contains(k as usize));
                    let i = choose|i: int| 0 <= i < perms[j].len() && perms[j][i] == k as usize;
                    assert(gr[c][0] == u);
                    assert(preferable(g.adj(u as int)[k].weight));
                    assert(perms[j][i] as int == k);
                    assert(!candidate(g, m1, u as int, perms[j][i] as int));
                    assert(x != u);
                    assert(m1[x as int]);
                    assert(m1[x as int] == m0[x as int]);
                    let (c1, k1) = choose|c1: int, k1: int| 0 <= c1 < gr0.len() && 0 <= k1 < gr0[c1].len() && #[trigger] gr0[c1][k1] == x as int;
                    if gr0[c1].len() == 2 {
                        assert(gr0[c1][k1] == x);
                        assert(gr[c1] == gr0[c1]);
                        assert(gr[c1].contains(x));
                    } else {
                        // `x` is alone too, and `u` is a neighbor of `x` over the same edge.
                        assert(x < n);
                        assert(has_entry(g.adj(x as int), u as int, g.adj(u as int)[k].weight));
                        let k2 = choose|k2: int| 0 <= k2 < g.adj(x as int).len() && #[trigger] g.adj(x as int)[k2].target == u as int
                            && g.adj(x as int)[k2].weight == g.adj(u as int)[k].weight;
                        assert(gr0[c1][0] == x);
                        assert(g.adj(gr0[c1][0] as int)[k2].target == u);
                        let c3 = choose|c3: int|
                            0 <= c3 < gr0.len() && gr0[c3].len() == 2 && (#[trigger] gr0[c3]).contains(g.adj(gr0[c1][0] as int)[k2].target);
                        let k3 = choose|k3: int| 0 <= k3 < gr0[c3].len() && gr0[c3][k3] == u;
                        assert(gr0[c3][k3] == u as int);
                        assert(m0[u as int]);
                    }
                }
            }
        } else {
            assert(gr == gr0);
        }
    }
}

/// The edge collapse leaves no two unpaired vertices joined by an edge of
/// preferable weight: the pairs it forms are a maximal matching of those
/// edges.
pub proof fn lemma_collapse_maximal(g: &Graph, order: Seq<usize>, perms: Seq<Seq<usize>>, c1: int, c2: int, k: int)
    requires
        g.wf(),
        forall|u: int| 0 <= u < g.num_nodes() ==> #[trigger] g.adj(u).len() <= usize::MAX,
        is_order_of(order, g.num_nodes()),
        perms_fit(g, order, perms),
        0 <= c1 < collapse_state(g, order, perms).1.len(),
        0 <= c2 < collapse_state(g, order, perms).1.len(),
        collapse_state(g, order, perms).1[c1].len() == 1,
        collapse_state(g, order, perms).1[c2].len() == 1,
        0 <= k < g.adj(collapse_state(g, order, perms).1[c1][0] as int).len(),
        g.adj(collapse_state(g, order, perms).1[c1][0] as int)[k].target == collapse_state(g, order, perms).1[c2][0],
    ensures
        !preferable(g.adj(collapse_state(g, order, perms).1[c1][0] as int)[k].weight),
{
    let gr = collapse_state(g, order, perms).1;
    lemma_collapse_covered(g, order, perms);
    lemma_collapse_partition(g, order, perms);
    if preferable(g.adj(gr[c1][0] as int)[k].weight) {
        let x = g.adj(gr[c1][0] as int)[k].target;
        let c3 = choose|c3: int| 0 <= c3 < gr.len() && gr[c3].len() == 2 && (#[trigger] gr[c3]).contains(x);
        let k3 = choose|k3: int| 0 <= k3 < gr[c3].len() && gr[c3][k3] == x;
        assert(gr[c3][k3] == gr[c2][0]);
    }
}

/// The edge collapse for these orders forms at least one pair and leaves at
/// most `max_coarse_count` coarse vertices.
pub open spec fn collapse_accepted(g: &Graph, order: Seq<usize>, perms: Seq<Seq<usize>>, max_coarse_count: nat) -> bool {
    let groups = collapse_state(g, order, perms).1;
    groups.len() != g.num_nodes() && groups.len() <= max_coarse_count
}

/// What `coarsen` yields for vertex order `order`, neighbor orders `perms`
/// (used by the edge collapse) and vertex order `order2` (used by the
/// independent-set scheme).
pub open spec fn coarsen_outcome(
    g: &Graph,
    strategy: CoarseningStrategy,
    max_coarse_count: nat,
    order: Seq<usize>,
    perms: Seq<Seq<usize>>,
    order2: Seq<usize>,
    res: Option<CoarsenResult>,
) -> bool {
    &&& is_order_of(order, g.num_nodes())
    &&& perms_fit(g, order, perms)
    &&& is_order_of(order2, g.num_nodes())
    &&& match strategy {
        CoarseningStrategy::EdgeCollapse => collapse_outcome(g, order, perms, res),
        CoarseningStrategy::Mivs => mivs_outcome(g, order2, res),
        CoarseningStrategy::Hybrid => if collapse_accepted(g, order, perms, max_coarse_count) {
            collapse_outcome(g, order, perms, res)
        } else {
            mivs_outcome(g, order2, res)
        },
    }
}

/// The hybrid strategy keeps the edge collapse only within the bound: an
/// edge-collapse result has at most `max_coarse_count` coarse vertices; and it
/// falls back to the independent set only when the edge collapse for the same
/// orders gives nothing or more than `max_coarse_count` coarse vertices.
pub proof fn lemma_hybrid_bound(
    g: &Graph,
    max_coarse_count: nat,
    order: Seq<usize>,
    perms: Seq<Seq<usize>>,
    order2: Seq<usize>,
    res: Option<CoarsenResult>,
    r: CoarsenResult,
    collapse_res: Option<CoarsenResult>,
)
    requires
        coarsen_outcome(g, CoarseningStrategy::Hybrid, max_coarse_count, order, perms, order2, res),
        res == Some(r),
        collapse_outcome(g, order, perms, collapse_res),
    ensures
        r.used_strategy == CoarseningStrategy::EdgeCollapse ==> r.coarse_count <= max_coarse_count,
        r.used_strategy == CoarseningStrategy::Mivs ==> (collapse_res matches Some(c) ==> c.coarse_count > max_coarse_count),
{
}

/// A vertex outside the independent set that lists some set vertex is
/// interpolated from exactly the set vertices it lists: its row holds the
/// coarse index of every set vertex in its adjacency list, and nothing else.
pub proof fn lemma_mivs_row_neighbors(g: &Graph, order: Seq<usize>, r: CoarsenResult, v: int, k: int)
    requires
        mivs_outcome(g, order, Some(r)),
        0 <= v < g.num_nodes(),
        !mis_state(g, order).0[v],
        0 <= k < g.adj(v).len(),
        coarse_index_map(mis_state(g, order).0)[g.adj(v)[k].target as int] is Some,
    ensures
        forall|c: usize|
            r.prolongation@[v]@.contains(c) <==> exists|j: int|
                0 <= j < g.adj(v).len() && #[trigger] coarse_index_map(mis_state(g, order).0)[g.adj(v)[j].target as int]
                    == Some(c),
{
    let im = coarse_index_map(mis_state(g, order).0);
    let c0 = im[g.adj(v)[k].target as int]->0;
    assert(neighbor_index_set(g, im, v).contains(c0));
    assert(sorted_listing(r.prolongation@[v]@, mivs_row(g, order, v)));
    assert forall|c: usize|
        r.prolongation@[v]@.contains(c) <==> exists|j: int|
            0 <= j < g.adj(v).len() && #[trigger] im[g.adj(v)[j].target as int] == Some(c) by {
        assert(r.prolongation@[v]@.contains(c) <==> r.prolongation@[v]@.to_set().contains(c));
    }
}

/// Shrinks `graph` by one level with the chosen strategy. Graphs with at most
/// two vertices are not coarsened. The hybrid strategy keeps the edge
/// collapse when it leaves at most `max_coarse_count` coarse vertices and
/// otherwise runs the independent-set scheme.
pub fn coarsen(
    graph: &Graph,
    strategy: CoarseningStrategy,
    max_coarse_count: usize,
    rng: &mut StdRng,
) -> (res: Option<CoarsenResult>)
    requires
        graph.targets_in_range(),
    ensures
        graph.num_nodes() <= 2 ==> res is None,
        graph.num_nodes() > 2 ==> exists|order: Seq<usize>, perms: Seq<Seq<usize>>, order2: Seq<usize>|
            #[trigger] coarsen_outcome(graph, strategy, max_coarse_count as nat, order, perms, order2, res),
{
    if graph.node_count() <= 2 {
        return None;
    }
    let ghost n = graph.num_nodes();
    let ghost ident = Seq::new(n, |i: int| i as usize);
    proof {
        assert forall|x: int| 0 <= x < n implies #[trigger] ident.contains(x as usize) by {
            assert(ident[x] == x as usize);
        }
        assert(is_order_of(ident, n));
        assert(perms_fit(graph, Seq::empty(), Seq::empty()));
    }
    match strategy {
        CoarseningStrategy::EdgeCollapse => {
            let res = edge_collapse(graph, rng);
            proof {
                let (order, perms) = choose|order: Seq<usize>, perms: Seq<Seq<usize>>|
                    is_order_of(order, graph.num_nodes()) && perms_fit(graph, order, perms) && #[trigger] collapse_outcome(
                        graph,
                        order,
                        perms,
                        res,
                    );
                assert(coarsen_outcome(graph, strategy, max_coarse_count as nat, order, perms, ident, res));
            }
            res
        },
        CoarseningStrategy::Mivs => {
            let res = mivs(graph, rng);
            proof {
                let order2 = choose|order: Seq<usize>|
                    is_order_of(order, graph.num_nodes()) && #[trigger] mivs_outcome(graph, order, res);
                let perms = Seq::new(n, |j: int| Seq::new(graph.adj(ident[j] as int).len(), |k: int| k as usize));
                assert forall|j: int| 0 <= j < ident.len() implies is_order_of(#[trigger] perms[j], graph.adj(ident[j] as int).len()) by {
                    let d = graph.adj(ident[j] as int).len();
                    assert forall|x: int| 0 <= x < d implies #[trigger] perms[j].contains(x as usize) by {
                        assert(perms[j][x] == x as usize);
                    }
                }
                assert(coarsen_outcome(graph, strategy, max_coarse_count as nat, ident, perms, order2, res));
            }
            res
        },
        CoarseningStrategy::Hybrid => {
            let ec = edge_collapse(graph, rng);
            let ghost (order, perms) = choose|order: Seq<usize>, perms: Seq<Seq<usize>>|
                is_order_of(order, graph.num_nodes()) && perms_fit(graph, order, perms) && #[trigger] collapse_outcome(
                    graph,
                    order,
                    perms,
                    ec,
                );
            if let Some(result) = ec {
                if result.coarse_count <= max_coarse_count {
                    proof {
                        assert(coarsen_outcome(graph, strategy, max_coarse_count as nat, order, perms, ident, Some(result)));
                    }
                    return Some(result);
                }
            }
            let res = mivs(graph, rng);
            proof {
                let order2 = choose|order: Seq<usize>|
                    is_order_of(order, graph.num_nodes()) && #[trigger] mivs_outcome(graph, order, res);
                assert(!collapse_accepted(graph, order, perms, max_coarse_count as nat));
                assert(coarsen_outcome(graph, strategy, max_coarse_count as nat, order, perms, order2, res));
            }
            res
        },
    }
}

/// A coarsening of a graph with `n` vertices is sound: there are fewer
/// coarse vertices than fine ones but at least one, and every fine vertex is
/// interpolated from at least one coarse vertex, all of them existing.
pub open spec fn sound_coarsening(n: nat, r: CoarsenResult) -> bool {
    &&& 1 <= r.coarse_count < n
    &&& r.prolongation@.len() == n
    &&& forall|f: int|
        0 <= f < n ==> (#[trigger] r.prolongation@[f])@.len() >= 1 && forall|k: int|
            0 <= k < r.prolongation@[f]@.len() ==> #[trigger] r.prolongation@[f]@[k] < r.coarse_count
}

proof fn lemma_count_true_prefix(s: Seq<bool>, k: int)
    requires
        0 <= k <= s.len(),
    ensures
        crate::graph::count_true(s.take(k)) <= crate::graph::count_true(s),
    decreases s.len() - k,
{
    if k < s.len() {
        lemma_count_true_prefix(s, k + 1);
        assert(s.take(k + 1).drop_last() =~= s.take(k));
    } else {
        assert(s.take(k) =~= s);
    }
}

/// A set vertex's coarse index is below the number of set vertices.
proof fn lemma_rank_bound(s: Seq<bool>, v: int)
    requires
        0 <= v < s.len(),
        s[v],
    ensures
        rank(s, v) < crate::graph::count_true(s),
{
    lemma_count_true_prefix(s, v + 1);
    assert(s.take(v + 1).drop_last() =~= s.take(v));
}

/// Every coarse index in the map is below the number of set vertices.
proof fn lemma_index_map_bound(s: Seq<bool>, x: int, c: usize)
    requires
        0 <= x < s.len(),
        coarse_index_map(s)[x] == Some(c),
    ensures
        c < crate::graph::count_true(s),
{
    lemma_rank_bound(s, x);
    crate::graph::lemma_count_true_le(s);
}

proof fn lemma_some_member(set: Set<usize>) -> (x: usize)
    requires
        set != Set::<usize>::empty(),
    ensures
        set.contains(x),
{
    if forall|y: usize| !set.contains(y) {
        assert(set =~= Set::<usize>::empty());
    }
    choose|y: usize| set.contains(y)
}

/// A listing of a nonempty set whose elements are below `bound` is a
/// nonempty list of values below `bound`.
proof fn lemma_listing_bounds(r: Seq<usize>, set: Set<usize>, x: usize, bound: nat)
    requires
        sorted_listing(r, set),
        set.contains(x),
        forall|c: usize| set.contains(c) ==> c < bound,
    ensures
        r.len() >= 1,
        forall|k: int| 0 <= k < r.len() ==> r[k] < bound,
{
    assert(r.to_set().contains(x));
    assert forall|k: int| 0 <= k < r.len() implies r[k] < bound by {
        assert(r.to_set().contains(r[k]));
    }
}

/// The independent-set scheme, when it answers, gives a sound coarsening.
pub proof fn lemma_mivs_sound(g: &Graph, order: Seq<usize>, r: CoarsenResult)
    requires
        g.targets_in_range(),
        order.len() >= 1,
        forall|i: int| 0 <= i < order.len() ==> #[trigger] order[i] < g.num_nodes(),
        mivs_outcome(g, order, Some(r)),
    ensures
        sound_coarsening(g.num_nodes(), r),
{
    let n = g.num_nodes();
    let s = mis_state(g, order).0;
    let im = coarse_index_map(s);
    let c = crate::graph::count_true(s);
    lemma_mis_len(g, order);
    lemma_mis_first(g, order);
    crate::graph::lemma_count_true_le(s);
    assert forall|f: int| 0 <= f < n implies (#[trigger] r.prolongation@[f])@.len() >= 1 && forall|k: int|
        0 <= k < r.prolongation@[f]@.len() ==> #[trigger] r.prolongation@[f]@[k] < r.coarse_count by {
        let row = r.prolongation@[f]@;
        let set = mivs_row(g, order, f);
        assert(sorted_listing(row, set));
        if s[f] {
            lemma_rank_bound(s, f);
            lemma_listing_bounds(row, set, rank(s, f) as usize, c);
        } else if neighbor_index_set(g, im, f) != Set::<usize>::empty() {
            let x = lemma_some_member(neighbor_index_set(g, im, f));
            assert forall|d: usize| set.contains(d) implies d < c by {
                let k = choose|k: int| 0 <= k < g.adj(f).len() && #[trigger] im[g.adj(f)[k].target as int] == Some(d);
                lemma_index_map_bound(s, g.adj(f)[k].target as int, d);
            }
            lemma_listing_bounds(row, set, x, c);
        } else if nearest_members(g, im, f, 3) != Set::<usize>::empty() {
            let x = lemma_some_member(nearest_members(g, im, f, 3));
            assert forall|d: usize| set.contains(d) implies d < c by {
                let (y, e) = choose|y: int, e: nat| #[trigger] nearest_hit(g, im, f, y, e) && e <= 3 && im[y] == Some(d);
                lemma_index_map_bound(s, y, d);
            }
            lemma_listing_bounds(row, set, x, c);
        } else {
            lemma_rank_bound(s, order[0] as int);
            lemma_listing_bounds(row, set, rank(s, order[0] as int) as usize, c);
        }
    }
}

/// The edge collapse forms at most one group per visited vertex.
proof fn lemma_collapse_count(g: &Graph, order: Seq<usize>, perms: Seq<Seq<usize>>)
    ensures
        collapse_state(g, order, perms).1.len() <= order.len(),
    decreases order.len(),
{
    if order.len() > 0 {
        lemma_collapse_count(g, order.drop_last(), perms);
    }
}

/// The edge collapse, when it answers, gives a sound coarsening.
pub proof fn lemma_collapse_sound(g: &Graph, order: Seq<usize>, perms: Seq<Seq<usize>>, r: CoarsenResult)
    requires
        g.targets_in_range(),
        is_order_of(order, g.num_nodes()),
        perms_fit(g, order, perms),
        collapse_outcome(g, order, perms, Some(r)),
    ensures
        sound_coarsening(g.num_nodes(), r),
{
    let n = g.num_nodes();
    let groups = collapse_state(g, order, perms).1;
    lemma_collapse_count(g, order, perms);
    assert(collapse_result(g, groups, r));
    assert(n > 1);
    assert forall|f: int| 0 <= f < n implies (#[trigger] r.prolongation@[f])@.len() >= 1 && forall|k: int|
        0 <= k < r.prolongation@[f]@.len() ==> #[trigger] r.prolongation@[f]@[k] < r.coarse_count by {
        assert(group_row(groups, r.prolongation@[f]@, f));
        let c = choose|c: int| 0 <= c < groups.len() && #[trigger] groups[c].contains(f as usize) && r.prolongation@[f]@ == seq![c as usize];
        assert(r.prolongation@[f]@[0] == c as usize);
    }
    assert(r.coarse_count >= 1) by {
        assert(group_row(groups, r.prolongation@[0]@, 0));
    }
}

/// `coarsen`, whenever it answers, gives a sound coarsening.
pub proof fn lemma_coarsen_sound(
    g: &Graph,
    strategy: CoarseningStrategy,
    max_coarse_count: nat,
    order: Seq<usize>,
    perms: Seq<Seq<usize>>,
    order2: Seq<usize>,
    r: CoarsenResult,
)
    requires
        g.targets_in_range(),
        coarsen_outcome(g, strategy, max_coarse_count, order, perms, order2, Some(r)),
    ensures
        sound_coarsening(g.num_nodes(), r),
{
    let n = g.num_nodes();
    match strategy {
        CoarseningStrategy::EdgeCollapse => {
            lemma_collapse_sound(g, order, perms, r);
        },
        CoarseningStrategy::Mivs => {
            assert(n > 1);
            lemma_mivs_sound(g, order2, r);
        },
        CoarseningStrategy::Hybrid => {
            if collapse_accepted(g, order, perms, max_coarse_count) {
                lemma_collapse_sound(g, order, perms, r);
            } else {
                assert(n > 1);
                lemma_mivs_sound(g, order2, r);
            }
        },
    }
}

/// Fine vertex `f` occurs in a group before position `k` of group `c`.
pub open spec fn placed_before(gr: Seq<Seq<usize>>, c: int, k: int, f: int) -> bool {
    exists|c2: int, k2: int|
        0 <= c2 && 0 <= k2 < gr[c2].len() && (c2 < c || (c2 == c && k2 < k)) && #[trigger] gr[c2][k2] == f
}

/// The row of `f` names the group that holds `f` once `f` has been placed,
/// and is empty before.
pub open spec fn row_placed(gr: Seq<Seq<usize>>, c: int, k: int, row: Seq<usize>, f: int) -> bool {
    if placed_before(gr, c, k, f) {
        exists|c2: int, k2: int|
            0 <= c2 && 0 <= k2 < gr[c2].len() && (c2 < c || (c2 == c && k2 < k)) && #[trigger] gr[c2][k2] == f
                && row == seq![c2 as usize]
    } else {
        row.len() == 0
    }
}

/// The edge collapse over `order` reads only the first `order.len()`
/// neighbor orders.
proof fn lemma_collapse_perms_prefix(g: &Graph, order: Seq<usize>, p1: Seq<Seq<usize>>, p2: Seq<Seq<usize>>)
    requires
        p1.len() >= order.len(),
        p2.len() >= order.len(),
        forall|j: int| 0 <= j < order.len() ==> #[trigger] p1[j] == p2[j],
    ensures
        collapse_state(g, order, p1) == collapse_state(g, order, p2),
    decreases order.len(),
{
    if order.len() > 0 {
        lemma_collapse_perms_prefix(g, order.drop_last(), p1, p2);
        assert(p1[order.len() - 1] == p2[order.len() - 1]);
    }
}

/// A vector holding `n` empty vectors.
pub(crate) fn empty_rows(n: usize) -> (rows: Vec<Vec<usize>>)
    ensures
        rows@.len() == n,
        forall|f: int| 0 <= f < n ==> (#[trigger] rows@[f])@.len() == 0,
{
    let mut rows: Vec<Vec<usize>> = Vec::new();
    let mut i: usize = 0;
    while i < n
        invariant
            i <= n,
            rows@.len() == i,
            forall|f: int| 0 <= f < i ==> (#[trigger] rows@[f])@.len() == 0,
        decreases n - i,
    {
        rows.push(Vec::new());
        i += 1;
    }
    rows
}

/// The heaviest unmatched neighbor of `u`, scanning its adjacency list in
/// the order `perm`.
fn heaviest_unmatched(graph: &Graph, matched: &Vec<bool>, u: usize, perm: &Vec<usize>) -> (res: Option<usize>)
    requires
        graph.targets_in_range(),
        u < graph.num_nodes(),
        matched@.len() == graph.num_nodes(),
        is_order_of(perm@, graph.adj(u as int).len()),
    ensures
        res == pick_heaviest(graph, matched@, u as int, perm@, graph.adj(u as int).len()).0,
{
    let deg = graph.nodes[u].neighbors.len();
    let mut best: Option<usize> = None;
    let mut best_weight: u64 = NEG_INFINITY_KEY;
    let mut k: usize = 0;
    while k < deg
        invariant
            graph.targets_in_range(),
            u < graph.num_nodes(),
            matched@.len() == graph.num_nodes(),
            deg == graph.adj(u as int).len(),
            is_order_of(perm@, deg as nat),
            k <= deg,
            (best, best_weight) == pick_heaviest(graph, matched@, u as int, perm@, k as nat),
        decreases deg - k,
    {
        let p = perm[k];
        let nb = graph.nodes[u].neighbors[p];
        assert(nb == graph.adj(u as int)[perm@[k as int] as int]);
        if !matched[nb.target] {
            if nb.weight <= POS_INFINITY_KEY && nb.weight > best_weight {
                best_weight = nb.weight;
                best = Some(nb.target);
            }
        }
        k += 1;
    }
    best
}

/// Visits `u`, not yet matched: matches it with its heaviest unmatched
/// neighbor, scanning its list in the order `nbr_order`, and records the
/// pair, or `u` alone, as a new group.
fn collapse_visit(graph: &Graph, matched: &mut Vec<bool>, groups: &mut Vec<Vec<usize>>, u: usize, nbr_order: &Vec<usize>)
    requires
        graph.targets_in_range(),
        u < graph.num_nodes(),
        old(matched)@.len() == graph.num_nodes(),
        !old(matched)@[u as int],
        is_order_of(nbr_order@, graph.adj(u as int).len()),
    ensures
        ({
            let m1 = old(matched)@.update(u as int, true);
            match pick_heaviest(graph, m1, u as int, nbr_order@, graph.adj(u as int).len()).0 {
                Some(v) => final(matched)@ == m1.update(v as int, true) && final(groups)@.last()@ == seq![u, v],
                None => final(matched)@ == m1 && final(groups)@.last()@ == seq![u],
            }
        }),
        final(groups)@.len() == old(groups)@.len() + 1,
        forall|c: int| 0 <= c < old(groups)@.len() ==> #[trigger] final(groups)@[c] == old(groups)@[c],
{
    let n = graph.node_count();
    let deg = graph.nodes[u].neighbors.len();
    matched.set(u, true);
    let best = heaviest_unmatched(graph, matched, u, nbr_order);
    match best {
        Some(v) => {
            proof {
                lemma_pick(graph, matched@, u as int, nbr_order@, deg as nat);
                let k = choose|k: int| 0 <= k < graph.adj(u as int).len() && #[trigger] graph.adj(u as int)[k].target == v as int;
                assert(graph.adj(u as int)[k].target < n);
            }
            matched.set(v, true);
            groups.push(vec![u, v]);
        },
        None => {
            groups.push(vec![u]);
        },
    }
}

/// The matching phase has run over the whole vertex order: `matched` and
/// `groups` are the state of the edge collapse for these orders.
pub open spec fn collapse_done(graph: &Graph, order: Seq<usize>, perms: Seq<Seq<usize>>, matched: Seq<bool>, groups: Seq<Vec<usize>>) -> bool {
    &&& graph.targets_in_range()
    &&& graph.num_nodes() > 1
    &&& is_order_of(order, graph.num_nodes())
    &&& perms_fit(graph, order, perms)
    &&& matched == collapse_state(graph, order, perms).0
    &&& groups.len() == collapse_state(graph, order, perms).1.len()
    &&& forall|c: int| 0 <= c < groups.len() ==> (#[trigger] groups[c])@ == collapse_state(graph, order, perms).1[c]
}

/// One step of the matching phase keeps the loop's state in step with
/// `collapse_state`.
proof fn lemma_collapse_loop_step(
    graph: &Graph,
    order: Seq<usize>,
    i: int,
    perms: Seq<Seq<usize>>,
    perm: Seq<usize>,
    m0: Seq<bool>,
    g0: Seq<Vec<usize>>,
    m1: Seq<bool>,
    g1: Seq<Vec<usize>>,
)
    requires
        graph.targets_in_range(),
        is_order_of(order, graph.num_nodes()),
        0 <= i < order.len(),
        perms.len() == i,
        perms_fit(graph, order.take(i), perms),
        is_order_of(perm, graph.adj(order[i] as int).len()),
        m0 == collapse_state(graph, order.take(i), perms).0,
        g0.len() == collapse_state(graph, order.take(i), perms).1.len(),
        forall|c: int| 0 <= c < g0.len() ==> (#[trigger] g0[c])@ == collapse_state(graph, order.take(i), perms).1[c],
        m0[order[i] as int] ==> m1 == m0 && g1 == g0,
        !m0[order[i] as int] ==> {
            let mm = m0.update(order[i] as int, true);
            &&& match pick_heaviest(graph, mm, order[i] as int, perm, graph.adj(order[i] as int).len()).0 {
                Some(v) => m1 == mm.update(v as int, true) && g1.last()@ == seq![order[i], v],
                None => m1 == mm && g1.last()@ == seq![order[i]],
            }
            &&& g1.len() == g0.len() + 1
            &&& forall|c: int| 0 <= c < g0.len() ==> #[trigger] g1[c] == g0[c]
        },
    ensures
        perms_fit(graph, order.take(i + 1), perms.push(perm)),
        m1 == collapse_state(graph, order.take(i + 1), perms.push(perm)).0,
        g1.len() == collapse_state(graph, order.take(i + 1), perms.push(perm)).1.len(),
        forall|c: int| 0 <= c < g1.len() ==> (#[trigger] g1[c])@ == collapse_state(graph, order.take(i + 1), perms.push(perm)).1[c],
{
    let pre = order.take(i);
    let cur = order.take(i + 1);
    let p2 = perms.push(perm);
    assert(cur.drop_last() =~= pre);
    assert(cur[i] == order[i]);
    lemma_collapse_perms_prefix(graph, pre, perms, p2);
    assert forall|j: int| 0 <= j < cur.len() implies is_order_of(#[trigger] p2[j], graph.adj(cur[j] as int).len()) by {
        if j < i {
            assert(cur[j] == pre[j]);
            assert(p2[j] == perms[j]);
        }
    }
    let st = collapse_state(graph, cur, p2);
    assert(m1 =~= st.0);
    assert forall|c: int| 0 <= c < g1.len() implies (#[trigger] g1[c])@ == st.1[c] by {
        if c < g0.len() {
            assert(g1[c] == g0[c]);
        }
    }
}

/// The edge-collapse coarsening: vertices are visited in random order; each
/// vertex not yet matched is matched with its heaviest unmatched neighbor
/// (ties go to the first in a random order of its neighbors), and every pair
/// or single vertex becomes one coarse vertex.
fn edge_collapse(graph: &Graph, rng: &mut StdRng) -> (res: Option<CoarsenResult>)
    requires
        graph.targets_in_range(),
    ensures
        graph.num_nodes() <= 1 ==> res is None,
        graph.num_nodes() > 1 ==> exists|order: Seq<usize>, perms: Seq<Seq<usize>>|
            is_order_of(order, graph.num_nodes()) && perms_fit(graph, order, perms) && #[trigger] collapse_outcome(
                graph,
                order,
                perms,
                res,
            ),
{
    let n = graph.node_count();
    if n <= 1 {
        return None;
    }
    let order = random_order(n, rng);
    let mut matched = crate::graph::all_false(n);
    let mut groups: Vec<Vec<usize>> = Vec::new();
    let ghost mut perms: Seq<Seq<usize>> = Seq::empty();
    let mut i: usize = 0;
    assert(matched@ =~= collapse_state(graph, order@.take(0), perms).0);
    while i < n
        invariant
            n == graph.num_nodes(),
            graph.targets_in_range(),
            is_order_of(order@, n as nat),
            i <= n,
            perms.len() == i,
            perms_fit(graph, order@.take(i as int), perms),
            matched@ == collapse_state(graph, order@.take(i as int), perms).0,
            groups@.len() == collapse_state(graph, order@.take(i as int), perms).1.len(),
            forall|c: int|
                0 <= c < groups@.len() ==> (#[trigger] groups@[c])@ == collapse_state(
                    graph,
                    order@.take(i as int),
                    perms,
                ).1[c],
        decreases n - i,
    {
        let u = order[i];
        let deg = graph.nodes[u].neighbors.len();
        proof {
            lemma_collapse_partition(graph, order@.take(i as int), perms);
        }
        let ghost m0 = matched@;
        let ghost g0 = groups@;
        let ghost perm: Seq<usize>;
        if matched[u] {
            proof {
                let ident = Seq::new(deg as nat, |k: int| k as usize);
                assert(is_order_of(ident, deg as nat)) by {
                    assert forall|x: int| 0 <= x < deg implies #[trigger] ident.contains(x as usize) by {
                        assert(ident[x] == x as usize);
                    }
                }
                perm = ident;
            }
        } else {
            let nbr_order = random_order(deg, rng);
            collapse_visit(graph, &mut matched, &mut groups, u, &nbr_order);
            proof {
                perm = nbr_order@;
            }
        }
        proof {
            lemma_collapse_loop_step(graph, order@, i as int, perms, perm, m0, g0, matched@, groups@);
            perms = perms.push(perm);
        }
        i += 1;
    }
    proof {
        assert(order@.take(n as int) =~= order@);
    }
    collapse_rows(graph, &groups, Ghost(order@), Ghost(perms))
}

/// The views of the vectors in `v`.
pub open spec fn seq_views(v: Seq<Vec<usize>>) -> Seq<Seq<usize>> {
    Seq::new(v.len(), |j: int| v[j]@)
}

/// The edge collapse for a given vertex order and, for each position of that
/// order, a given order in which the adjacency list of the vertex there is
/// scanned (used only when that vertex is still unmatched).
pub fn edge_collapse_with_orders(graph: &Graph, order: &Vec<usize>, nbr_orders: &Vec<Vec<usize>>) -> (res: Option<CoarsenResult>)
    requires
        graph.targets_in_range(),
        is_order_of(order@, graph.num_nodes()),
        nbr_orders@.len() == order@.len(),
        forall|j: int| 0 <= j < order@.len() ==> is_order_of(#[trigger] nbr_orders@[j]@, graph.adj(order@[j] as int).len()),
    ensures
        collapse_outcome(graph, order@, seq_views(nbr_orders@), res),
{
    let n = graph.node_count();
    if n <= 1 {
        return None;
    }
    let ghost all = seq_views(nbr_orders@);
    let mut matched = crate::graph::all_false(n);
    let mut groups: Vec<Vec<usize>> = Vec::new();
    let mut i: usize = 0;
    assert(matched@ =~= collapse_state(graph, order@.take(0), all.take(0)).0);
    while i < n
        invariant
            n == graph.num_nodes(),
            graph.targets_in_range(),
            is_order_of(order@, n as nat),
            nbr_orders@.len() == n,
            all == seq_views(nbr_orders@),
            forall|j: int| 0 <= j < order@.len() ==> is_order_of(#[trigger] nbr_orders@[j]@, graph.adj(order@[j] as int).len()),
            i <= n,
            perms_fit(graph, order@.take(i as int), all.take(i as int)),
            matched@ == collapse_state(graph, order@.take(i as int), all.take(i as int)).0,
            groups@.len() == collapse_state(graph, order@.take(i as int), all.take(i as int)).1.len(),
            forall|c: int|
                0 <= c < groups@.len() ==> (#[trigger] groups@[c])@ == collapse_state(
                    graph,
                    order@.take(i as int),
                    all.take(i as int),
                ).1[c],
        decreases n - i,
    {
        let u = order[i];
        let ghost m0 = matched@;
        let ghost g0 = groups@;
        proof {
            assert(all[i as int] == nbr_orders@[i as int]@);
            assert(order@[i as int] == u);
            lemma_collapse_partition(graph, order@.take(i as int), all.take(i as int));
        }
        if !matched[u] {
            collapse_visit(graph, &mut matched, &mut groups, u, &nbr_orders[i]);
        }
        proof {
            lemma_collapse_loop_step(graph, order@, i as int, all.take(i as int), all[i as int], m0, g0, matched@, groups@);
            assert(all.take(i as int).push(all[i as int]) =~= all.take(i + 1));
        }
        i += 1;
    }
    proof {
        assert(order@.take(n as int) =~= order@);
        assert(all.take(n as int) =~= all);
    }
    collapse_rows(graph, &groups, Ghost(order@), Ghost(all))
}

/// The coarsening made of the groups of a finished matching phase: nothing
/// when every vertex stayed alone, else one coarse vertex per group.
fn collapse_rows(graph: &Graph, groups: &Vec<Vec<usize>>, Ghost(order): Ghost<Seq<usize>>, Ghost(perms): Ghost<Seq<Seq<usize>>>) -> (res: Option<CoarsenResult>)
    requires
        collapse_done(graph, order, perms, collapse_state(graph, order, perms).0, groups@),
    ensures
        collapse_outcome(graph, order, perms, res),
{
    let n = graph.node_count();
    let coarse_count = groups.len();
    if coarse_count == n {
        proof {
            assert(is_order_of(order, graph.num_nodes()) && perms_fit(graph, order, perms)
                && collapse_outcome(graph, order, perms, None));
        }
        return None;
    }
    let ghost gr = collapse_state(graph, order, perms).1;
    proof {
        lemma_collapse_partition(graph, order, perms);
    }
    let mut rows = empty_rows(n);
    let mut c: usize = 0;
    proof {
        assert forall|f: int| 0 <= f < n implies row_placed(gr, 0, 0, #[trigger] rows@[f]@, f) by {
            assert(rows@[f]@.len() == 0);
        }
    }
    while c < coarse_count
        invariant
            n == graph.num_nodes(),
            coarse_count == groups@.len() == gr.len(),
            forall|c2: int| 0 <= c2 < groups@.len() ==> (#[trigger] groups@[c2])@ == gr[c2],
            groups_partition(graph, order, collapse_state(graph, order, perms).0, gr),
            c <= coarse_count,
            rows@.len() == n,
            forall|f: int| 0 <= f < n ==> row_placed(gr, c as int, 0, #[trigger] rows@[f]@, f),
        decreases coarse_count - c,
    {
        let glen = groups[c].len();
        let mut k: usize = 0;
        while k < glen
            invariant
                n == graph.num_nodes(),
                coarse_count == groups@.len() == gr.len(),
                forall|c2: int| 0 <= c2 < groups@.len() ==> (#[trigger] groups@[c2])@ == gr[c2],
                groups_partition(graph, order, collapse_state(graph, order, perms).0, gr),
                c < coarse_count,
                glen == gr[c as int].len(),
                k <= glen,
                rows@.len() == n,
                forall|f: int| 0 <= f < n ==> row_placed(gr, c as int, k as int, #[trigger] rows@[f]@, f),
            decreases glen - k,
        {
            let f = groups[c][k];
            proof {
                assert(groups@[c as int]@ == gr[c as int]);
                assert(gr[c as int][k as int] == f);
                assert(f < n);
                assert(!placed_before(gr, c as int, k as int, f as int));
                assert(rows@[f as int]@.len() == 0);
            }
            let ghost r0 = rows@;
            rows[f].push(c);
            proof {
                assert(rows@[f as int]@ =~= seq![c]);
                assert forall|f2: int| 0 <= f2 < n implies row_placed(gr, c as int, k + 1, #[trigger] rows@[f2]@, f2) by {
                    if f2 == f as int {
                        assert(gr[c as int][k as int] == f2);
                    } else {
                        assert(rows@[f2] == r0[f2]);
                        assert(row_placed(gr, c as int, k as int, r0[f2]@, f2));
                        if placed_before(gr, c as int, k + 1, f2) {
                            let (c2, k2) = choose|c2: int, k2: int|
                                0 <= c2 && 0 <= k2 < gr[c2].len() && (c2 < c || (c2 == c && k2 < k + 1))
                                    && #[trigger] gr[c2][k2] == f2;
                            assert(placed_before(gr, c as int, k as int, f2));
                        }
                    }
                }
            }
            k += 1;
        }
        proof {
            assert forall|f: int| 0 <= f < n implies row_placed(gr, c + 1, 0, #[trigger] rows@[f]@, f) by {
                assert(row_placed(gr, c as int, k as int, rows@[f]@, f));
                if placed_before(gr, c + 1, 0, f) {
                    let (c2, k2) = choose|c2: int, k2: int|
                        0 <= c2 && 0 <= k2 < gr[c2].len() && (c2 < c + 1 || (c2 == c + 1 && k2 < 0))
                            && #[trigger] gr[c2][k2] == f;
                    assert(placed_before(gr, c as int, k as int, f));
                }
                if placed_before(gr, c as int, k as int, f) {
                    let (c2, k2) = choose|c2: int, k2: int|
                        0 <= c2 && 0 <= k2 < gr[c2].len() && (c2 < c || (c2 == c && k2 < k))
                            && #[trigger] gr[c2][k2] == f;
                    assert(placed_before(gr, c + 1, 0, f));
                }
            }
        }
        c += 1;
    }
    proof {
        let m = collapse_state(graph, order, perms).0;
        assert forall|f: int| 0 <= f < n implies exists|c2: int|
            0 <= c2 < gr.len() && gr[c2].contains(f as usize) && #[trigger] rows@[f]@ == seq![c2 as usize] by {
            assert(order.contains(f as usize));
            let j = choose|j: int| 0 <= j < order.len() && order[j] == f as usize;
            assert(m[order[j] as int]);
            let (c3, k3) = choose|c3: int, k3: int| 0 <= c3 < gr.len() && 0 <= k3 < gr[c3].len() && #[trigger] gr[c3][k3] == f;
            assert(placed_before(gr, coarse_count as int, 0, f));
            assert(row_placed(gr, coarse_count as int, 0, rows@[f]@, f));
            let (c2, k2) = choose|c2: int, k2: int|
                0 <= c2 && 0 <= k2 < gr[c2].len() && (c2 < coarse_count || (c2 == coarse_count && k2 < 0))
                    && #[trigger] gr[c2][k2] == f && rows@[f]@ == seq![c2 as usize];
            assert(gr[c2][k2] == f as usize);
            assert(gr[c2].contains(f as usize));
        }
        assert(is_order_of(order, graph.num_nodes()) && perms_fit(graph, order, perms));
    }
    let ghost rv = rows@;
    let r = CoarsenResult { coarse_count, prolongation: rows, used_strategy: CoarseningStrategy::EdgeCollapse };
    assert(r.prolongation@ == rv);
    assert(r.coarse_count == gr.len());
    assert(gr.len() != graph.num_nodes());
    assert(r.prolongation@.len() == graph.num_nodes());
    assert forall|f: int| 0 <= f < graph.num_nodes() implies group_row(gr, #[trigger] r.prolongation@[f]@, f) by {
        assert(r.prolongation@[f] == rv[f]);
        let c2 = choose|c2: int| 0 <= c2 < gr.len() && gr[c2].contains(f as usize) && #[trigger] rv[f]@ == seq![c2 as usize];
        assert(r.prolongation@[f]@ == seq![c2 as usize]);
        assert(gr[c2].contains(f as usize));
    }
    assert(collapse_result(graph, gr, r));
    let res = Some(r);
    assert(collapse_outcome(graph, order, perms, res));
    res
}

} // verus!
