//! Mathematical model of an undirected graph on nodes `0..n`: adjacency
//! lists, walks, connectivity, and hop distance.

use vstd::prelude::*;
use vstd::seq_lib::*;
use vstd::set_lib::*;

verus! {

/// `u` is listed among the neighbours of `v`.
pub open spec fn has_edge(adj: Seq<Seq<usize>>, v: usize, u: usize) -> bool {
    adj[v as int].contains(u)
}

/// A well-formed adjacency structure over nodes `0..adj.len()`: every listed
/// neighbour is a node, no node lists itself, no neighbour is listed twice,
/// and the edge relation is symmetric.
pub open spec fn adj_wf(adj: Seq<Seq<usize>>) -> bool {
    &&& forall|v: int, j: int|
        0 <= v < adj.len() && 0 <= j < adj[v].len() ==> (#[trigger] adj[v][j]) < adj.len()
    &&& forall|v: int| 0 <= v < adj.len() ==> !(#[trigger] adj[v]).contains(v as usize)
    &&& forall|v: int| 0 <= v < adj.len() ==> (#[trigger] adj[v]).no_duplicates()
    &&& forall|v: usize, u: usize|
        v < adj.len() && u < adj.len() && #[trigger] has_edge(adj, v, u) ==> has_edge(adj, u, v)
}

/// `p` lists the nodes of a walk from `s` to `t`: it starts at `s`, ends at
/// `t`, consecutive entries are neighbours, and every entry is a node.
/// The walk has `p.len() - 1` hops; nodes may repeat.
pub open spec fn is_walk(adj: Seq<Seq<usize>>, p: Seq<usize>, s: usize, t: usize) -> bool {
    &&& p.len() >= 1
    &&& p[0] == s
    &&& p[p.len() - 1] == t
    &&& forall|j: int| 0 <= j < p.len() ==> (#[trigger] p[j]) < adj.len()
    &&& forall|j: int| 0 <= j < p.len() - 1 ==> #[trigger] has_edge(adj, p[j], p[j + 1])
}

/// Some walk joins `s` and `t`.
pub open spec fn connected(adj: Seq<Seq<usize>>, s: usize, t: usize) -> bool {
    exists|p: Seq<usize>| is_walk(adj, p, s, t)
}

/// `d` is the hop distance from `s` to `t`: some walk makes it in `d` hops
/// and no walk makes it in fewer.
pub open spec fn is_hop_dist(adj: Seq<Seq<usize>>, s: usize, t: usize, d: int) -> bool {
    &&& exists|p: Seq<usize>| #[trigger] is_walk(adj, p, s, t) && p.len() == d + 1
    &&& forall|p: Seq<usize>| #[trigger] is_walk(adj, p, s, t) ==> p.len() >= d + 1
}

/// Any walk can be shortened to a walk without repeated nodes between the
/// same endpoints.
pub proof fn lemma_walk_to_simple(adj: Seq<Seq<usize>>, p: Seq<usize>, s: usize, t: usize)
    requires
        is_walk(adj, p, s, t),
    ensures
        exists|q: Seq<usize>|
            #[trigger] is_walk(adj, q, s, t) && q.no_duplicates() && q.len() <= p.len(),
    decreases p.len(),
{
    if p.no_duplicates() {
        assert(is_walk(adj, p, s, t) && p.no_duplicates() && p.len() <= p.len());
    } else {
        let (i, j) = choose|i: int, j: int|
            0 <= i < p.len() && 0 <= j < p.len() && i < j && p[i] == p[j];
        let q = p.subrange(0, i).add(p.subrange(j, p.len() as int));
        assert(q.len() == p.len() - (j - i));
        assert(q[0] == s);
        assert(q[q.len() - 1] == t);
        assert forall|m: int| 0 <= m < q.len() - 1 implies #[trigger] has_edge(
            adj,
            q[m],
            q[m + 1],
        ) by {
            if m < i - 1 {
                assert(q[m] == p[m] && q[m + 1] == p[m + 1]);
            } else if m == i - 1 {
                assert(q[m] == p[m] && q[m + 1] == p[j]);
                assert(p[j] == p[i]);
                assert(has_edge(adj, p[m], p[m + 1]));
            } else {
                assert(q[m] == p[j + (m - i)] && q[m + 1] == p[j + (m - i) + 1]);
            }
        }
        assert(is_walk(adj, q, s, t));
        lemma_walk_to_simple(adj, q, s, t);
        let r = choose|r: Seq<usize>|
            #[trigger] is_walk(adj, r, s, t) && r.no_duplicates() && r.len() <= q.len();
        assert(is_walk(adj, r, s, t) && r.no_duplicates() && r.len() <= p.len());
    }
}

/// A walk without repeated nodes visits at most `adj.len()` nodes.
pub proof fn lemma_simple_walk_bound(adj: Seq<Seq<usize>>, p: Seq<usize>, s: usize, t: usize)
    requires
        is_walk(adj, p, s, t),
        p.no_duplicates(),
    ensures
        p.len() <= adj.len(),
{
    broadcast use seq_to_set_is_finite;

    let n = adj.len() as int;
    let q = p.map_values(|x: usize| x as int);
    assert forall|i: int, j: int|
        0 <= i < q.len() && 0 <= j < q.len() && i != j implies q[i] != q[j] by {
        assert(p[i] != p[j]);
    }
    assert(q.no_duplicates());
    q.unique_seq_to_set();
    assert forall|x: int| q.to_set().contains(x) implies set_int_range(0, n).contains(x) by {
        let k = choose|k: int| 0 <= k < q.len() && q[k] == x;
        assert(p[k] < adj.len());
    }
    assert(q.to_set().subset_of(set_int_range(0, n)));
    lemma_int_range(0, n);
    lemma_len_subset(q.to_set(), set_int_range(0, n));
}

/// Hop distance is unique: two distances between the same endpoints agree.
pub proof fn lemma_hop_dist_unique(adj: Seq<Seq<usize>>, s: usize, t: usize, d1: int, d2: int)
    requires
        is_hop_dist(adj, s, t, d1),
        is_hop_dist(adj, s, t, d2),
    ensures
        d1 == d2,
{
    let p1 = choose|p: Seq<usize>| #[trigger] is_walk(adj, p, s, t) && p.len() == d1 + 1;
    let p2 = choose|p: Seq<usize>| #[trigger] is_walk(adj, p, s, t) && p.len() == d2 + 1;
    assert(p1.len() >= d2 + 1);
    assert(p2.len() >= d1 + 1);
}

} // verus!
