//! The network simulation: building a random graph, choosing landmark
//! nodes, converging the per-node coordinate vectors, and checking whether
//! the final coordinate table identifies nodes uniquely.

use crate::graph::{
    adj_wf, connected, has_edge, is_hop_dist, is_walk, lemma_simple_walk_bound,
    lemma_walk_to_simple,
};
use crate::randgen::sample_below;
use vstd::prelude::*;

verus! {

/// A landmark request that cannot be satisfied.
#[derive(Clone, Copy, Debug, PartialEq, Eq, Structural)]
pub enum ConfigError {
    /// More landmarks were requested than the network has nodes.
    TooManyLandmarks,
    /// A proposed landmark is out of range or repeated.
    BadLandmark,
}

/// The per-row sequence view of a table of rows.
pub open spec fn rows_view(t: Seq<Vec<usize>>) -> Seq<Seq<usize>> {
    Seq::new(t.len(), |v: int| t[v]@)
}

/// The per-row sequence view of a working coordinate matrix.
pub open spec fn mat_view(m: Seq<Vec<Option<usize>>>) -> Seq<Seq<Option<usize>>> {
    Seq::new(m.len(), |v: int| m[v]@)
}

/// A network of `n` nodes with its adjacency lists, the chosen landmark
/// sequence, and the committed coordinate table (empty until a convergence
/// attempt succeeds).
pub struct Network {
    n: usize,
    neighbours: Vec<Vec<usize>>,
    landmarks: Vec<usize>,
    coords: Vec<Vec<usize>>,
}

impl Network {
    /// The adjacency lists, one per node.
    pub closed spec fn adj(self) -> Seq<Seq<usize>> {
        rows_view(self.neighbours@)
    }

    /// The landmark sequence; its order fixes the coordinate axes.
    pub closed spec fn lms(self) -> Seq<usize> {
        self.landmarks@
    }

    /// The committed coordinate table, one row per node.
    pub closed spec fn table(self) -> Seq<Seq<usize>> {
        rows_view(self.coords@)
    }

    /// The number of nodes.
    pub closed spec fn size(self) -> int {
        self.n as int
    }

    /// Structural invariant: the adjacency lists cover exactly the nodes
    /// `0..n` and form a well-formed undirected graph, and the landmarks are
    /// distinct nodes.
    pub open spec fn wf(self) -> bool {
        &&& self.size() == self.adj().len()
        &&& adj_wf(self.adj())
        &&& forall|i: int| 0 <= i < self.lms().len() ==> (#[trigger] self.lms()[i]) < self.size()
        &&& self.lms().no_duplicates()
    }

    /// A network with no nodes, no landmarks and no table.
    pub fn new() -> (net: Network)
        ensures
            net.wf(),
            net.size() == 0,
            net.lms().len() == 0,
            net.table().len() == 0,
    {
        Network { n: 0, neighbours: Vec::new(), landmarks: Vec::new(), coords: Vec::new() }
    }
}

impl Network {
    /// Discard any previous graph and wire up a fresh one on `n` nodes: for
    /// each node, `num_neighbours` independent trials each draw a random
    /// peer and add the undirected edge unless it would be a self-loop or a
    /// repeat.  The result may be disconnected; that is for later stages to
    /// detect.
    pub fn build_network(self, n: usize, num_neighbours: usize, rng: &mut rand::rngs::ThreadRng) -> (net:
        Network)
        requires
            self.lms().len() == 0,
        ensures
            net.wf(),
            net.size() == n,
            net.lms().len() == 0,
            net.table() == self.table(),
    {
        let Network { n: _, neighbours: _, landmarks, coords } = self;
        let mut neighbours: Vec<Vec<usize>> = Vec::new();
        let mut v: usize = 0;
        while v < n
            invariant
                v <= n,
                neighbours@.len() == v,
                forall|w: int| 0 <= w < v ==> (#[trigger] neighbours@[w])@.len() == 0,
            decreases n - v,
        {
            neighbours.push(Vec::new());
            v += 1;
        }
        proof {
            assert(adj_wf(rows_view(neighbours@)));
        }
        let mut v: usize = 0;
        while v < n
            invariant
                v <= n,
                neighbours@.len() == n,
                adj_wf(rows_view(neighbours@)),
            decreases n - v,
        {
            let mut t: usize = 0;
            while t < num_neighbours
                invariant
                    v < n,
                    neighbours@.len() == n,
                    adj_wf(rows_view(neighbours@)),
                decreases num_neighbours - t,
            {
                let u = sample_below(rng, n);
                if u != v {
                    if !has_member(&neighbours[v], u) {
                        let ghost adj0 = rows_view(neighbours@);
                        adj_push(&mut neighbours, v, u);
                        adj_push(&mut neighbours, u, v);
                        proof {
                            let adj2 = rows_view(neighbours@);
                            assert forall|w: int, j: int|
                                0 <= w < adj2.len() && 0 <= j < adj2[w].len() implies (
                            #[trigger] adj2[w][j]) < adj2.len() by {
                                if w != v && w != u {
                                    assert(adj2[w] == adj0[w]);
                                }
                            }
                            assert forall|w: int| 0 <= w < adj2.len() implies !(
                            #[trigger] adj2[w]).contains(w as usize) by {
                                if w != v && w != u {
                                    assert(adj2[w] == adj0[w]);
                                } else if w == v {
                                    assert forall|j: int| 0 <= j < adj2[w].len() implies adj2[w][j]
                                        != w by {
                                        if j < adj0[v as int].len() {
                                            assert(!adj0[v as int].contains(v as usize));
                                        }
                                    }
                                } else {
                                    assert forall|j: int| 0 <= j < adj2[w].len() implies adj2[w][j]
                                        != w by {
                                        if j < adj0[u as int].len() {
                                            assert(!adj0[u as int].contains(u as usize));
                                        }
                                    }
                                }
                            }
                            assert forall|w: int| 0 <= w < adj2.len() implies (
                            #[trigger] adj2[w]).no_duplicates() by {
                                if w != v && w != u {
                                    assert(adj2[w] == adj0[w]);
                                } else if w == v {
                                    assert(!adj0[v as int].contains(u));
                                    assert(adj2[v as int] == adj0[v as int].push(u));
                                } else {
                                    assert(!has_edge(adj0, u, v)) by {
                                        assert(!has_edge(adj0, v, u));
                                    }
                                    assert(!adj0[u as int].contains(v as usize));
                                    assert(adj2[u as int] == adj0[u as int].push(v));
                                }
                            }
                            assert forall|a: usize, b: usize|
                                a < adj2.len() && b < adj2.len() && #[trigger] has_edge(
                                adj2,
                                a,
                                b,
                            ) implies has_edge(adj2, b, a) by {
                                lemma_edge_after_insert(adj0, adj2, v, u, a, b);
                                lemma_edge_after_insert(adj0, adj2, v, u, b, a);
                            }
                        }
                    }
                }
                t += 1;
            }
            v += 1;
        }
        Network { n, neighbours, landmarks, coords }
    }

    /// Randomly pick the landmark sequence: `num_landmarks` distinct nodes.
    /// Fails when more landmarks are requested than the network has nodes.
    pub fn choose_landmarks(self, num_landmarks: usize, rng: &mut rand::rngs::ThreadRng) -> (r:
        Result<Network, ConfigError>)
        requires
            self.wf(),
        ensures
            r is Ok <==> num_landmarks <= self.size(),
            r matches Ok(net) ==> {
                &&& net.wf()
                &&& net.adj() == self.adj()
                &&& net.size() == self.size()
                &&& net.table() == self.table()
                &&& net.lms().len() == num_landmarks
            },
            r matches Err(e) ==> e == ConfigError::TooManyLandmarks,
    {
        let Network { n, neighbours, landmarks: _, coords } = self;
        match choose_k_nums(num_landmarks, n, rng) {
            Ok(landmarks) => Ok(Network { n, neighbours, landmarks, coords }),
            Err(e) => Err(e),
        }
    }

    /// One relaxation round.  Every node asks each of its neighbours about
    /// its distance to every landmark and adopts the neighbour's distance
    /// plus one hop when that is strictly better than what it holds.
    /// Updates land in place, so nodes visited later in the same round may
    /// already observe them.  Returns whether the round changed anything;
    /// when it did not, the matrix is a fixpoint of the relaxation.
    pub fn iter_coords(&self, work_coords: &mut Vec<Vec<Option<usize>>>) -> (changed: bool)
        requires
            self.wf(),
            matrix_shape(mat_view(old(work_coords)@), self.size(), self.lms().len() as int),
            slots_reachable(self.adj(), self.lms(), mat_view(old(work_coords)@)),
        ensures
            matrix_shape(mat_view(final(work_coords)@), self.size(), self.lms().len() as int),
            slots_reachable(self.adj(), self.lms(), mat_view(final(work_coords)@)),
            no_slot_worsened(mat_view(old(work_coords)@), mat_view(final(work_coords)@)),
            !changed ==> mat_view(final(work_coords)@) == mat_view(old(work_coords)@)
                && stable_matrix(self.adj(), mat_view(final(work_coords)@)),
            changed ==> mat_view(final(work_coords)@) != mat_view(old(work_coords)@),
            changed ==> mat_rank(mat_view(final(work_coords)@)) < mat_rank(
                mat_view(old(work_coords)@),
            ),
    {
        let ghost adj = self.adj();
        let ghost lms = self.lms();
        let ghost m0 = mat_view(work_coords@);
        let mut has_changed = false;
        let n = self.n;
        let mut v: usize = 0;
        while v < n
            invariant
                self.wf(),
                n == self.size(),
                adj == self.adj(),
                lms == self.lms(),
                m0 == mat_view(old(work_coords)@),
                matrix_shape(m0, n as int, lms.len() as int),
                v <= n,
                matrix_shape(mat_view(work_coords@), n as int, lms.len() as int),
                slots_reachable(adj, lms, mat_view(work_coords@)),
                no_slot_worsened(m0, mat_view(work_coords@)),
                !has_changed ==> mat_view(work_coords@) == m0,
                !has_changed ==> prefix_stable(adj, mat_view(work_coords@), v as int),
                has_changed ==> mat_rank(mat_view(work_coords@)) < mat_rank(m0),
            decreases n - v,
        {
            let deg = self.neighbours[v].len();
            let mut k: usize = 0;
            while k < deg
                invariant
                    self.wf(),
                    n == self.size(),
                    adj == self.adj(),
                    lms == self.lms(),
                    m0 == mat_view(old(work_coords)@),
                    matrix_shape(m0, n as int, lms.len() as int),
                    v < n,
                    deg == adj[v as int].len(),
                    k <= deg,
                    matrix_shape(mat_view(work_coords@), n as int, lms.len() as int),
                    slots_reachable(adj, lms, mat_view(work_coords@)),
                    no_slot_worsened(m0, mat_view(work_coords@)),
                    !has_changed ==> mat_view(work_coords@) == m0,
                    !has_changed ==> prefix_stable(adj, mat_view(work_coords@), v as int),
                    !has_changed ==> node_prefix_stable(adj, mat_view(work_coords@), v, k as int),
                    has_changed ==> mat_rank(mat_view(work_coords@)) < mat_rank(m0),
                decreases deg - k,
            {
                let row_v_ref = &self.neighbours[v];
                let nei = row_v_ref[k];
                proof {
                    assert(adj[v as int][k as int] == nei);
                    assert(nei < n);
                    assert(has_edge(adj, v, nei)) by {
                        assert(adj[v as int].contains(nei));
                    }
                    assert(has_edge(adj, nei, v));
                }
                let nei_row_ref = &work_coords[nei];
                let l = nei_row_ref.len();
                proof {
                    assert(mat_view(work_coords@)[nei as int] == work_coords@[nei as int]@);
                    assert(l == lms.len());
                }
                let mut c: usize = 0;
                while c < l
                    invariant
                        self.wf(),
                        n == self.size(),
                        adj == self.adj(),
                        lms == self.lms(),
                        m0 == mat_view(old(work_coords)@),
                        matrix_shape(m0, n as int, lms.len() as int),
                        v < n,
                        nei < n,
                        deg == adj[v as int].len(),
                        k < deg,
                        nei == adj[v as int][k as int],
                        has_edge(adj, nei, v),
                        l == lms.len(),
                        c <= l,
                        matrix_shape(mat_view(work_coords@), n as int, lms.len() as int),
                        slots_reachable(adj, lms, mat_view(work_coords@)),
                        no_slot_worsened(m0, mat_view(work_coords@)),
                        !has_changed ==> mat_view(work_coords@) == m0,
                        !has_changed ==> prefix_stable(adj, mat_view(work_coords@), v as int),
                        !has_changed ==> node_prefix_stable(
                            adj,
                            mat_view(work_coords@),
                            v,
                            k as int,
                        ),
                        !has_changed ==> pair_prefix_stable(
                            mat_view(work_coords@),
                            v,
                            nei,
                            c as int,
                        ),
                        has_changed ==> mat_rank(mat_view(work_coords@)) < mat_rank(m0),
                    decreases l - c,
                {
                    proof {
                        assert(mat_view(work_coords@)[nei as int] == work_coords@[nei as int]@);
                        assert(mat_view(work_coords@)[v as int] == work_coords@[v as int]@);
                    }
                    let nei_row = &work_coords[nei];
                    let dist_opt = nei_row[c];
                    if let Some(d) = dist_opt {
                        // A slot at the numeric ceiling cannot offer a
                        // representable one-hop improvement; it is also out
                        // of reach of any graph this machine can hold.
                        if d < usize::MAX {
                            let cdist = d + 1;
                            let v_row = &work_coords[v];
                            let cur = v_row[c];
                            let improve = match cur {
                                None => true,
                                Some(e) => e > cdist,
                            };
                            if improve {
                                let ghost mpre = mat_view(work_coords@);
                                set_slot(work_coords, v, c, Some(cdist));
                                proof {
                                    let mpost = mat_view(work_coords@);
                                    let row2 = mpre[v as int].update(c as int, Some(cdist));
                                    lemma_row_rank_update(mpre[v as int], c as int, Some(cdist));
                                    lemma_mat_rank_update(mpre, v as int, row2);
                                    assert(slot_rank(Some(cdist)) < slot_rank(
                                        mpre[v as int][c as int],
                                    ));
                                    assert(mat_rank(mpost) < mat_rank(mpre));
                                    if !has_changed {
                                        assert(mpre == m0);
                                    }
                                    assert(mat_rank(mpost) < mat_rank(m0));
                                    // the new slot is witnessed by the
                                    // neighbour's walk extended one hop
                                    let p = choose|p: Seq<usize>|
                                        #[trigger] is_walk(adj, p, lms[c as int], nei) && p.len()
                                            == mpre[nei as int][c as int]->0 + 1;
                                    let p2 = p.push(v);
                                    assert(is_walk(adj, p2, lms[c as int], v)) by {
                                        assert(p2[p2.len() - 1] == v);
                                        assert(p2[0] == p[0]);
                                        assert forall|j: int| 0 <= j < p2.len() - 1 implies
                                            #[trigger] has_edge(adj, p2[j], p2[j + 1]) by {
                                            if j < p.len() - 1 {
                                                assert(p2[j] == p[j] && p2[j + 1] == p[j + 1]);
                                            } else {
                                                assert(p2[j] == nei && p2[j + 1] == v);
                                            }
                                        }
                                    }
                                    assert forall|v2: int, i2: int|
                                        0 <= v2 < mpost.len() && 0 <= i2 < mpost[v2].len() && (
                                    #[trigger] mpost[v2][i2]) is Some implies exists|q: Seq<usize>|
                                        #[trigger] is_walk(adj, q, lms[i2], v2 as usize) && q.len()
                                            == mpost[v2][i2]->0 + 1 by {
                                        if v2 == v as int && i2 == c as int {
                                            assert(is_walk(adj, p2, lms[i2], v2 as usize)
                                                && p2.len() == mpost[v2][i2]->0 + 1);
                                        } else {
                                            assert(mpost[v2][i2] == mpre[v2][i2]);
                                            let q = choose|q: Seq<usize>|
                                                #[trigger] is_walk(adj, q, lms[i2], v2 as usize)
                                                    && q.len() == mpre[v2][i2]->0 + 1;
                                            assert(is_walk(adj, q, lms[i2], v2 as usize) && q.len()
                                                == mpost[v2][i2]->0 + 1);
                                        }
                                    }
                                    assert forall|v2: int, i2: int|
                                        0 <= v2 < m0.len() && 0 <= i2 < m0[v2].len() && (
                                    #[trigger] m0[v2][i2]) is Some implies (#[trigger] mpost[v2][i2]) is Some
                                        && mpost[v2][i2]->0 <= m0[v2][i2]->0 by {
                                        assert(mpre[v2][i2] is Some && mpre[v2][i2]->0
                                            <= m0[v2][i2]->0);
                                        if v2 == v as int && i2 == c as int {
                                            assert(mpost[v2][i2] == Some(cdist));
                                        } else if v2 == v as int {
                                            assert(mpre[v2].len() == lms.len());
                                            assert(mpost[v2] == row2);
                                            assert(mpost[v2][i2] == mpre[v2][i2]);
                                        } else {
                                            assert(mpost[v2] == mpre[v2]);
                                        }
                                    }
                                }
                                has_changed = true;
                            }
                        }
                    }
                    proof {
                        if !has_changed {
                            let m = mat_view(work_coords@);
                            assert(relaxed_at(m, v, nei, c as int));
                            assert forall|i: int| 0 <= i < c + 1 implies #[trigger] relaxed_at(
                                m,
                                v,
                                nei,
                                i,
                            ) by {}
                        }
                    }
                    c += 1;
                }
                proof {
                    if !has_changed {
                        let m = mat_view(work_coords@);
                        assert forall|k2: int, i: int|
                            0 <= k2 < k + 1 && 0 <= i < m[v as int].len() implies relaxed_at(
                            m,
                            v,
                            adj[v as int][k2],
                            i,
                        ) by {
                            if k2 == k {
                                assert(pair_prefix_stable(m, v, nei, l as int));
                                assert(relaxed_at(m, v, nei, i));
                            }
                        }
                        assert(node_prefix_stable(adj, m, v, k as int + 1));
                    }
                }
                k += 1;
            }
            proof {
                if !has_changed {
                    let m = mat_view(work_coords@);
                    assert forall|w: usize, k2: int, i: int|
                        w < v + 1 && 0 <= k2 < adj[w as int].len() && 0 <= i
                            < m[w as int].len() implies relaxed_at(m, w, adj[w as int][k2], i) by {
                        if w == v {
                            assert(node_prefix_stable(adj, m, v, deg as int));
                            assert(relaxed_at(m, v, adj[v as int][k2], i));
                        }
                    }
                    assert(prefix_stable(adj, m, v as int + 1));
                }
            }
            v += 1;
        }
        proof {
            if !has_changed {
                let m = mat_view(work_coords@);
                assert forall|a: usize, b: usize, i: int|
                    a < m.len() && b < m.len() && has_edge(adj, a, b) && 0 <= i
                        < m[a as int].len() implies relaxed_at(m, a, b, i) by {
                    let k2 = choose|k2: int|
                        0 <= k2 < adj[a as int].len() && adj[a as int][k2] == b;
                    assert(relaxed_at(m, a, adj[a as int][k2], i));
                }
                assert(stable_matrix(adj, m));
            }
        }
        has_changed
    }

    /// The seeded working matrix for one convergence attempt: each landmark
    /// holds distance zero on its own axis; every other slot is unresolved.
    pub fn init_coords(&self) -> (m: Vec<Vec<Option<usize>>>)
        requires
            self.wf(),
        ensures
            matrix_shape(mat_view(m@), self.size(), self.lms().len() as int),
            slots_reachable(self.adj(), self.lms(), mat_view(m@)),
            landmark_slots_zero(self.lms(), mat_view(m@)),
            forall|w: int, i: int|
                0 <= w < self.size() && 0 <= i < self.lms().len() ==> (
                #[trigger] mat_view(m@)[w][i]) == (if self.lms()[i] == w {
                    Some(0usize)
                } else {
                    None::<usize>
                }),
    {
        let ghost adj = self.adj();
        let ghost lms = self.lms();
        let n = self.n;
        let l = self.landmarks.len();
        let mut work_coords: Vec<Vec<Option<usize>>> = Vec::new();
        let mut v: usize = 0;
        while v < n
            invariant
                self.wf(),
                adj == self.adj(),
                lms == self.lms(),
                n == self.size(),
                l == lms.len(),
                v <= n,
                work_coords@.len() == v,
                forall|w: int| 0 <= w < v ==> (#[trigger] work_coords@[w])@.len() == l,
                forall|w: int, i: int|
                    0 <= w < v && 0 <= i < l ==> (#[trigger] work_coords@[w]@[i]) == (if lms[i]
                        == w {
                        Some(0usize)
                    } else {
                        None::<usize>
                    }),
            decreases n - v,
        {
            let mut row: Vec<Option<usize>> = Vec::new();
            let mut i: usize = 0;
            while i < l
                invariant
                    lms == self.lms(),
                    l == self.landmarks@.len(),
                    i <= l,
                    row@.len() == i,
                    forall|j: int|
                        0 <= j < i ==> (#[trigger] row@[j]) == (if lms[j] == v {
                            Some(0usize)
                        } else {
                            None::<usize>
                        }),
                decreases l - i,
            {
                if self.landmarks[i] == v {
                    row.push(Some(0));
                } else {
                    row.push(None);
                }
                i += 1;
            }
            work_coords.push(row);
            v += 1;
        }
        proof {
            let m = mat_view(work_coords@);
            assert forall|w: int| 0 <= w < n implies (#[trigger] m[w]).len() == l by {
                assert(m[w] == work_coords@[w]@);
            }
            assert(matrix_shape(m, n as int, l as int));
            assert forall|w: int, i: int| 0 <= w < n && 0 <= i < l implies (#[trigger] m[w][i]) == (
            if lms[i] == w {
                Some(0usize)
            } else {
                None::<usize>
            }) by {
                assert(m[w] == work_coords@[w]@);
            }
            assert forall|v2: int, i2: int|
                0 <= v2 < m.len() && 0 <= i2 < m[v2].len() && (#[trigger] m[v2][i2]) is Some implies exists|
                p: Seq<usize>,
            |
                #[trigger] is_walk(adj, p, lms[i2], v2 as usize) && p.len() == m[v2][i2]->0
                    + 1 by {
                assert(m[v2] == work_coords@[v2]@);
                assert(lms[i2] == v2);
                let p = seq![lms[i2]];
                assert(is_walk(adj, p, lms[i2], v2 as usize) && p.len() == m[v2][i2]->0 + 1);
            }
            assert forall|i2: int|
                0 <= i2 < lms.len() && lms[i2] < m.len() && i2 < m[lms[i2] as int].len() implies
                #[trigger] m[lms[i2] as int][i2] == Some(0usize) by {
                assert(m[lms[i2] as int] == work_coords@[lms[i2] as int]@);
            }
            assert(landmark_slots_zero(lms, m));
        }
        work_coords
    }

    /// Run relaxation rounds from the seeded matrix until a round changes
    /// nothing.  On full convergence the matrix is committed as the
    /// coordinate table — every entry the exact hop distance from its node
    /// to its axis landmark — and the call reports success.  If any slot
    /// stays unresolved, some node cannot reach some landmark: the table is
    /// left untouched and the call reports failure.
    pub fn converge_coords(&mut self) -> (r: bool)
        requires
            old(self).wf(),
        ensures
            final(self).wf(),
            final(self).adj() == old(self).adj(),
            final(self).lms() == old(self).lms(),
            final(self).size() == old(self).size(),
            r ==> {
                &&& final(self).table().len() == final(self).size()
                &&& forall|v: int|
                    0 <= v < final(self).table().len() ==> (#[trigger] final(self).table()[v]).len()
                        == final(self).lms().len()
                &&& forall|v: int, i: int|
                    0 <= v < final(self).table().len() && 0 <= i < final(self).lms().len()
                        ==> is_hop_dist(
                        final(self).adj(),
                        final(self).lms()[i],
                        v as usize,
                        #[trigger] final(self).table()[v][i] as int,
                    )
                &&& forall|i: int|
                    0 <= i < final(self).lms().len()
                        ==> #[trigger] final(self).table()[final(self).lms()[i] as int][i] == 0
            },
            !r ==> final(self).table() == old(self).table() && exists|v: usize, i: int|
                v < old(self).size() && 0 <= i < old(self).lms().len() && !connected(
                    old(self).adj(),
                    old(self).lms()[i],
                    v,
                ),
    {
        let ghost adj = self.adj();
        let ghost lms = self.lms();
        let n = self.n;
        let l = self.landmarks.len();
        let mut work_coords: Vec<Vec<Option<usize>>> = self.init_coords();
        loop
            invariant_except_break
                *self == *old(self),
                self.wf(),
                adj == self.adj(),
                lms == self.lms(),
                n == self.size(),
                l == lms.len(),
                matrix_shape(mat_view(work_coords@), n as int, l as int),
                slots_reachable(adj, lms, mat_view(work_coords@)),
                landmark_slots_zero(lms, mat_view(work_coords@)),
            ensures
                *self == *old(self),
                matrix_shape(mat_view(work_coords@), n as int, l as int),
                slots_reachable(adj, lms, mat_view(work_coords@)),
                landmark_slots_zero(lms, mat_view(work_coords@)),
                stable_matrix(adj, mat_view(work_coords@)),
            decreases mat_rank(mat_view(work_coords@)),
        {
            let ghost mpre = mat_view(work_coords@);
            let changed = self.iter_coords(&mut work_coords);
            proof {
                let mpost = mat_view(work_coords@);
                assert forall|i2: int|
                    0 <= i2 < lms.len() && lms[i2] < mpost.len() && i2 < mpost[lms[i2] as int].len() implies
                    #[trigger] mpost[lms[i2] as int][i2] == Some(0usize) by {
                    assert(mpre[lms[i2] as int][i2] == Some(0usize));
                    assert(mpost[lms[i2] as int][i2] is Some && mpost[lms[i2] as int][i2]->0
                        <= mpre[lms[i2] as int][i2]->0);
                }
                assert(landmark_slots_zero(lms, mpost));
            }
            if !changed {
                break;
            }
        }
        let mut is_disconnected = false;
        let mut bad_v: usize = 0;
        let mut bad_i: usize = 0;
        let mut v2: usize = 0;
        while v2 < n
            invariant
                n == mat_view(work_coords@).len(),
                l == lms.len(),
                matrix_shape(mat_view(work_coords@), n as int, l as int),
                v2 <= n,
                !is_disconnected ==> forall|w: int, i: int|
                    0 <= w < v2 && 0 <= i < l ==> (#[trigger] mat_view(work_coords@)[w][i]) is Some,
                is_disconnected ==> bad_v < n && bad_i < l && mat_view(work_coords@)[bad_v as int][bad_i as int] is None,
            decreases n - v2,
        {
            if !is_disconnected {
                let mut i2: usize = 0;
                while i2 < l
                    invariant
                        n == mat_view(work_coords@).len(),
                        l == lms.len(),
                        matrix_shape(mat_view(work_coords@), n as int, l as int),
                        v2 < n,
                        i2 <= l,
                        !is_disconnected ==> forall|w: int, i: int|
                            0 <= w < v2 && 0 <= i < l ==> (
                            #[trigger] mat_view(work_coords@)[w][i]) is Some,
                        !is_disconnected ==> forall|i: int|
                            0 <= i < i2 ==> (#[trigger] mat_view(work_coords@)[v2 as int][i]) is Some,
                        is_disconnected ==> bad_v < n && bad_i < l && mat_view(
                            work_coords@,
                        )[bad_v as int][bad_i as int] is None,
                    decreases l - i2,
                {
                    proof {
                        assert(mat_view(work_coords@)[v2 as int] == work_coords@[v2 as int]@);
                    }
                    let rowref = &work_coords[v2];
                    if rowref[i2].is_none() {
                        is_disconnected = true;
                        bad_v = v2;
                        bad_i = i2;
                    }
                    i2 += 1;
                }
            }
            v2 += 1;
        }
        if is_disconnected {
            proof {
                assert(!connected(adj, lms[bad_i as int], bad_v)) by {
                    if connected(adj, lms[bad_i as int], bad_v) {
                        let m = mat_view(work_coords@);
                        let p = choose|p: Seq<usize>| is_walk(adj, p, lms[bad_i as int], bad_v);
                        lemma_walk_to_simple(adj, p, lms[bad_i as int], bad_v);
                        let q = choose|q: Seq<usize>|
                            #[trigger] is_walk(adj, q, lms[bad_i as int], bad_v)
                                && q.no_duplicates() && q.len() <= p.len();
                        lemma_simple_walk_bound(adj, q, lms[bad_i as int], bad_v);
                        lemma_walk_forces_known(adj, lms, m, bad_i as int, q, bad_v);
                    }
                }
            }
            return false;
        }
        let mut table: Vec<Vec<usize>> = Vec::new();
        let mut v3: usize = 0;
        while v3 < n
            invariant
                n == mat_view(work_coords@).len(),
                l == lms.len(),
                matrix_shape(mat_view(work_coords@), n as int, l as int),
                forall|w: int, i: int|
                    0 <= w < n && 0 <= i < l ==> (#[trigger] mat_view(work_coords@)[w][i]) is Some,
                v3 <= n,
                table@.len() == v3,
                forall|w: int| 0 <= w < v3 ==> (#[trigger] table@[w])@.len() == l,
                forall|w: int, i: int|
                    0 <= w < v3 && 0 <= i < l ==> Some(#[trigger] table@[w]@[i]) == mat_view(
                        work_coords@,
                    )[w][i],
            decreases n - v3,
        {
            let mut trow: Vec<usize> = Vec::new();
            let mut i3: usize = 0;
            while i3 < l
                invariant
                    n == mat_view(work_coords@).len(),
                    l == lms.len(),
                    matrix_shape(mat_view(work_coords@), n as int, l as int),
                    forall|w: int, i: int|
                        0 <= w < n && 0 <= i < l ==> (
                        #[trigger] mat_view(work_coords@)[w][i]) is Some,
                    v3 < n,
                    i3 <= l,
                    trow@.len() == i3,
                    forall|j: int|
                        0 <= j < i3 ==> Some(#[trigger] trow@[j]) == mat_view(
                            work_coords@,
                        )[v3 as int][j],
                decreases l - i3,
            {
                proof {
                    assert(mat_view(work_coords@)[v3 as int] == work_coords@[v3 as int]@);
                }
                let rowref = &work_coords[v3];
                match rowref[i3] {
                    Some(d) => trow.push(d),
                    None => {
                        proof {
                            assert(false);
                        }
                    },
                }
                i3 += 1;
            }
            table.push(trow);
            v3 += 1;
        }
        self.coords = table;
        proof {
            let m = mat_view(work_coords@);
            let t = self.table();
            assert forall|w: int| 0 <= w < n implies (#[trigger] t[w]).len() == l by {
                assert(t[w] == self.coords@[w]@);
            }
            assert forall|w: int, i: int| 0 <= w < n && 0 <= i < l implies Some(
                #[trigger] t[w][i] as usize,
            ) == m[w][i] by {
                assert(t[w] == self.coords@[w]@);
            }
            assert forall|w: int, i: int| 0 <= w < n && 0 <= i < l implies is_hop_dist(
                adj,
                lms[i],
                w as usize,
                #[trigger] t[w][i] as int,
            ) by {
                let d = m[w][i]->0;
                assert(t[w][i] == d);
                assert forall|p: Seq<usize>| #[trigger] is_walk(adj, p, lms[i], w as usize) implies p.len()
                    >= d + 1 by {
                    lemma_walk_to_simple(adj, p, lms[i], w as usize);
                    let q = choose|q: Seq<usize>|
                        #[trigger] is_walk(adj, q, lms[i], w as usize) && q.no_duplicates()
                            && q.len() <= p.len();
                    lemma_simple_walk_bound(adj, q, lms[i], w as usize);
                    lemma_walk_forces_known(adj, lms, m, i, q, w as usize);
                }
            }
            assert forall|i: int| 0 <= i < l implies #[trigger] t[lms[i] as int][i] == 0 by {
                assert(m[lms[i] as int][i] == Some(0usize));
                assert(Some(t[lms[i] as int][i] as usize) == m[lms[i] as int][i]);
            }
        }
        true
    }
}

/// Shape of a working matrix: one row per node, one slot per landmark axis.
pub open spec fn matrix_shape(m: Seq<Seq<Option<usize>>>, n: int, l: int) -> bool {
    &&& m.len() == n
    &&& forall|v: int| 0 <= v < n ==> (#[trigger] m[v]).len() == l
}

/// Every resolved slot is witnessed by a walk of exactly that many hops
/// from the axis landmark to the node.
pub open spec fn slots_reachable(
    adj: Seq<Seq<usize>>,
    lms: Seq<usize>,
    m: Seq<Seq<Option<usize>>>,
) -> bool {
    forall|v: int, i: int|
        0 <= v < m.len() && 0 <= i < m[v].len() && (#[trigger] m[v][i]) is Some
            ==> exists|p: Seq<usize>|
            #[trigger] is_walk(adj, p, lms[i], v as usize) && p.len() == m[v][i]->0 + 1
}

/// The relaxation condition for node `v` against neighbour `u` on axis `i`:
/// a resolved neighbour slot (short of the numeric ceiling) forces a
/// resolved slot at `v` at most one hop larger.
pub open spec fn relaxed_at(
    m: Seq<Seq<Option<usize>>>,
    v: usize,
    u: usize,
    i: int,
) -> bool {
    (m[u as int][i] is Some && m[u as int][i]->0 < usize::MAX) ==> (m[v as int][i] is Some
        && m[v as int][i]->0 <= m[u as int][i]->0 + 1)
}

/// A further relaxation round could improve nothing: every directed
/// adjacency pair is relaxed on every axis.
pub open spec fn stable_matrix(adj: Seq<Seq<usize>>, m: Seq<Seq<Option<usize>>>) -> bool {
    forall|v: usize, u: usize, i: int|
        #![trigger has_edge(adj, v, u), m[u as int][i]]
        v < m.len() && u < m.len() && has_edge(adj, v, u) && 0 <= i < m[v as int].len() ==> relaxed_at(
            m,
            v,
            u,
            i,
        )
}

/// Between two states of the matrix: no slot got worse — resolved slots
/// stay resolved and never increase.
pub open spec fn no_slot_worsened(
    m1: Seq<Seq<Option<usize>>>,
    m2: Seq<Seq<Option<usize>>>,
) -> bool {
    forall|v: int, i: int|
        0 <= v < m1.len() && 0 <= i < m1[v].len() && (#[trigger] m1[v][i]) is Some ==> (
        #[trigger] m2[v][i]) is Some && m2[v][i]->0 <= m1[v][i]->0
}

/// Each landmark holds distance zero on its own axis.
pub open spec fn landmark_slots_zero(lms: Seq<usize>, m: Seq<Seq<Option<usize>>>) -> bool {
    forall|i: int|
        0 <= i < lms.len() && lms[i] < m.len() && i < m[lms[i] as int].len()
            ==> #[trigger] m[lms[i] as int][i] == Some(0usize)
}

/// Rank of one slot for the termination measure: an unresolved slot ranks
/// above every representable distance.
pub open spec fn slot_rank(s: Option<usize>) -> nat {
    match s {
        None => usize::MAX as nat + 1,
        Some(d) => d as nat,
    }
}

/// Summed slot rank of one row.
pub open spec fn row_rank(r: Seq<Option<usize>>) -> nat
    decreases r.len(),
{
    if r.len() == 0 {
        0
    } else {
        slot_rank(r[0]) + row_rank(r.drop_first())
    }
}

/// Summed slot rank of the matrix: it strictly falls on every improvement,
/// which bounds the number of relaxation rounds.
pub open spec fn mat_rank(m: Seq<Seq<Option<usize>>>) -> nat
    decreases m.len(),
{
    if m.len() == 0 {
        0
    } else {
        row_rank(m[0]) + mat_rank(m.drop_first())
    }
}

/// Replacing one slot exchanges exactly its rank in the row total.
proof fn lemma_row_rank_update(r: Seq<Option<usize>>, c: int, x: Option<usize>)
    requires
        0 <= c < r.len(),
    ensures
        row_rank(r.update(c, x)) + slot_rank(r[c]) == row_rank(r) + slot_rank(x),
    decreases r.len(),
{
    let r2 = r.update(c, x);
    if c == 0 {
        assert(r2.drop_first() =~= r.drop_first());
        assert(r2[0] == x);
    } else {
        assert(r2.drop_first() =~= r.drop_first().update(c - 1, x));
        lemma_row_rank_update(r.drop_first(), c - 1, x);
        assert(r2[0] == r[0]);
    }
}

/// Replacing one row exchanges exactly its rank in the matrix total.
proof fn lemma_mat_rank_update(m: Seq<Seq<Option<usize>>>, v: int, row: Seq<Option<usize>>)
    requires
        0 <= v < m.len(),
    ensures
        mat_rank(m.update(v, row)) + row_rank(m[v]) == mat_rank(m) + row_rank(row),
    decreases m.len(),
{
    let m2 = m.update(v, row);
    if v == 0 {
        assert(m2.drop_first() =~= m.drop_first());
        assert(m2[0] == row);
    } else {
        assert(m2.drop_first() =~= m.drop_first().update(v - 1, row));
        lemma_mat_rank_update(m.drop_first(), v - 1, row);
        assert(m2[0] == m[0]);
    }
}

/// All adjacency triples of nodes before `v` are relaxed.
spec fn prefix_stable(adj: Seq<Seq<usize>>, m: Seq<Seq<Option<usize>>>, v: int) -> bool {
    forall|w: usize, k: int, i: int|
        #![trigger adj[w as int][k], m[w as int][i]]
        w < v && 0 <= k < adj[w as int].len() && 0 <= i < m[w as int].len() ==> relaxed_at(
            m,
            w,
            adj[w as int][k],
            i,
        )
}

/// Node `v` is relaxed against its first `upto_k` neighbours on all axes.
spec fn node_prefix_stable(
    adj: Seq<Seq<usize>>,
    m: Seq<Seq<Option<usize>>>,
    v: usize,
    upto_k: int,
) -> bool {
    forall|k: int, i: int|
        #![trigger adj[v as int][k], m[v as int][i]]
        0 <= k < upto_k && 0 <= i < m[v as int].len() ==> relaxed_at(m, v, adj[v as int][k], i)
}

/// Node `v` is relaxed against neighbour `u` on the first `upto_i` axes.
spec fn pair_prefix_stable(
    m: Seq<Seq<Option<usize>>>,
    v: usize,
    u: usize,
    upto_i: int,
) -> bool {
    forall|i: int| 0 <= i < upto_i ==> #[trigger] relaxed_at(m, v, u, i)
}

/// At a relaxation fixpoint whose landmarks hold zero, a walk from the
/// axis landmark forces its endpoint's slot to be resolved, and to at most
/// the walk's hop count.
proof fn lemma_walk_forces_known(
    adj: Seq<Seq<usize>>,
    lms: Seq<usize>,
    m: Seq<Seq<Option<usize>>>,
    i: int,
    p: Seq<usize>,
    t: usize,
)
    requires
        adj_wf(adj),
        adj.len() == m.len(),
        matrix_shape(m, m.len() as int, lms.len() as int),
        stable_matrix(adj, m),
        landmark_slots_zero(lms, m),
        0 <= i < lms.len(),
        lms[i] < m.len(),
        is_walk(adj, p, lms[i], t),
        p.len() <= usize::MAX,
    ensures
        m[t as int][i] is Some,
        m[t as int][i]->0 <= p.len() - 1,
    decreases p.len(),
{
    if p.len() == 1 {
        assert(t == lms[i]);
    } else {
        let u = p[p.len() - 2];
        let p1 = p.subrange(0, p.len() - 1);
        assert(is_walk(adj, p1, lms[i], u)) by {
            assert forall|j: int| 0 <= j < p1.len() - 1 implies #[trigger] has_edge(
                adj,
                p1[j],
                p1[j + 1],
            ) by {
                assert(p1[j] == p[j] && p1[j + 1] == p[j + 1]);
            }
        }
        lemma_walk_forces_known(adj, lms, m, i, p1, u);
        assert(has_edge(adj, u, t)) by {
            let j = p.len() - 2;
            assert(has_edge(adj, p[j], p[j + 1]));
        }
        assert(has_edge(adj, t, u));
        assert(relaxed_at(m, t, u, i));
    }
}

/// Write one slot of the working matrix.
fn set_slot(m: &mut Vec<Vec<Option<usize>>>, v: usize, c: usize, x: Option<usize>)
    requires
        v < old(m)@.len(),
        c < old(m)@[v as int]@.len(),
    ensures
        mat_view(final(m)@) == mat_view(old(m)@).update(
            v as int,
            mat_view(old(m)@)[v as int].update(c as int, x),
        ),
{
    let row = &mut m[v];
    row.set(c, x);
    proof {
        assert(mat_view(m@) =~= mat_view(old(m)@).update(
            v as int,
            mat_view(old(m)@)[v as int].update(c as int, x),
        ));
    }
}

/// How symmetry survives one undirected insertion: an edge of the grown
/// structure is either the inserted pair or an edge the old structure had.
proof fn lemma_edge_after_insert(
    adj0: Seq<Seq<usize>>,
    adj2: Seq<Seq<usize>>,
    v: usize,
    u: usize,
    a: usize,
    b: usize,
)
    requires
        adj0.len() == adj2.len(),
        v < adj0.len(),
        u < adj0.len(),
        adj2[v as int] == adj0[v as int].push(u),
        adj2[u as int] == adj0[u as int].push(v),
        u != v,
        forall|w: int| 0 <= w < adj0.len() && w != v && w != u ==> adj2[w] == #[trigger] adj0[w],
        a < adj0.len(),
        b < adj0.len(),
    ensures
        has_edge(adj2, a, b) <==> (has_edge(adj0, a, b) || (a == v && b == u) || (a == u && b
            == v)),
{
    if a == v {
        assert(adj2[a as int] == adj0[a as int].push(u));
        if has_edge(adj2, a, b) {
            let j = choose|j: int| 0 <= j < adj2[a as int].len() && adj2[a as int][j] == b;
            if j < adj0[a as int].len() {
                assert(adj0[a as int][j] == b);
                assert(has_edge(adj0, a, b));
            } else {
                assert(b == u);
            }
        }
        if has_edge(adj0, a, b) {
            let j = choose|j: int| 0 <= j < adj0[a as int].len() && adj0[a as int][j] == b;
            assert(adj2[a as int][j] == b);
            assert(has_edge(adj2, a, b));
        }
        if b == u {
            assert(adj2[a as int][adj0[a as int].len() as int] == b);
            assert(has_edge(adj2, a, b));
        }
    } else if a == u {
        assert(adj2[a as int] == adj0[a as int].push(v));
        if has_edge(adj2, a, b) {
            let j = choose|j: int| 0 <= j < adj2[a as int].len() && adj2[a as int][j] == b;
            if j < adj0[a as int].len() {
                assert(adj0[a as int][j] == b);
                assert(has_edge(adj0, a, b));
            } else {
                assert(b == v);
            }
        }
        if has_edge(adj0, a, b) {
            let j = choose|j: int| 0 <= j < adj0[a as int].len() && adj0[a as int][j] == b;
            assert(adj2[a as int][j] == b);
            assert(has_edge(adj2, a, b));
        }
        if b == v {
            assert(adj2[a as int][adj0[a as int].len() as int] == b);
            assert(has_edge(adj2, a, b));
        }
    } else {
        assert(adj2[a as int] == adj0[a as int]);
    }
}

/// Append `x` to the row of `v`, leaving every other row as it was.
fn adj_push(nb: &mut Vec<Vec<usize>>, v: usize, x: usize)
    requires
        v < old(nb)@.len(),
    ensures
        final(nb)@.len() == old(nb)@.len(),
        rows_view(final(nb)@)[v as int] == rows_view(old(nb)@)[v as int].push(x),
        forall|w: int|
            0 <= w < old(nb)@.len() && w != v ==> rows_view(final(nb)@)[w] == #[trigger] rows_view(
                old(nb)@,
            )[w],
{
    let row = &mut nb[v];
    row.push(x);
}

/// Whether two coordinate rows hold the same entries in the same order.
fn row_eq(a: &Vec<usize>, b: &Vec<usize>) -> (r: bool)
    ensures
        r == (a@ == b@),
{
    if a.len() != b.len() {
        return false;
    }
    let mut k: usize = 0;
    while k < a.len()
        invariant
            a@.len() == b@.len(),
            k <= a@.len(),
            forall|j: int| 0 <= j < k ==> a@[j] == b@[j],
        decreases a@.len() - k,
    {
        if a[k] != b[k] {
            return false;
        }
        k += 1;
    }
    proof {
        assert(a@ =~= b@);
    }
    true
}

/// Check that no two rows of a coordinate table coincide: each row is
/// compared, entry for entry, against every earlier row.
pub fn rows_unique(table: &Vec<Vec<usize>>) -> (r: bool)
    ensures
        r == rows_view(table@).no_duplicates(),
{
    let ghost t = rows_view(table@);
    let mut v: usize = 0;
    while v < table.len()
        invariant
            t == rows_view(table@),
            v <= t.len(),
            forall|i: int, j: int| 0 <= i < v && 0 <= j < v && i != j ==> t[i] != t[j],
        decreases t.len() - v,
    {
        let mut w: usize = 0;
        while w < v
            invariant
                t == rows_view(table@),
                v < t.len(),
                w <= v,
                forall|j: int| 0 <= j < w ==> t[j] != t[v as int],
            decreases v - w,
        {
            proof {
                assert(t[v as int] == table@[v as int]@);
                assert(t[w as int] == table@[w as int]@);
            }
            if row_eq(&table[v], &table[w]) {
                return false;
            }
            w += 1;
        }
        proof {
            assert forall|i: int, j: int|
                0 <= i < v + 1 && 0 <= j < v + 1 && i != j implies t[i] != t[j] by {}
        }
        v += 1;
    }
    true
}

impl Network {
    /// Whether the committed coordinate table identifies every node
    /// uniquely, treating each row as one opaque, order-sensitive value.
    pub fn is_coord_unique(&self) -> (r: bool)
        ensures
            r == self.table().no_duplicates(),
    {
        rows_unique(&self.coords)
    }

    /// The committed coordinate table; empty until a convergence attempt
    /// has succeeded.
    pub fn get_coords(&self) -> (r: &Vec<Vec<usize>>)
        ensures
            rows_view(r@) == self.table(),
    {
        &self.coords
    }

    /// The neighbour list of node `v`.
    pub fn neighbours_of(&self, v: usize) -> (r: &Vec<usize>)
        requires
            self.wf(),
            v < self.size(),
        ensures
            r@ == self.adj()[v as int],
    {
        proof {
            assert(self.adj()[v as int] == self.neighbours@[v as int]@);
        }
        &self.neighbours[v]
    }

    /// Insert the undirected edge `(u, v)` unless it is already present.
    pub fn add_edge(&mut self, u: usize, v: usize)
        requires
            old(self).wf(),
            u < old(self).size(),
            v < old(self).size(),
            u != v,
        ensures
            final(self).wf(),
            final(self).size() == old(self).size(),
            final(self).lms() == old(self).lms(),
            final(self).table() == old(self).table(),
            has_edge(final(self).adj(), u, v),
            has_edge(final(self).adj(), v, u),
            forall|a: usize, b: usize|
                a < old(self).size() && b < old(self).size() ==> (#[trigger] has_edge(
                    final(self).adj(),
                    a,
                    b,
                ) <==> (has_edge(old(self).adj(), a, b) || (a == u && b == v) || (a == v && b
                    == u))),
    {
        let ghost adj0 = self.adj();
        if has_member(&self.neighbours[u], v) {
            proof {
                assert(has_edge(adj0, u, v));
                assert(has_edge(adj0, v, u));
                assert forall|a: usize, b: usize|
                    a < old(self).size() && b < old(self).size() implies (#[trigger] has_edge(
                        self.adj(),
                        a,
                        b,
                    ) <==> (has_edge(adj0, a, b) || (a == u && b == v) || (a == v && b == u))) by {}
            }
            return ;
        }
        adj_push(&mut self.neighbours, u, v);
        adj_push(&mut self.neighbours, v, u);
        proof {
            let adj2 = self.adj();
            assert forall|w: int, j: int|
                0 <= w < adj2.len() && 0 <= j < adj2[w].len() implies (#[trigger] adj2[w][j])
                    < adj2.len() by {
                if w != u && w != v {
                    assert(adj2[w] == adj0[w]);
                }
            }
            assert forall|w: int| 0 <= w < adj2.len() implies !(#[trigger] adj2[w]).contains(
                w as usize,
            ) by {
                if w != u && w != v {
                    assert(adj2[w] == adj0[w]);
                } else if w == u {
                    assert forall|j: int| 0 <= j < adj2[w].len() implies adj2[w][j] != w by {
                        if j < adj0[u as int].len() {
                            assert(!adj0[u as int].contains(u as usize));
                        }
                    }
                } else {
                    assert forall|j: int| 0 <= j < adj2[w].len() implies adj2[w][j] != w by {
                        if j < adj0[v as int].len() {
                            assert(!adj0[v as int].contains(v as usize));
                        }
                    }
                }
            }
            assert forall|w: int| 0 <= w < adj2.len() implies (#[trigger] adj2[w]).no_duplicates() by {
                if w != u && w != v {
                    assert(adj2[w] == adj0[w]);
                } else if w == u {
                    assert(!adj0[u as int].contains(v as usize));
                    assert(adj2[u as int] == adj0[u as int].push(v));
                } else {
                    assert(!has_edge(adj0, v, u)) by {
                        assert(!has_edge(adj0, u, v));
                    }
                    assert(!adj0[v as int].contains(u as usize));
                    assert(adj2[v as int] == adj0[v as int].push(u));
                }
            }
            assert forall|a: usize, b: usize|
                a < adj2.len() && b < adj2.len() implies (#[trigger] has_edge(adj2, a, b) <==> (
                has_edge(adj0, a, b) || (a == u && b == v) || (a == v && b == u))) by {
                lemma_edge_after_insert(adj0, adj2, u, v, a, b);
            }
            assert forall|a: usize, b: usize|
                a < adj2.len() && b < adj2.len() && #[trigger] has_edge(adj2, a, b) implies has_edge(
                adj2,
                b,
                a,
            ) by {
                lemma_edge_after_insert(adj0, adj2, u, v, a, b);
                lemma_edge_after_insert(adj0, adj2, u, v, b, a);
            }
        }
    }

    /// Install a caller-chosen landmark sequence; the given order fixes the
    /// coordinate axes.  Fails when an entry is out of range or repeated.
    pub fn set_landmarks(&mut self, lms: &Vec<usize>) -> (r: Result<(), ConfigError>)
        requires
            old(self).wf(),
        ensures
            final(self).wf(),
            final(self).size() == old(self).size(),
            final(self).adj() == old(self).adj(),
            final(self).table() == old(self).table(),
            r is Ok <==> (lms@.no_duplicates() && forall|i: int|
                0 <= i < lms@.len() ==> (#[trigger] lms@[i]) < old(self).size()),
            r is Ok ==> final(self).lms() == lms@,
            r is Err ==> final(self).lms() == old(self).lms(),
            r matches Err(e) ==> e == ConfigError::BadLandmark,
    {
        let mut i: usize = 0;
        while i < lms.len()
            invariant
                i <= lms@.len(),
                forall|j: int| 0 <= j < i ==> (#[trigger] lms@[j]) < self.size(),
                forall|a: int, b: int| 0 <= a < i && 0 <= b < i && a != b ==> lms@[a] != lms@[b],
                *self == *old(self),
                self.wf(),
            decreases lms@.len() - i,
        {
            if lms[i] >= self.n {
                return Err(ConfigError::BadLandmark);
            }
            let mut j: usize = 0;
            while j < i
                invariant
                    j <= i,
                    i < lms@.len(),
                    forall|b: int| 0 <= b < j ==> lms@[b] != lms@[i as int],
                    *self == *old(self),
                    self.wf(),
                decreases i - j,
            {
                if lms[j] == lms[i] {
                    return Err(ConfigError::BadLandmark);
                }
                j += 1;
            }
            i += 1;
        }
        let mut chosen: Vec<usize> = Vec::new();
        let mut k: usize = 0;
        while k < lms.len()
            invariant
                k <= lms@.len(),
                chosen@ == lms@.subrange(0, k as int),
                *self == *old(self),
            decreases lms@.len() - k,
        {
            chosen.push(lms[k]);
            k += 1;
            proof {
                assert(chosen@ =~= lms@.subrange(0, k as int));
            }
        }
        proof {
            assert(chosen@ =~= lms@);
        }
        self.landmarks = chosen;
        Ok(())
    }
}

/// Adjacency symmetry: in a well-formed network, `u` is a neighbour of `v`
/// exactly when `v` is a neighbour of `u`.
pub proof fn lemma_adjacency_symmetric(net: Network, u: usize, v: usize)
    requires
        net.wf(),
        u < net.size(),
        v < net.size(),
    ensures
        has_edge(net.adj(), u, v) <==> has_edge(net.adj(), v, u),
{
}

/// No self-loops: in a well-formed network no node neighbours itself.
pub proof fn lemma_no_self_loops(net: Network, v: usize)
    requires
        net.wf(),
        v < net.size(),
    ensures
        !has_edge(net.adj(), v, v),
{
    assert(!net.adj()[v as int].contains(v));
}

/// Determinism of the fixpoint: for one graph and one landmark sequence,
/// any two tables whose entries are the hop distances coincide — whatever
/// order the relaxation visited the nodes in.
pub proof fn lemma_fixpoint_table_unique(
    adj: Seq<Seq<usize>>,
    lms: Seq<usize>,
    t1: Seq<Seq<usize>>,
    t2: Seq<Seq<usize>>,
)
    requires
        t1.len() == t2.len(),
        forall|v: int| 0 <= v < t1.len() ==> (#[trigger] t1[v]).len() == lms.len(),
        forall|v: int| 0 <= v < t2.len() ==> (#[trigger] t2[v]).len() == lms.len(),
        forall|v: int, i: int|
            0 <= v < t1.len() && 0 <= i < lms.len() ==> is_hop_dist(
                adj,
                lms[i],
                v as usize,
                #[trigger] t1[v][i] as int,
            ),
        forall|v: int, i: int|
            0 <= v < t2.len() && 0 <= i < lms.len() ==> is_hop_dist(
                adj,
                lms[i],
                v as usize,
                #[trigger] t2[v][i] as int,
            ),
    ensures
        t1 == t2,
{
    assert forall|v: int| 0 <= v < t1.len() implies t1[v] == t2[v] by {
        assert forall|i: int| 0 <= i < lms.len() implies t1[v][i] == t2[v][i] by {
            crate::graph::lemma_hop_dist_unique(
                adj,
                lms[i],
                v as usize,
                t1[v][i] as int,
                t2[v][i] as int,
            );
        }
        assert(t1[v] =~= t2[v]);
    }
    assert(t1 =~= t2);
}

/// Row order does not matter to the uniqueness check: tables holding the
/// same rows, however arranged, agree on whether all rows are distinct.
pub proof fn lemma_unique_permutation_invariant(t1: Seq<Seq<usize>>, t2: Seq<Seq<usize>>)
    requires
        t1.to_multiset() == t2.to_multiset(),
    ensures
        t1.no_duplicates() == t2.no_duplicates(),
{
    if t1.no_duplicates() {
        lemma_unique_from_multiset(t1, t2);
    }
    if t2.no_duplicates() {
        lemma_unique_from_multiset(t2, t1);
    }
}

/// One direction of the permutation invariance of distinctness.
proof fn lemma_unique_from_multiset(t1: Seq<Seq<usize>>, t2: Seq<Seq<usize>>)
    requires
        t1.to_multiset() == t2.to_multiset(),
        t1.no_duplicates(),
    ensures
        t2.no_duplicates(),
{
    t1.lemma_multiset_has_no_duplicates();
    t2.lemma_multiset_has_no_duplicates_conv();
}

/// Whether `x` occurs in `l`.
fn has_member(l: &Vec<usize>, x: usize) -> (r: bool)
    ensures
        r == l@.contains(x),
{
    let mut k: usize = 0;
    while k < l.len()
        invariant
            k <= l@.len(),
            forall|j: int| 0 <= j < k ==> l@[j] != x,
        decreases l@.len() - k,
    {
        if l[k] == x {
            assert(l@.contains(x)) by {
                assert(l@[k as int] == x);
            }
            return true;
        }
        k += 1;
    }
    false
}

/// Randomly choose `k` distinct numbers from the range `[0, n)`.  Each pick
/// is uniform over the numbers not yet chosen — the value an accepted draw
/// of a retry-on-duplicate sampler would deliver.  Fails fast when more
/// numbers are requested than the range holds, since no selection could
/// then finish.
pub fn choose_k_nums(k: usize, n: usize, rng: &mut rand::rngs::ThreadRng) -> (r: Result<
    Vec<usize>,
    ConfigError,
>)
    ensures
        r is Ok <==> k <= n,
        r matches Ok(v) ==> {
            &&& v@.len() == k
            &&& v@.no_duplicates()
            &&& forall|j: int| 0 <= j < v@.len() ==> (#[trigger] v@[j]) < n
        },
        r matches Err(e) ==> e == ConfigError::TooManyLandmarks,
{
    if k > n {
        return Err(ConfigError::TooManyLandmarks);
    }
    let mut pool: Vec<usize> = Vec::new();
    let mut v: usize = 0;
    while v < n
        invariant
            v <= n,
            pool@.len() == v,
            forall|j: int| 0 <= j < v ==> (#[trigger] pool@[j]) == j,
        decreases n - v,
    {
        pool.push(v);
        v += 1;
    }
    let mut res: Vec<usize> = Vec::new();
    while res.len() < k
        invariant
            k <= n,
            res@.len() <= k,
            pool@.len() + res@.len() == n,
            pool@.no_duplicates(),
            res@.no_duplicates(),
            forall|j: int| 0 <= j < pool@.len() ==> (#[trigger] pool@[j]) < n,
            forall|j: int| 0 <= j < res@.len() ==> (#[trigger] res@[j]) < n,
            forall|i: int, j: int|
                0 <= i < pool@.len() && 0 <= j < res@.len() ==> #[trigger] pool@[i]
                    != #[trigger] res@[j],
        decreases k - res@.len(),
    {
        let i = sample_below(rng, pool.len());
        let x = pool[i];
        let ghost pool0 = pool@;
        let last = match pool.pop() {
            Some(y) => y,
            None => {
                proof {
                    assert(false);
                }
                0
            },
        };
        if i < pool.len() {
            pool.set(i, last);
            proof {
                assert(pool@ =~= pool0.subrange(0, pool0.len() - 1).update(i as int, pool0[pool0.len() - 1]));
            }
        }
        proof {
            assert forall|j: int| 0 <= j < pool@.len() implies pool@[j] != x by {
                assert(pool0[i as int] == x);
                if j == i {
                    assert(pool@[j] == pool0[pool0.len() - 1]);
                } else {
                    assert(pool@[j] == pool0[j]);
                }
            }
            assert forall|a: int, b: int|
                0 <= a < pool@.len() && 0 <= b < pool@.len() && a != b implies pool@[a]
                != pool@[b] by {
                assert(pool@[a] == pool0[if a == i { pool0.len() - 1 } else { a }]);
                assert(pool@[b] == pool0[if b == i { pool0.len() - 1 } else { b }]);
            }
            assert forall|a: int, b: int|
                0 <= a < res@.push(x).len() && 0 <= b < res@.push(x).len() && a != b implies res@.push(
                x,
            )[a] != res@.push(x)[b] by {
                assert(pool0[i as int] == x);
            }
            assert forall|a: int, b: int|
                0 <= a < pool@.len() && 0 <= b < res@.push(x).len() implies pool@[a]
                != res@.push(x)[b] by {
                assert(pool@[a] == pool0[if a == i { pool0.len() - 1 } else { a }]);
                if b < res@.len() {
                    assert(res@.push(x)[b] == res@[b]);
                } else {
                    assert(res@.push(x)[b] == x);
                }
            }
        }
        res.push(x);
    }
    Ok(res)
}

} // verus!
