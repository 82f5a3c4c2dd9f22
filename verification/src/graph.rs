//! The output graph: Voronoi vertices with symmetric adjacency.
//!
//! Vertices are kept in an arena and addressed by index; neighbour sets are
//! index lists, so the naturally cyclic adjacency needs no shared ownership.
//! Positions are exact rationals: each coordinate is a quotient of 128-bit
//! integers with a positive denominator.

use vstd::prelude::*;

verus! {

/// An exact rational coordinate `num/den`; denominators produced by the
/// build are always positive.
#[derive(Clone, Copy, PartialEq, Eq, Structural, Debug)]
pub struct Frac {
    pub num: i128,
    pub den: i128,
}

/// A vertex of the graph: its position and the indices of its neighbours.
#[derive(Clone, Debug, PartialEq, Eq)]
pub struct Node {
    pub x: Frac,
    pub y: Frac,
    pub neighbours: Vec<usize>,
}

/// The mathematical value of a `Node`.
pub ghost struct SNode {
    pub x: Frac,
    pub y: Frac,
    pub nbrs: Seq<usize>,
}

impl View for Node {
    type V = SNode;

    open spec fn view(&self) -> SNode {
        SNode { x: self.x, y: self.y, nbrs: self.neighbours@ }
    }
}

/// The mathematical value of a vertex list.
pub open spec fn nodes_view(nodes: Seq<Node>) -> Seq<SNode> {
    Seq::new(nodes.len(), |i: int| nodes[i]@)
}

/// The finished diagram: the vertex list.  Finite edges are given by the
/// adjacency; no unbounded edges are represented.
#[derive(Clone, Debug, PartialEq, Eq)]
pub struct Graph {
    pub nodes: Vec<Node>,
}

impl View for Graph {
    type V = Seq<SNode>;

    open spec fn view(&self) -> Seq<SNode> {
        nodes_view(self.nodes@)
    }
}

/// Adjacency is symmetric and in range: every neighbour index points at a
/// vertex, and that vertex lists the first one back.
pub open spec fn adj_symmetric(ns: Seq<SNode>) -> bool {
    forall|i: int, v: usize|
        0 <= i < ns.len() && #[trigger] ns[i].nbrs.contains(v) ==> (v as int) < ns.len() && ns[
            v as int
        ].nbrs.contains(i as usize)
}

/// The undirected edges contributed by vertex `i`'s first `t` neighbours;
/// each undirected edge is reported once, from its lower endpoint.
pub open spec fn node_edges_upto(i: usize, nbrs: Seq<usize>, t: int) -> Seq<(usize, usize)>
    decreases t,
{
    if t <= 0 || t > nbrs.len() {
        Seq::empty()
    } else {
        node_edges_upto(i, nbrs, t - 1) + (if nbrs[t - 1] > i {
            seq![(i, nbrs[t - 1])]
        } else {
            Seq::empty()
        })
    }
}

/// The undirected edges contributed by the first `k` vertices.
pub open spec fn edges_upto(ns: Seq<SNode>, k: int) -> Seq<(usize, usize)>
    decreases k,
{
    if k <= 0 || k > ns.len() {
        Seq::empty()
    } else {
        edges_upto(ns, k - 1) + node_edges_upto((k - 1) as usize, ns[k - 1].nbrs, ns[k
            - 1].nbrs.len() as int)
    }
}

/// The undirected edge list of the graph: every adjacent pair `(u, v)` with
/// `u < v`, listed by lower endpoint in vertex order.  A neighbour entry
/// `v <= u` is the mirror half of an edge already owned by the other
/// endpoint, so it contributes nothing here.
pub open spec fn edges_spec(ns: Seq<SNode>) -> Seq<(usize, usize)> {
    edges_upto(ns, ns.len() as int)
}

impl Graph {
    /// The number of vertices.
    pub fn num_vertices(&self) -> (r: usize)
        ensures
            r == self@.len(),
    {
        self.nodes.len()
    }

    /// The undirected edge list, computed exactly as `edges_spec`.
    pub fn edges(&self) -> (r: Vec<(usize, usize)>)
        ensures
            r@ == edges_spec(self@),
    {
        let mut out: Vec<(usize, usize)> = Vec::new();
        let mut k: usize = 0;
        while k < self.nodes.len()
            invariant
                0 <= k <= self.nodes@.len(),
                out@ =~= edges_upto(self@, k as int),
            decreases self.nodes@.len() - k,
        {
            let nbrs = &self.nodes[k].neighbours;
            let mut t: usize = 0;
            while t < nbrs.len()
                invariant
                    0 <= k < self.nodes@.len(),
                    0 <= t <= nbrs@.len(),
                    nbrs@ == self@[k as int].nbrs,
                    out@ =~= edges_upto(self@, k as int) + node_edges_upto(k, nbrs@, t as int),
                decreases nbrs@.len() - t,
            {
                if nbrs[t] > k {
                    out.push((k, nbrs[t]));
                }
                t = t + 1;
            }
            k = k + 1;
        }
        out
    }
}

/// Every edge contributed by one vertex joins that vertex to a listed
/// neighbour with a larger index.
proof fn lemma_node_edges_sound(i: usize, nbrs: Seq<usize>, t: int)
    ensures
        forall|e: (usize, usize)| #[trigger]
            node_edges_upto(i, nbrs, t).contains(e) ==> e.0 == i && nbrs.contains(e.1) && e.1 > i,
    decreases t,
{
    if t <= 0 || t > nbrs.len() {
    } else {
        lemma_node_edges_sound(i, nbrs, t - 1);
        assert forall|e: (usize, usize)| #[trigger]
            node_edges_upto(i, nbrs, t).contains(e) implies e.0 == i && nbrs.contains(e.1) && e.1
            > i by {
            let s = node_edges_upto(i, nbrs, t);
            let j = choose|j: int| 0 <= j < s.len() && s[j] == e;
            if j < node_edges_upto(i, nbrs, t - 1).len() {
                assert(node_edges_upto(i, nbrs, t - 1)[j] == e);
                assert(node_edges_upto(i, nbrs, t - 1).contains(e));
            } else {
                assert(e == (i, nbrs[t - 1]));
                assert(nbrs.contains(nbrs[t - 1]));
            }
        }
    }
}

/// Every edge among the first `k` vertices joins a vertex to one of its
/// listed neighbours, from the lower endpoint.
proof fn lemma_edges_upto_sound(ns: Seq<SNode>, k: int)
    requires
        ns.len() <= usize::MAX,
    ensures
        forall|e: (usize, usize)| #[trigger]
            edges_upto(ns, k).contains(e) ==> (e.0 as int) < ns.len() && ns[
                e.0 as int
            ].nbrs.contains(e.1) && e.1 > e.0,
    decreases k,
{
    if k <= 0 || k > ns.len() {
    } else {
        lemma_edges_upto_sound(ns, k - 1);
        lemma_node_edges_sound((k - 1) as usize, ns[k - 1].nbrs, ns[k - 1].nbrs.len() as int);
        assert forall|e: (usize, usize)| #[trigger]
            edges_upto(ns, k).contains(e) implies (e.0 as int) < ns.len() && ns[
            e.0 as int
        ].nbrs.contains(e.1) && e.1 > e.0 by {
            let s = edges_upto(ns, k);
            let j = choose|j: int| 0 <= j < s.len() && s[j] == e;
            if j < edges_upto(ns, k - 1).len() {
                assert(edges_upto(ns, k - 1)[j] == e);
                assert(edges_upto(ns, k - 1).contains(e));
            } else {
                let ne = node_edges_upto((k - 1) as usize, ns[k - 1].nbrs, ns[k
                    - 1].nbrs.len() as int);
                assert(ne[j - edges_upto(ns, k - 1).len()] == e);
                assert(ne.contains(e));
            }
        }
    }
}

/// Edge-symmetry law: in a graph with symmetric adjacency, every listed
/// edge `(u, v)` has `v` in `u`'s neighbour set and `u` in `v`'s, and both
/// endpoints exist.
pub proof fn lemma_edges_symmetric(ns: Seq<SNode>)
    requires
        ns.len() <= usize::MAX,
        adj_symmetric(ns),
    ensures
        forall|e: (usize, usize)| #[trigger]
            edges_spec(ns).contains(e) ==> (e.0 as int) < ns.len() && (e.1 as int) < ns.len()
                && ns[e.0 as int].nbrs.contains(e.1) && ns[e.1 as int].nbrs.contains(e.0),
{
    lemma_edges_upto_sound(ns, ns.len() as int);
}

} // verus!
