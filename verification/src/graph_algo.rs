//! The graph algorithms taken from the petgraph crate, behind trusted
//! wrappers over plain adjacency structures.

use crate::graph::{adj_reaches, seq_has};
use vstd::prelude::*;

verus! {

/// The adjacency rows of a plain adjacency structure, as the wrappers'
/// contracts speak of them.
pub open spec fn adj_view(adj: Vec<Vec<usize>>) -> Seq<Seq<usize>> {
    adj@.map_values(|row: Vec<usize>| row@)
}

/// Every target named by the adjacency structure is a node of it.
pub open spec fn adj_wf(a: Seq<Seq<usize>>) -> bool {
    forall|u: int, k: int|
        0 <= u < a.len() && 0 <= k < a[u].len() ==> ((#[trigger] a[u][k]) as int) < a.len()
}

/// `v` appears in some component of `cs`.
pub open spec fn comp_member(cs: Seq<Seq<usize>>, v: int) -> bool {
    exists|i: int, j: int|
        0 <= i < cs.len() && 0 <= j < cs[i].len() && ((#[trigger] cs[i][j]) as int) == v
}

/// What `scc_decomposition` promises of its result `cs` on the graph `a`:
/// each component is non-empty, every node of `a` lies in exactly one
/// component, nodes of one component reach each other, and components come
/// in reverse topological order — every edge crossing two components goes
/// from a higher-indexed one to a lower-indexed one.
pub open spec fn scc_post(a: Seq<Seq<usize>>, cs: Seq<Seq<usize>>) -> bool {
    &&& forall|i: int| 0 <= i < cs.len() ==> (#[trigger] cs[i]).len() >= 1
    &&& forall|i: int, j: int|
        0 <= i < cs.len() && 0 <= j < cs[i].len() ==> ((#[trigger] cs[i][j]) as int) < a.len()
    &&& forall|v: int| 0 <= v < a.len() ==> #[trigger] comp_member(cs, v)
    &&& forall|i1: int, j1: int, i2: int, j2: int|
        0 <= i1 < cs.len() && 0 <= j1 < cs[i1].len() && 0 <= i2 < cs.len() && 0 <= j2
            < cs[i2].len() && (#[trigger] cs[i1][j1]) == (#[trigger] cs[i2][j2]) ==> i1 == i2
            && j1 == j2
    &&& forall|i: int, j1: int, j2: int|
        0 <= i < cs.len() && 0 <= j1 < cs[i].len() && 0 <= j2 < cs[i].len() ==> adj_reaches(
            a,
            (#[trigger] cs[i][j1]) as int,
            (#[trigger] cs[i][j2]) as int,
        )
    &&& forall|i1: int, j1: int, i2: int, j2: int|
        0 <= i1 < cs.len() && 0 <= j1 < cs[i1].len() && 0 <= i2 < cs.len() && 0 <= j2
            < cs[i2].len() && i1 != i2 && seq_has(
            a[(#[trigger] cs[i1][j1]) as int],
            (#[trigger] cs[i2][j2]) as int,
        ) ==> i2 < i1
}

/// Relies on petgraph's `tarjan_scc`: it returns the strongly connected
/// components of the directed graph, each component a non-empty list of
/// node ids, every node in exactly one component, and the components in
/// reverse topological order.
#[verifier::external_body]
pub(crate) fn scc_decomposition(adj: &Vec<Vec<usize>>) -> (comps: Vec<Vec<usize>>)
    requires
        adj_wf(adj_view(*adj)),
    ensures
        scc_post(adj_view(*adj), comps@.map_values(|row: Vec<usize>| row@)),
{
    let mut g: petgraph::graphmap::DiGraphMap<usize, ()> = petgraph::graphmap::DiGraphMap::new();
    for u in 0..adj.len() {
        g.add_node(u);
    }
    for u in 0..adj.len() {
        for k in 0..adj[u].len() {
            g.add_edge(u, adj[u][k], ());
        }
    }
    petgraph::algo::tarjan_scc(&g)
}

/// Relies on petgraph's `Dfs`: a depth-first search from `start` visits
/// every node reachable from it exactly once.
#[verifier::external_body]
pub(crate) fn reachable_from(adj: &Vec<Vec<usize>>, start: usize) -> (r: Vec<usize>)
    requires
        adj_wf(adj_view(*adj)),
        (start as int) < adj_view(*adj).len(),
    ensures
        forall|k: int| 0 <= k < r@.len() ==> ((#[trigger] r@[k]) as int) < adj_view(*adj).len(),
        forall|k1: int, k2: int|
            0 <= k1 < k2 < r@.len() ==> (#[trigger] r@[k1]) != (#[trigger] r@[k2]),
        forall|v: int|
            #[trigger] seq_has(r@, v) <==> adj_reaches(adj_view(*adj), start as int, v),
{
    let mut g: petgraph::graphmap::DiGraphMap<usize, ()> = petgraph::graphmap::DiGraphMap::new();
    for u in 0..adj.len() {
        g.add_node(u);
    }
    for u in 0..adj.len() {
        for k in 0..adj[u].len() {
            g.add_edge(u, adj[u][k], ());
        }
    }
    let mut dfs = petgraph::visit::Dfs::new(&g, start);
    let mut reached = Vec::new();
    while let Some(v) = dfs.next(&g) {
        reached.push(v);
    }
    reached
}

} // verus!
