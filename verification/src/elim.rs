//! Epsilon elimination: collapsing epsilon-only strongly connected
//! components and propagating transitions across the condensed graph.

use crate::enfa::{ENfa, ENfaNode};
use crate::graph::{
    add_eps_target, eps_row_wf, merge_arc_sym, merge_rows, row_arc_sym, row_has_arc, row_wf,
    seq_has, CharArc,
};
use crate::graph_algo::{adj_view, adj_wf, comp_member, scc_decomposition, scc_post};
use crate::nfa::Nfa;
use crate::reach::{
    lemma_reach_condense, lemma_reach_head, lemma_reach_prepend, lemma_reach_refl, reaches,
};
use vstd::pervasive::VecAdditionalExecFns;
use vstd::prelude::*;

verus! {

/// The epsilon-only edge relation of an ε-NFA.
pub open spec fn eps_rel(e: ENfa) -> spec_fn(int, int) -> bool {
    |a: int, b: int| e.eps_edge(a, b)
}

/// There is an epsilon edge of `e` between two nodes of two different
/// components `a` and `b` of the assignment `idc`.
pub open spec fn comp_eps_edge(e: ENfa, idc: Seq<usize>, a: int, b: int) -> bool {
    a != b && exists|u: int, v: int|
        0 <= u < e.n() && 0 <= v < e.n() && ((idc[u]) as int) == a && ((idc[v]) as int) == b
            && #[trigger] e.eps_edge(u, v)
}

/// The inter-component epsilon edge relation.
pub open spec fn comp_eps_rel(e: ENfa, idc: Seq<usize>) -> spec_fn(int, int) -> bool {
    |a: int, b: int| comp_eps_edge(e, idc, a, b)
}

/// Component `b` is reachable from component `a` along inter-component
/// epsilon edges.
pub open spec fn comp_eps_reach(e: ENfa, idc: Seq<usize>, a: int, b: int) -> bool {
    reaches(comp_eps_rel(e, idc), a, b)
}

/// There is a symbol edge of `e` labeled `c` between two nodes of the two
/// different components `m` and `b`.
pub open spec fn base_char(e: ENfa, idc: Seq<usize>, m: int, b: int, c: char) -> bool {
    m != b && exists|u: int, v: int|
        0 <= u < e.n() && 0 <= v < e.n() && ((idc[u]) as int) == m && ((idc[v]) as int) == b
            && #[trigger] e.char_edge(u, v, c)
}

/// Component `m` holds an accepting node of `e`.
pub open spec fn base_fin(e: ENfa, idc: Seq<usize>, m: int) -> bool {
    exists|f: int| 0 <= f < e.n() && ((idc[f]) as int) == m && #[trigger] e.is_fin(f)
}

/// Some node below `n` is assigned to component `cp`.
pub open spec fn comp_used(idc: Seq<usize>, n: int, cp: int) -> bool {
    exists|v: int| 0 <= v < n && ((#[trigger] idc[v]) as int) == cp
}

/// `r` is the epsilon elimination of `e` under the component assignment
/// `idc`: components are the epsilon-only strongly connected components of
/// `e`, numbered so that inter-component epsilon edges descend; `r` has one
/// node per component; its symbol edges are exactly the cross-component
/// symbol edges of `e` inherited across inter-component epsilon
/// reachability, and its accept set is exactly the components from which an
/// accepting component is epsilon-reachable, listed in ascending order.
pub open spec fn condensation_of(e: ENfa, r: Nfa, idc: Seq<usize>) -> bool {
    &&& idc.len() == e.n()
    &&& forall|v: int| 0 <= v < e.n() ==> ((#[trigger] idc[v]) as int) < r.n()
    &&& forall|cp: int| 0 <= cp < r.n() ==> #[trigger] comp_used(idc, e.n(), cp)
    &&& forall|u: int, v: int|
        0 <= u < e.n() && 0 <= v < e.n() && (#[trigger] idc[u]) == (#[trigger] idc[v])
            ==> reaches(eps_rel(e), u, v)
    &&& forall|u: int, v: int|
        #[trigger] e.eps_edge(u, v) && idc[u] != idc[v] ==> idc[v] < idc[u]
    &&& (r.start as int) == (idc[e.start as int]) as int
    &&& forall|a: int, b: int, c: char|
        #[trigger] r.char_edge(a, b, c) <==> exists|m: int|
            #[trigger] comp_eps_reach(e, idc, a, m) && base_char(e, idc, m, b, c)
    &&& forall|a: int|
        #[trigger] r.is_fin(a) <==> (0 <= a < r.n() && exists|m: int|
            #[trigger] comp_eps_reach(e, idc, a, m) && base_fin(e, idc, m))
    &&& forall|k1: int, k2: int|
        0 <= k1 < k2 < r.fin@.len() ==> (#[trigger] r.fin@[k1]) < (#[trigger] r.fin@[k2])
}

/// Scatters one node's edges into the condensed graph rows of its
/// component: cross-component symbol edges into the symbol row,
/// cross-component epsilon edges into the reduced epsilon row.
fn scatter_node(
    ce_row: &mut Vec<usize>,
    base_row: &mut Vec<CharArc>,
    node: &ENfaNode,
    idc: &Vec<usize>,
    cu: usize,
    Ghost(k): Ghost<int>,
    Ghost(n): Ghost<int>,
)
    requires
        eps_row_wf(old(ce_row)@, k),
        row_wf(old(base_row)@, k),
        idc@.len() == n,
        forall|x: int| 0 <= x < n ==> ((#[trigger] idc@[x]) as int) < k,
        eps_row_wf(node.eps@, n),
        row_wf(node.arcs@, n),
        (cu as int) < k,
    ensures
        eps_row_wf(final(ce_row)@, k),
        row_wf(final(base_row)@, k),
        forall|b: int|
            #[trigger] seq_has(final(ce_row)@, b) <==> seq_has(old(ce_row)@, b) || (b != cu as int
                && exists|t: int|
                0 <= t < node.eps@.len() && ((idc@[(#[trigger] node.eps@[t]) as int]) as int)
                    == b),
        forall|b: int, c: char|
            #[trigger] row_arc_sym(final(base_row)@, b, c) <==> row_arc_sym(old(base_row)@, b, c)
                || (b != cu as int && exists|t: int|
                0 <= t < node.arcs@.len() && ((idc@[(#[trigger] node.arcs@[t]).to as int]) as int)
                    == b && node.arcs@[t].syms@.contains(c)),
{
    let el = node.eps.len();
    let mut t: usize = 0;
    while t < el
        invariant
            t <= el,
            el == node.eps@.len(),
            eps_row_wf(ce_row@, k),
            eps_row_wf(node.eps@, n),
            idc@.len() == n,
            forall|x: int| 0 <= x < n ==> ((#[trigger] idc@[x]) as int) < k,
            (cu as int) < k,
            forall|b: int|
                #[trigger] seq_has(ce_row@, b) <==> seq_has(old(ce_row)@, b) || (b != cu as int
                    && exists|t2: int|
                    0 <= t2 < t && ((idc@[(#[trigger] node.eps@[t2]) as int]) as int) == b),
        decreases el - t,
    {
        let v = node.eps[t];
        let cv = idc[v];
        if cv != cu {
            add_eps_target(ce_row, cv, Ghost(k));
        }
        t += 1;
        proof {
            assert forall|b: int|
                #[trigger] seq_has(ce_row@, b) <==> seq_has(old(ce_row)@, b) || (b != cu as int
                    && exists|t2: int|
                    0 <= t2 < t && ((idc@[(#[trigger] node.eps@[t2]) as int]) as int) == b)
            by {
                if b != cu as int && ((idc@[(node.eps@[t - 1]) as int]) as int) == b {
                    assert(((idc@[(#[trigger] node.eps@[t - 1]) as int]) as int) == b);
                }
                if b != cu as int && exists|t2: int|
                    0 <= t2 < t && ((idc@[(#[trigger] node.eps@[t2]) as int]) as int) == b {
                    let t2 = choose|t2: int|
                        0 <= t2 < t && ((idc@[(#[trigger] node.eps@[t2]) as int]) as int) == b;
                    if t2 < t - 1 {
                        assert(exists|t3: int|
                            0 <= t3 < t - 1 && ((idc@[(#[trigger] node.eps@[t3]) as int]) as int)
                                == b);
                    }
                }
            }
        }
    }
    let al = node.arcs.len();
    let mut t: usize = 0;
    while t < al
        invariant
            t <= al,
            al == node.arcs@.len(),
            row_wf(base_row@, k),
            row_wf(node.arcs@, n),
            idc@.len() == n,
            forall|x: int| 0 <= x < n ==> ((#[trigger] idc@[x]) as int) < k,
            (cu as int) < k,
            forall|b: int, c: char|
                #[trigger] row_arc_sym(base_row@, b, c) <==> row_arc_sym(old(base_row)@, b, c)
                    || (b != cu as int && exists|t2: int|
                    0 <= t2 < t && ((idc@[(#[trigger] node.arcs@[t2]).to as int]) as int) == b
                        && node.arcs@[t2].syms@.contains(c)),
        decreases al - t,
    {
        let ghost rpre = base_row@;
        let cv = idc[node.arcs[t].to];
        if cv != cu {
            let sl = node.arcs[t].syms.len();
            let mut s: usize = 0;
            while s < sl
                invariant
                    s <= sl,
                    t < node.arcs@.len(),
                    sl == node.arcs@[t as int].syms@.len(),
                    row_wf(base_row@, k),
                    (cv as int) < k,
                    cv != cu,
                    cv == idc@[(node.arcs@[t as int]).to as int],
                    forall|b: int, c: char|
                        #[trigger] row_arc_sym(base_row@, b, c) <==> row_arc_sym(rpre, b, c) || (b
                            == cv as int && exists|s2: int|
                            0 <= s2 < s && (#[trigger] node.arcs@[t as int].syms@[s2]) == c),
                decreases sl - s,
            {
                merge_arc_sym(base_row, cv, node.arcs[t].syms[s], Ghost(k));
                s += 1;
                proof {
                    assert forall|b: int, c: char|
                        #[trigger] row_arc_sym(base_row@, b, c) <==> row_arc_sym(rpre, b, c) || (b
                            == cv as int && exists|s2: int|
                            0 <= s2 < s && (#[trigger] node.arcs@[t as int].syms@[s2]) == c)
                    by {
                        if b == cv as int && c == node.arcs@[t as int].syms@[s - 1] {
                            assert((#[trigger] node.arcs@[t as int].syms@[s - 1]) == c);
                        }
                        if b == cv as int && exists|s2: int|
                            0 <= s2 < s && (#[trigger] node.arcs@[t as int].syms@[s2]) == c {
                            let s2 = choose|s2: int|
                                0 <= s2 < s && (#[trigger] node.arcs@[t as int].syms@[s2]) == c;
                            if s2 < s - 1 {
                                assert(exists|s3: int|
                                    0 <= s3 < s - 1 && (#[trigger] node.arcs@[t as int].syms@[s3])
                                        == c);
                            }
                        }
                    }
                }
            }
        }
        t += 1;
        proof {
            assert forall|b: int, c: char|
                #[trigger] row_arc_sym(base_row@, b, c) <==> row_arc_sym(old(base_row)@, b, c) || (
                b != cu as int && exists|t2: int|
                    0 <= t2 < t && ((idc@[(#[trigger] node.arcs@[t2]).to as int]) as int) == b
                        && node.arcs@[t2].syms@.contains(c))
            by {
                if row_arc_sym(base_row@, b, c) && !row_arc_sym(rpre, b, c) {
                    assert(b == cv as int);
                    let s2 = choose|s2: int|
                        0 <= s2 < node.arcs@[t as int - 1].syms@.len()
                            && (#[trigger] node.arcs@[t as int - 1].syms@[s2]) == c;
                    assert(node.arcs@[t - 1].syms@.contains(c));
                    assert(((idc@[(#[trigger] node.arcs@[t - 1]).to as int]) as int) == b
                        && node.arcs@[t - 1].syms@.contains(c));
                }
                if b != cu as int && exists|t2: int|
                    0 <= t2 < t && ((idc@[(#[trigger] node.arcs@[t2]).to as int]) as int) == b
                        && node.arcs@[t2].syms@.contains(c) {
                    let t2 = choose|t2: int|
                        0 <= t2 < t && ((idc@[(#[trigger] node.arcs@[t2]).to as int]) as int) == b
                            && node.arcs@[t2].syms@.contains(c);
                    if t2 < t - 1 {
                        assert(exists|t3: int|
                            0 <= t3 < t - 1 && ((idc@[(#[trigger] node.arcs@[t3]).to as int]) as int)
                                == b && node.arcs@[t3].syms@.contains(c));
                    } else {
                        let s2 = choose|s2: int|
                            0 <= s2 < node.arcs@[t2].syms@.len() && node.arcs@[t2].syms@[s2] == c;
                        assert(exists|s3: int|
                            0 <= s3 < node.arcs@[t as int - 1].syms@.len()
                                && (#[trigger] node.arcs@[t as int - 1].syms@[s3]) == c);
                        assert(row_arc_sym(base_row@, b, c));
                    }
                }
            }
        }
    }
}

/// An inter-component edge of either kind: epsilon, or labeled with some
/// symbol.
pub open spec fn comp_any_rel(e: ENfa, idc: Seq<usize>) -> spec_fn(int, int) -> bool {
    |a: int, b: int| comp_eps_edge(e, idc, a, b) || exists|c: char| base_char(e, idc, a, b, c)
}

/// If an accepting node of `e` is reachable from its start through edges of
/// any label, then after epsilon elimination an accepting node of `r` is
/// reachable from `r`'s start through symbol edges.
pub proof fn lemma_condensation_keeps_acceptance(e: ENfa, r: Nfa, idc: Seq<usize>)
    requires
        e.wf(),
        r.wf(),
        condensation_of(e, r, idc),
        exists|f: int| e.is_fin(f) && e.mixed_reaches(e.start as int, f),
    ensures
        exists|a2: int| r.is_fin(a2) && r.nfa_reaches(r.start as int, a2),
{
    let f = choose|f: int| e.is_fin(f) && e.mixed_reaches(e.start as int, f);
    assert(0 <= f < e.n()) by {
        let k = choose|k: int| 0 <= k < e.fin@.len() && (((#[trigger] e.fin@[k]) as int) == f);
    }
    // Map the mixed path onto the components.
    let cm = comp_any_rel(e, idc);
    let emb = |q: int|
        if 0 <= q < e.n() {
            (idc[q]) as int
        } else {
            q
        };
    assert forall|u: int, v: int| #[trigger] e.edge_rel()(u, v) implies emb(u) == emb(v) || cm(
        emb(u),
        emb(v),
    ) by {
        assert(0 <= u < e.n());
        if e.eps_edge(u, v) {
            assert(0 <= v < e.n()) by {
                let k = choose|k: int|
                    0 <= k < e.nodes@[u].eps@.len() && (((#[trigger] e.nodes@[u].eps@[k]) as int)
                        == v);
                assert(crate::graph::eps_row_wf(e.nodes@[u].eps@, e.n()));
            }
            if idc[u] != idc[v] {
                assert(comp_eps_edge(e, idc, (idc[u]) as int, (idc[v]) as int));
            }
        } else {
            assert(e.has_arc(u, v));
            let k = choose|k: int|
                0 <= k < e.nodes@[u].arcs@.len() && (((#[trigger] e.nodes@[u].arcs@[k]).to as int)
                    == v);
            assert(crate::graph::row_wf(e.nodes@[u].arcs@, e.n()));
            assert(0 <= v < e.n());
            let c = e.nodes@[u].arcs@[k].syms@[0];
            assert(e.nodes@[u].arcs@[k].syms@.contains(c));
            assert(e.char_edge(u, v, c)) by {
                assert(((#[trigger] e.nodes@[u].arcs@[k]).to as int) == v
                    && e.nodes@[u].arcs@[k].syms@.contains(c));
            }
            if idc[u] != idc[v] {
                assert(base_char(e, idc, (idc[u]) as int, (idc[v]) as int, c));
                assert(cm(emb(u), emb(v)));
            }
        }
    }
    lemma_reach_condense(e.edge_rel(), cm, emb, e.start as int, f);
    assert(reaches(cm, (idc[e.start as int]) as int, (idc[f]) as int));
    assert(base_fin(e, idc, (idc[f]) as int)) by {
        assert(0 <= f < e.n() && ((idc[f]) as int) == (idc[f]) as int && e.is_fin(f));
    }
    let p = choose|p: Seq<int>|
        crate::reach::is_path(cm, p) && p.first() == (idc[e.start as int]) as int && p.last() == (
        idc[f]) as int;
    lemma_accept_lift(e, r, idc, p);
}

/// Walks a component-level mixed path backward, turning trailing epsilon
/// runs into inherited accepting status and symbol steps into inherited
/// edges.
proof fn lemma_accept_lift(e: ENfa, r: Nfa, idc: Seq<usize>, p: Seq<int>)
    requires
        e.wf(),
        r.wf(),
        condensation_of(e, r, idc),
        crate::reach::is_path(comp_any_rel(e, idc), p),
        base_fin(e, idc, p.last()),
        0 <= p.first() < r.n(),
        0 <= p.last() < r.n(),
        forall|i: int| 0 <= i < p.len() ==> 0 <= #[trigger] p[i] < r.n(),
    ensures
        exists|a2: int| r.is_fin(a2) && reaches(r.edge_rel(), p.first(), a2),
    decreases p.len(),
{
    let cm = comp_any_rel(e, idc);
    if p.len() == 1 {
        assert(r.is_fin(p.first())) by {
            lemma_reach_refl(comp_eps_rel(e, idc), p.first());
            assert(comp_eps_reach(e, idc, p.first(), p.first()));
        }
        lemma_reach_refl(r.edge_rel(), p.first());
    } else {
        let q = p.drop_first();
        assert forall|i: int| 0 <= i < q.len() - 1 implies cm(#[trigger] q[i], q[i + 1]) by {
            assert(cm(p[i + 1], p[i + 2]));
        }
        assert(crate::reach::is_path(cm, q) && q.first() == p[1] && q.last() == p.last());
        lemma_accept_lift(e, r, idc, q);
        let a2 = choose|a2: int| r.is_fin(a2) && reaches(r.edge_rel(), p[1], a2);
        assert(cm(p[0], p[1]));
        if comp_eps_edge(e, idc, p[0], p[1]) {
            if a2 == p[1] {
                // The tail accepts at its head: accepting status is
                // inherited backward across the epsilon edge.
                assert(r.is_fin(p[0])) by {
                    let m = choose|m: int|
                        #[trigger] comp_eps_reach(e, idc, p[1], m) && base_fin(e, idc, m);
                    lemma_reach_prepend(comp_eps_rel(e, idc), p[0], p[1], m);
                    assert(comp_eps_reach(e, idc, p[0], m));
                }
                lemma_reach_refl(r.edge_rel(), p[0]);
                assert(reaches(r.edge_rel(), p.first(), p[0]));
            } else {
                // The tail's first symbol step is inherited backward
                // across the epsilon edge.
                lemma_reach_head(r.edge_rel(), p[1], a2);
                let x = choose|x: int| #[trigger] r.edge_rel()(p[1], x) && reaches(r.edge_rel(), x, a2);
                assert(r.has_arc(p[1], x));
                let k = choose|k: int|
                    0 <= k < r.arcs@[p[1]]@.len() && (((#[trigger] r.arcs@[p[1]]@[k]).to as int)
                        == x);
                assert(crate::graph::row_wf(r.arcs@[p[1]]@, r.n()));
                let c = r.arcs@[p[1]]@[k].syms@[0];
                assert(r.arcs@[p[1]]@[k].syms@.contains(c));
                assert(r.char_edge(p[1], x, c)) by {
                    assert(((#[trigger] r.arcs@[p[1]]@[k]).to as int) == x
                        && r.arcs@[p[1]]@[k].syms@.contains(c));
                }
                let m = choose|m: int|
                    #[trigger] comp_eps_reach(e, idc, p[1], m) && base_char(e, idc, m, x, c);
                lemma_reach_prepend(comp_eps_rel(e, idc), p[0], p[1], m);
                assert(comp_eps_reach(e, idc, p[0], m));
                assert(r.char_edge(p[0], x, c));
                assert(r.has_arc(p[0], x)) by {
                    let k2 = choose|k2: int|
                        0 <= k2 < r.arcs@[p[0]]@.len() && (((#[trigger] r.arcs@[p[0]]@[k2]).to
                            as int) == x) && r.arcs@[p[0]]@[k2].syms@.contains(c);
                    assert(((#[trigger] r.arcs@[p[0]]@[k2]).to as int) == x);
                }
                assert(r.edge_rel()(p[0], x));
                lemma_reach_prepend(r.edge_rel(), p[0], x, a2);
            }
        } else {
            // A symbol edge at component level is a direct edge of `r`.
            let c = choose|c: char| base_char(e, idc, p[0], p[1], c);
            assert(r.char_edge(p[0], p[1], c)) by {
                lemma_reach_refl(comp_eps_rel(e, idc), p[0]);
                assert(comp_eps_reach(e, idc, p[0], p[0]));
            }
            assert(r.has_arc(p[0], p[1])) by {
                let k2 = choose|k2: int|
                    0 <= k2 < r.arcs@[p[0]]@.len() && (((#[trigger] r.arcs@[p[0]]@[k2]).to as int)
                        == p[1]) && r.arcs@[p[0]]@[k2].syms@.contains(c);
                assert(((#[trigger] r.arcs@[p[0]]@[k2]).to as int) == p[1]);
            }
            assert(r.edge_rel()(p[0], p[1]));
            lemma_reach_prepend(r.edge_rel(), p[0], p[1], a2);
        }
    }
}

/// Like `comp_eps_edge`, with the source node drawn from `0..bound` only.
pub open spec fn comp_eps_edge_upto(e: ENfa, idc: Seq<usize>, a: int, b: int, bound: int) -> bool {
    a != b && exists|u: int, v: int|
        0 <= u < bound && 0 <= v < e.n() && ((idc[u]) as int) == a && ((idc[v]) as int) == b
            && #[trigger] e.eps_edge(u, v)
}

/// Like `base_char`, with the source node drawn from `0..bound` only.
pub open spec fn base_char_upto(
    e: ENfa,
    idc: Seq<usize>,
    m: int,
    b: int,
    c: char,
    bound: int,
) -> bool {
    m != b && exists|u: int, v: int|
        0 <= u < bound && 0 <= v < e.n() && ((idc[u]) as int) == m && ((idc[v]) as int) == b
            && #[trigger] e.char_edge(u, v, c)
}

/// The inherited symbol edges of a component: a cross-component symbol edge
/// of some epsilon-reachable component.
pub open spec fn closed_char(e: ENfa, idc: Seq<usize>, a: int, b: int, c: char) -> bool {
    exists|m: int| #[trigger] comp_eps_reach(e, idc, a, m) && base_char(e, idc, m, b, c)
}

/// The inherited accepting status of a component: some epsilon-reachable
/// component holds an accepting node.
pub open spec fn closed_fin(e: ENfa, idc: Seq<usize>, a: int) -> bool {
    exists|m: int| #[trigger] comp_eps_reach(e, idc, a, m) && base_fin(e, idc, m)
}

impl ENfa {
    /// Eliminates the epsilon transitions: collapses each epsilon-only
    /// strongly connected component into one node, keeps the symbol edges
    /// that cross components, and propagates transitions and accepting
    /// status backward across the acyclic inter-component epsilon edges,
    /// visiting components in ascending order so that every epsilon target
    /// is already fully propagated when it is read.
    #[verifier::rlimit(60)]
    pub fn to_nfa(&self) -> (r: Nfa)
        requires
            self.wf(),
        ensures
            r.wf(),
            exists|idc: Seq<usize>| #[trigger] condensation_of(*self, r, idc),
    {
        let ghost e = *self;
        let n = self.nodes.len();

        // The epsilon-only subgraph, as a plain adjacency structure.
        let mut eps_adj: Vec<Vec<usize>> = Vec::new();
        let mut u: usize = 0;
        while u < n
            invariant
                u <= n,
                n == e.n(),
                e == *self,
                e.wf(),
                eps_adj@.len() == u,
                forall|w: int| 0 <= w < u ==> (#[trigger] eps_adj@[w])@ == e.nodes@[w].eps@,
            decreases n - u,
        {
            eps_adj.push(crate::graph::clone_ids(&self.nodes[u].eps));
            u += 1;
        }
        let ghost av = adj_view(eps_adj);
        proof {
            assert(av.len() == n);
            assert(forall|w: int| 0 <= w < n ==> (#[trigger] av[w]) == e.nodes@[w].eps@);
            assert forall|x: int, t: int|
                0 <= x < av.len() && 0 <= t < av[x].len() implies ((#[trigger] av[x][t]) as int)
                < av.len() by {
                assert(eps_row_wf(e.nodes@[x].eps@, n as int));
            }
            assert(adj_wf(av));
        }

        // The epsilon-only strongly connected components.
        let comps = scc_decomposition(&eps_adj);
        let ghost cs = comps@.map_values(|row: Vec<usize>| row@);
        let k = comps.len();

        // The node-to-component map.
        let mut id_to_comp: Vec<usize> = vec![0; n];
        let mut i: usize = 0;
        while i < k
            invariant
                i <= k,
                k == cs.len(),
                cs == comps@.map_values(|row: Vec<usize>| row@),
                scc_post(av, cs),
                av.len() == n,
                id_to_comp@.len() == n,
                forall|i2: int, j2: int|
                    0 <= i2 < i && 0 <= j2 < cs[i2].len() ==> ((id_to_comp@[(#[trigger] cs[i2][j2]) as int]) as int) == i2,
            decreases k - i,
        {
            let mut j: usize = 0;
            let cl = comps[i].len();
            while j < cl
                invariant
                    j <= cl,
                    i < k,
                    k == cs.len(),
                    cs == comps@.map_values(|row: Vec<usize>| row@),
                    cl == cs[i as int].len(),
                    scc_post(av, cs),
                    av.len() == n,
                    id_to_comp@.len() == n,
                    forall|i2: int, j2: int|
                        0 <= i2 < i && 0 <= j2 < cs[i2].len() ==> ((id_to_comp@[(#[trigger] cs[i2][j2]) as int]) as int) == i2,
                    forall|j2: int|
                        0 <= j2 < j ==> ((id_to_comp@[(#[trigger] cs[i as int][j2]) as int]) as int) == i as int,
                decreases cl - j,
            {
                id_to_comp.set(comps[i][j], i);
                j += 1;
                proof {
                    assert forall|i2: int, j2: int|
                        0 <= i2 < i && 0 <= j2 < cs[i2].len() implies ((id_to_comp@[(#[trigger] cs[i2][j2]) as int]) as int) == i2 by {
                        assert(cs[i2][j2] != cs[i as int][j - 1]);
                    }
                    assert forall|j2: int|
                        0 <= j2 < j implies ((id_to_comp@[(#[trigger] cs[i as int][j2]) as int]) as int) == i as int by {
                        if j2 < j - 1 {
                            assert(cs[i as int][j2] != cs[i as int][j - 1]);
                        }
                    }
                }
            }
            i += 1;
        }
        let ghost idcv = id_to_comp@;
        proof {
            // Every node carries the index of its component.
            assert forall|v: int| 0 <= v < n implies ((#[trigger] idcv[v]) as int) < k as int
                && exists|j: int|
                0 <= j < cs[(idcv[v]) as int].len() && ((cs[(idcv[v]) as int][j]) as int) == v by {
                assert(comp_member(cs, v));
                let (i2, j2) = choose|i2: int, j2: int|
                    0 <= i2 < cs.len() && 0 <= j2 < cs[i2].len() && (((#[trigger] cs[i2][j2]) as int) == v);
                assert(((idcv[v]) as int) == i2);
                assert(0 <= j2 < cs[(idcv[v]) as int].len() && ((cs[(idcv[v]) as int][j2]) as int)
                    == v);
            }
            // Nodes of one component are mutually epsilon-reachable.
            assert forall|x: int, y: int|
                0 <= x < n && 0 <= y < n && (#[trigger] idcv[x]) == (#[trigger] idcv[y]) implies
                reaches(eps_rel(e), x, y) by {
                let jx = choose|j: int|
                    0 <= j < cs[(idcv[x]) as int].len() && ((cs[(idcv[x]) as int][j]) as int) == x;
                let jy = choose|j: int|
                    0 <= j < cs[(idcv[y]) as int].len() && ((cs[(idcv[y]) as int][j]) as int) == y;
                assert(crate::graph::adj_reaches(av, x, y));
                assert forall|a2: int, b2: int|
                    #[trigger] crate::graph::adj_rel(av)(a2, b2) implies ((|q: int| q)(a2) == (
                |q: int| q)(b2) || eps_rel(e)((|q: int| q)(a2), (|q: int| q)(b2))) by {
                    assert(seq_has(av[a2], b2));
                    assert(av[a2] == e.nodes@[a2].eps@);
                    assert(e.eps_edge(a2, b2));
                }
                lemma_reach_condense(crate::graph::adj_rel(av), eps_rel(e), |q: int| q, x, y);
            }
            // Inter-component epsilon edges descend.
            assert forall|a: int, b: int| #[trigger] comp_eps_edge(e, idcv, a, b) implies 0 <= b
                < a < k as int by {
                let (x, y) = choose|x: int, y: int|
                    0 <= x < e.n() && 0 <= y < e.n() && ((idcv[x]) as int) == a && ((idcv[y]) as int)
                        == b && #[trigger] e.eps_edge(x, y);
                let jx = choose|j: int|
                    0 <= j < cs[(idcv[x]) as int].len() && ((cs[(idcv[x]) as int][j]) as int) == x;
                let jy = choose|j: int|
                    0 <= j < cs[(idcv[y]) as int].len() && ((cs[(idcv[y]) as int][j]) as int) == y;
                assert(seq_has(av[(cs[a][jx]) as int], (cs[b][jy]) as int)) by {
                    assert(av[x] == e.nodes@[x].eps@);
                    assert(seq_has(e.nodes@[x].eps@, y));
                }
                assert(b < a);
                assert(0 <= b && a < k as int);
            }
        }

        // The condensed symbol graph and the reduced epsilon graph.
        let mut base: Vec<Vec<CharArc>> = Vec::new();
        let mut ce: Vec<Vec<usize>> = Vec::new();
        let mut w: usize = 0;
        while w < k
            invariant
                w <= k,
                base@.len() == w,
                ce@.len() == w,
                forall|a: int| 0 <= a < w ==> (#[trigger] base@[a])@.len() == 0,
                forall|a: int| 0 <= a < w ==> (#[trigger] ce@[a])@.len() == 0,
            decreases k - w,
        {
            base.push(Vec::new());
            ce.push(Vec::new());
            w += 1;
        }
        let mut u: usize = 0;
        while u < n
            invariant
                u <= n,
                n == e.n(),
                e == *self,
                e.wf(),
                idcv == id_to_comp@,
                idcv.len() == n,
                forall|x: int| 0 <= x < n ==> ((#[trigger] idcv[x]) as int) < k as int,
                base@.len() == k,
                ce@.len() == k,
                forall|a: int| 0 <= a < k ==> row_wf((#[trigger] base@[a])@, k as int),
                forall|a: int| 0 <= a < k ==> eps_row_wf((#[trigger] ce@[a])@, k as int),
                forall|a: int, b: int|
                    0 <= a < k ==> (#[trigger] seq_has(ce@[a]@, b) <==> comp_eps_edge_upto(
                        e,
                        idcv,
                        a,
                        b,
                        u as int,
                    )),
                forall|a: int, b: int, c: char|
                    0 <= a < k ==> (#[trigger] row_arc_sym(base@[a]@, b, c) <==> base_char_upto(
                        e,
                        idcv,
                        a,
                        b,
                        c,
                        u as int,
                    )),
            decreases n - u,
        {
            let cu = id_to_comp[u];
            let mut ce_row: Vec<usize> = Vec::new();
            let mut base_row: Vec<CharArc> = Vec::new();
            ce.set_and_swap(cu, &mut ce_row);
            base.set_and_swap(cu, &mut base_row);
            let ghost ce_pre = ce_row@;
            let ghost base_pre = base_row@;
            scatter_node(
                &mut ce_row,
                &mut base_row,
                &self.nodes[u],
                &id_to_comp,
                cu,
                Ghost(k as int),
                Ghost(n as int),
            );
            ce.set_and_swap(cu, &mut ce_row);
            base.set_and_swap(cu, &mut base_row);
            u += 1;
            proof {
                let node = e.nodes@[u - 1];
                assert forall|a: int, b: int|
                    0 <= a < k implies (#[trigger] seq_has(ce@[a]@, b) <==> comp_eps_edge_upto(
                        e,
                        idcv,
                        a,
                        b,
                        u as int,
                    )) by {
                    if a != cu as int {
                        if seq_has(ce@[a]@, b) {
                            assert(comp_eps_edge_upto(e, idcv, a, b, u - 1));
                            let (x, y) = choose|x: int, y: int|
                                0 <= x < u - 1 && 0 <= y < e.n() && ((idcv[x]) as int) == a && ((
                                idcv[y]) as int) == b && #[trigger] e.eps_edge(x, y);
                            assert(comp_eps_edge_upto(e, idcv, a, b, u as int));
                        }
                        if comp_eps_edge_upto(e, idcv, a, b, u as int) {
                            let (x, y) = choose|x: int, y: int|
                                0 <= x < u && 0 <= y < e.n() && ((idcv[x]) as int) == a && ((
                                idcv[y]) as int) == b && #[trigger] e.eps_edge(x, y);
                            if x < u - 1 {
                                assert(comp_eps_edge_upto(e, idcv, a, b, u - 1));
                            } else {
                                assert(((idcv[u - 1]) as int) == cu as int);
                                assert(false);
                            }
                        }
                    } else {
                        if seq_has(ce@[a]@, b) {
                            if seq_has(ce_pre, b) {
                                assert(comp_eps_edge_upto(e, idcv, a, b, u - 1));
                                let (x, y) = choose|x: int, y: int|
                                    0 <= x < u - 1 && 0 <= y < e.n() && ((idcv[x]) as int) == a
                                        && ((idcv[y]) as int) == b && #[trigger] e.eps_edge(x, y);
                                assert(comp_eps_edge_upto(e, idcv, a, b, u as int));
                            } else {
                                let t = choose|t: int|
                                    0 <= t < node.eps@.len() && ((idcv[(
                                    #[trigger] node.eps@[t]) as int]) as int) == b;
                                assert(seq_has(node.eps@, (node.eps@[t]) as int));
                                assert(e.eps_edge(u - 1, (node.eps@[t]) as int));
                                assert(comp_eps_edge_upto(e, idcv, a, b, u as int));
                            }
                        }
                        if comp_eps_edge_upto(e, idcv, a, b, u as int) {
                            let (x, y) = choose|x: int, y: int|
                                0 <= x < u && 0 <= y < e.n() && ((idcv[x]) as int) == a && ((
                                idcv[y]) as int) == b && #[trigger] e.eps_edge(x, y);
                            if x < u - 1 {
                                assert(comp_eps_edge_upto(e, idcv, a, b, u - 1));
                                assert(seq_has(ce_pre, b));
                            } else {
                                let t = choose|t: int|
                                    0 <= t < node.eps@.len() && (((#[trigger] node.eps@[t]) as int)
                                        == y);
                                assert(((idcv[(node.eps@[t]) as int]) as int) == b);
                            }
                            assert(seq_has(ce@[a]@, b));
                        }
                    }
                }
                assert forall|a: int, b: int, c: char|
                    0 <= a < k implies (#[trigger] row_arc_sym(base@[a]@, b, c)
                        <==> base_char_upto(e, idcv, a, b, c, u as int)) by {
                    if a != cu as int {
                        if row_arc_sym(base@[a]@, b, c) {
                            assert(base_char_upto(e, idcv, a, b, c, u - 1));
                            let (x, y) = choose|x: int, y: int|
                                0 <= x < u - 1 && 0 <= y < e.n() && ((idcv[x]) as int) == a && ((
                                idcv[y]) as int) == b && #[trigger] e.char_edge(x, y, c);
                            assert(base_char_upto(e, idcv, a, b, c, u as int));
                        }
                        if base_char_upto(e, idcv, a, b, c, u as int) {
                            let (x, y) = choose|x: int, y: int|
                                0 <= x < u && 0 <= y < e.n() && ((idcv[x]) as int) == a && ((
                                idcv[y]) as int) == b && #[trigger] e.char_edge(x, y, c);
                            if x < u - 1 {
                                assert(base_char_upto(e, idcv, a, b, c, u - 1));
                            } else {
                                assert(false);
                            }
                        }
                    } else {
                        if row_arc_sym(base@[a]@, b, c) {
                            if row_arc_sym(base_pre, b, c) {
                                assert(base_char_upto(e, idcv, a, b, c, u - 1));
                                let (x, y) = choose|x: int, y: int|
                                    0 <= x < u - 1 && 0 <= y < e.n() && ((idcv[x]) as int) == a
                                        && ((idcv[y]) as int) == b && #[trigger] e.char_edge(
                                        x,
                                        y,
                                        c,
                                    );
                                assert(base_char_upto(e, idcv, a, b, c, u as int));
                            } else {
                                let t = choose|t: int|
                                    0 <= t < node.arcs@.len() && ((idcv[(
                                    #[trigger] node.arcs@[t]).to as int]) as int) == b
                                        && node.arcs@[t].syms@.contains(c);
                                assert(row_arc_sym(node.arcs@, (node.arcs@[t].to) as int, c)) by {
                                    assert(((#[trigger] node.arcs@[t]).to as int) == (
                                    node.arcs@[t].to) as int && node.arcs@[t].syms@.contains(c));
                                }
                                assert(e.char_edge(u - 1, (node.arcs@[t].to) as int, c));
                                assert(base_char_upto(e, idcv, a, b, c, u as int));
                            }
                        }
                        if base_char_upto(e, idcv, a, b, c, u as int) {
                            let (x, y) = choose|x: int, y: int|
                                0 <= x < u && 0 <= y < e.n() && ((idcv[x]) as int) == a && ((
                                idcv[y]) as int) == b && #[trigger] e.char_edge(x, y, c);
                            if x < u - 1 {
                                assert(base_char_upto(e, idcv, a, b, c, u - 1));
                                assert(row_arc_sym(base_pre, b, c));
                            } else {
                                let t = choose|t: int|
                                    0 <= t < node.arcs@.len() && (((#[trigger] node.arcs@[t]).to
                                        as int) == y) && node.arcs@[t].syms@.contains(c);
                                assert(((idcv[(node.arcs@[t]).to as int]) as int) == b);
                            }
                            assert(row_arc_sym(base@[a]@, b, c));
                        }
                    }
                }
            }
        }
        proof {
            assert forall|a: int, b: int|
                0 <= a < k implies (#[trigger] seq_has(ce@[a]@, b) <==> comp_eps_edge(
                    e,
                    idcv,
                    a,
                    b,
                )) by {
                if seq_has(ce@[a]@, b) {
                    let (x, y) = choose|x: int, y: int|
                        0 <= x < n && 0 <= y < e.n() && ((idcv[x]) as int) == a && ((idcv[y]) as int)
                            == b && #[trigger] e.eps_edge(x, y);
                    assert(comp_eps_edge(e, idcv, a, b));
                }
                if comp_eps_edge(e, idcv, a, b) {
                    let (x, y) = choose|x: int, y: int|
                        0 <= x < e.n() && 0 <= y < e.n() && ((idcv[x]) as int) == a && ((
                        idcv[y]) as int) == b && #[trigger] e.eps_edge(x, y);
                    assert(comp_eps_edge_upto(e, idcv, a, b, n as int));
                }
            }
            assert forall|a: int, b: int, c: char|
                0 <= a < k implies (#[trigger] row_arc_sym(base@[a]@, b, c) <==> base_char(
                    e,
                    idcv,
                    a,
                    b,
                    c,
                )) by {
                if row_arc_sym(base@[a]@, b, c) {
                    let (x, y) = choose|x: int, y: int|
                        0 <= x < n && 0 <= y < e.n() && ((idcv[x]) as int) == a && ((idcv[y]) as int)
                            == b && #[trigger] e.char_edge(x, y, c);
                    assert(base_char(e, idcv, a, b, c));
                }
                if base_char(e, idcv, a, b, c) {
                    let (x, y) = choose|x: int, y: int|
                        0 <= x < e.n() && 0 <= y < e.n() && ((idcv[x]) as int) == a && ((
                        idcv[y]) as int) == b && #[trigger] e.char_edge(x, y, c);
                    assert(base_char_upto(e, idcv, a, b, c, n as int));
                }
            }
        }

        // The components holding an accepting node.
        let mut fin_mark: Vec<bool> = vec![false; k];
        let mut t: usize = 0;
        let fl = self.fin.len();
        while t < fl
            invariant
                t <= fl,
                fl == e.fin@.len(),
                e == *self,
                e.wf(),
                n == e.n(),
                idcv == id_to_comp@,
                idcv.len() == n,
                forall|x: int| 0 <= x < n ==> ((#[trigger] idcv[x]) as int) < k as int,
                fin_mark@.len() == k,
                forall|a: int|
                    0 <= a < k ==> ((#[trigger] fin_mark@[a]) <==> exists|t2: int|
                        0 <= t2 < t && ((idcv[(#[trigger] e.fin@[t2]) as int]) as int) == a),
            decreases fl - t,
        {
            let cf = id_to_comp[self.fin[t]];
            fin_mark.set(cf, true);
            t += 1;
            proof {
                assert forall|a: int|
                    0 <= a < k implies ((#[trigger] fin_mark@[a]) <==> exists|t2: int|
                        0 <= t2 < t && ((idcv[(#[trigger] e.fin@[t2]) as int]) as int) == a) by {
                    if a == cf as int {
                        assert(((idcv[(#[trigger] e.fin@[t - 1]) as int]) as int) == a);
                    } else {
                        if exists|t2: int|
                            0 <= t2 < t && ((idcv[(#[trigger] e.fin@[t2]) as int]) as int) == a {
                            let t2 = choose|t2: int|
                                0 <= t2 < t && ((idcv[(#[trigger] e.fin@[t2]) as int]) as int)
                                    == a;
                            assert(t2 < t - 1);
                            assert(exists|t3: int|
                                0 <= t3 < t - 1 && ((idcv[(#[trigger] e.fin@[t3]) as int]) as int)
                                    == a);
                        }
                    }
                }
            }
        }
        proof {
            assert forall|a: int|
                0 <= a < k implies ((#[trigger] fin_mark@[a]) <==> base_fin(e, idcv, a)) by {
                if fin_mark@[a] {
                    let t2 = choose|t2: int|
                        0 <= t2 < fl && ((idcv[(#[trigger] e.fin@[t2]) as int]) as int) == a;
                    let f = (e.fin@[t2]) as int;
                    assert(seq_has(e.fin@, f));
                    assert(e.is_fin(f));
                    assert(0 <= f < e.n() && ((idcv[f]) as int) == a && e.is_fin(f));
                }
                if base_fin(e, idcv, a) {
                    let f = choose|f: int|
                        0 <= f < e.n() && ((idcv[f]) as int) == a && #[trigger] e.is_fin(f);
                    let t2 = choose|t2: int|
                        0 <= t2 < e.fin@.len() && (((#[trigger] e.fin@[t2]) as int) == f);
                    assert(((idcv[(e.fin@[t2]) as int]) as int) == a);
                }
            }
        }

        // Propagation along the acyclic inter-component epsilon edges, in
        // ascending component order: each epsilon target is fully
        // propagated before it is read, so one forward pass composes
        // multi-hop epsilon chains.
        let mut bigu: usize = 0;
        while bigu < k
            invariant
                bigu <= k,
                n == e.n(),
                idcv.len() == n,
                forall|x: int| 0 <= x < n ==> ((#[trigger] idcv[x]) as int) < k as int,
                base@.len() == k,
                ce@.len() == k,
                fin_mark@.len() == k,
                forall|a: int| 0 <= a < k ==> row_wf((#[trigger] base@[a])@, k as int),
                forall|a: int, b: int|
                    0 <= a < k ==> (#[trigger] seq_has(ce@[a]@, b) <==> comp_eps_edge(
                        e,
                        idcv,
                        a,
                        b,
                    )),
                forall|a: int, b: int| #[trigger] comp_eps_edge(e, idcv, a, b) ==> 0 <= b < a
                    < k as int,
                forall|a: int, b: int, c: char|
                    bigu <= a < k ==> (#[trigger] row_arc_sym(base@[a]@, b, c) <==> base_char(
                        e,
                        idcv,
                        a,
                        b,
                        c,
                    )),
                forall|a: int, b: int, c: char|
                    0 <= a < bigu ==> (#[trigger] row_arc_sym(base@[a]@, b, c) <==> closed_char(
                        e,
                        idcv,
                        a,
                        b,
                        c,
                    )),
                forall|a: int|
                    bigu <= a < k ==> ((#[trigger] fin_mark@[a]) <==> base_fin(e, idcv, a)),
                forall|a: int|
                    0 <= a < bigu ==> ((#[trigger] fin_mark@[a]) <==> closed_fin(e, idcv, a)),
            decreases k - bigu,
        {
            let mut urow: Vec<CharArc> = Vec::new();
            base.set_and_swap(bigu, &mut urow);
            let ghost base_snap = base@;
            let ghost fm_snap = fin_mark@;
            let ghost urow0 = urow@;
            let mut t: usize = 0;
            let cl = ce[bigu].len();
            while t < cl
                invariant
                    t <= cl,
                    bigu < k,
                    n == e.n(),
                    idcv.len() == n,
                    cl == ce@[bigu as int]@.len(),
                    base@ == base_snap,
                    base@.len() == k,
                    ce@.len() == k,
                    fin_mark@.len() == k,
                    forall|a: int|
                        0 <= a < k && a != bigu as int ==> (#[trigger] fin_mark@[a]) == fm_snap[a],
                    row_wf(urow@, k as int),
                    forall|a: int|
                        0 <= a < k && a != bigu as int ==> row_wf((#[trigger] base@[a])@, k as int),
                    forall|a: int, b: int|
                        0 <= a < k ==> (#[trigger] seq_has(ce@[a]@, b) <==> comp_eps_edge(
                            e,
                            idcv,
                            a,
                            b,
                        )),
                    forall|a: int, b: int| #[trigger] comp_eps_edge(e, idcv, a, b) ==> 0 <= b < a
                        < k as int,
                    forall|a: int, b: int, c: char|
                        bigu < a < k ==> (#[trigger] row_arc_sym(base@[a]@, b, c) <==> base_char(
                            e,
                            idcv,
                            a,
                            b,
                            c,
                        )),
                    forall|a: int, b: int, c: char|
                        0 <= a < bigu ==> (#[trigger] row_arc_sym(base@[a]@, b, c) <==> closed_char(
                            e,
                            idcv,
                            a,
                            b,
                            c,
                        )),
                    forall|a: int|
                        bigu < a < k ==> ((#[trigger] fm_snap[a]) <==> base_fin(e, idcv, a)),
                    forall|a: int|
                        0 <= a < bigu ==> ((#[trigger] fm_snap[a]) <==> closed_fin(e, idcv, a)),
                    forall|b: int, c: char|
                        #[trigger] row_arc_sym(urow@, b, c) <==> base_char(e, idcv, bigu as int, b, c)
                            || (exists|t2: int|
                            0 <= t2 < t && closed_char(
                                e,
                                idcv,
                                ((#[trigger] ce@[bigu as int]@[t2]) as int),
                                b,
                                c,
                            )),
                    (fin_mark@[bigu as int] <==> base_fin(e, idcv, bigu as int) || (exists|t2: int|
                        0 <= t2 < t && closed_fin(
                            e,
                            idcv,
                            ((#[trigger] ce@[bigu as int]@[t2]) as int),
                        ))),
                decreases cl - t,
            {
                let vtx = ce[bigu][t];
                proof {
                    assert(seq_has(ce@[bigu as int]@, vtx as int)) by {
                        assert(((#[trigger] ce@[bigu as int]@[t as int]) as int) == vtx as int);
                    }
                    assert(comp_eps_edge(e, idcv, bigu as int, vtx as int));
                    assert(0 <= (vtx as int) < bigu as int);
                }
                if fin_mark[vtx] {
                    fin_mark.set(bigu, true);
                }
                merge_rows(&mut urow, &base[vtx], Ghost(k as int));
                t += 1;
                proof {
                    assert forall|b: int, c: char|
                        #[trigger] row_arc_sym(urow@, b, c) <==> base_char(e, idcv, bigu as int, b, c)
                            || (exists|t2: int|
                            0 <= t2 < t && closed_char(
                                e,
                                idcv,
                                ((#[trigger] ce@[bigu as int]@[t2]) as int),
                                b,
                                c,
                            )) by {
                        if row_arc_sym(urow@, b, c) {
                            if !base_char(e, idcv, bigu as int, b, c) && !(exists|t2: int|
                                0 <= t2 < t - 1 && closed_char(
                                    e,
                                    idcv,
                                    ((#[trigger] ce@[bigu as int]@[t2]) as int),
                                    b,
                                    c,
                                )) {
                                assert(row_arc_sym(base_snap[vtx as int]@, b, c));
                                assert(closed_char(e, idcv, vtx as int, b, c));
                                assert(((#[trigger] ce@[bigu as int]@[t - 1]) as int)
                                    == vtx as int);
                            }
                        }
                        if exists|t2: int|
                            0 <= t2 < t && closed_char(
                                e,
                                idcv,
                                ((#[trigger] ce@[bigu as int]@[t2]) as int),
                                b,
                                c,
                            ) {
                            let t2 = choose|t2: int|
                                0 <= t2 < t && closed_char(
                                    e,
                                    idcv,
                                    ((#[trigger] ce@[bigu as int]@[t2]) as int),
                                    b,
                                    c,
                                );
                            if t2 < t - 1 {
                                assert(exists|t3: int|
                                    0 <= t3 < t - 1 && closed_char(
                                        e,
                                        idcv,
                                        ((#[trigger] ce@[bigu as int]@[t3]) as int),
                                        b,
                                        c,
                                    ));
                                assert(row_arc_sym(urow@, b, c));
                            } else {
                                assert(closed_char(e, idcv, vtx as int, b, c));
                                assert(row_arc_sym(base_snap[vtx as int]@, b, c));
                                assert(row_arc_sym(urow@, b, c));
                            }
                        }
                    }
                    assert(fin_mark@[bigu as int] <==> base_fin(e, idcv, bigu as int) || (
                    exists|t2: int|
                        0 <= t2 < t && closed_fin(
                            e,
                            idcv,
                            ((#[trigger] ce@[bigu as int]@[t2]) as int),
                        ))) by {
                        if fin_mark@[bigu as int] {
                            if !base_fin(e, idcv, bigu as int) && !(exists|t2: int|
                                0 <= t2 < t - 1 && closed_fin(
                                    e,
                                    idcv,
                                    ((#[trigger] ce@[bigu as int]@[t2]) as int),
                                )) {
                                assert(fm_snap[vtx as int]);
                                assert(closed_fin(e, idcv, vtx as int));
                                assert(((#[trigger] ce@[bigu as int]@[t - 1]) as int)
                                    == vtx as int);
                            }
                        }
                        if exists|t2: int|
                            0 <= t2 < t && closed_fin(
                                e,
                                idcv,
                                ((#[trigger] ce@[bigu as int]@[t2]) as int),
                            ) {
                            let t2 = choose|t2: int|
                                0 <= t2 < t && closed_fin(
                                    e,
                                    idcv,
                                    ((#[trigger] ce@[bigu as int]@[t2]) as int),
                                );
                            if t2 < t - 1 {
                                assert(exists|t3: int|
                                    0 <= t3 < t - 1 && closed_fin(
                                        e,
                                        idcv,
                                        ((#[trigger] ce@[bigu as int]@[t3]) as int),
                                    ));
                            } else {
                                assert(closed_fin(e, idcv, vtx as int));
                                assert(fm_snap[vtx as int]);
                            }
                        }
                    }
                }
            }
            base.set_and_swap(bigu, &mut urow);
            bigu += 1;
            proof {
                let bu = bigu as int - 1;
                // The inherited row is exactly the epsilon closure of `bu`.
                assert forall|b: int, c: char|
                    #[trigger] row_arc_sym(base@[bu]@, b, c) <==> closed_char(e, idcv, bu, b, c)
                by {
                    if row_arc_sym(base@[bu]@, b, c) {
                        if base_char(e, idcv, bu, b, c) {
                            lemma_reach_refl(comp_eps_rel(e, idcv), bu);
                            assert(comp_eps_reach(e, idcv, bu, bu));
                        } else {
                            let t2 = choose|t2: int|
                                0 <= t2 < cl && closed_char(
                                    e,
                                    idcv,
                                    ((#[trigger] ce@[bu]@[t2]) as int),
                                    b,
                                    c,
                                );
                            let vv = (ce@[bu]@[t2]) as int;
                            let m = choose|m: int|
                                #[trigger] comp_eps_reach(e, idcv, vv, m) && base_char(
                                    e,
                                    idcv,
                                    m,
                                    b,
                                    c,
                                );
                            assert(seq_has(ce@[bu]@, vv)) by {
                                assert(((#[trigger] ce@[bu]@[t2]) as int) == vv);
                            }
                            assert(comp_eps_edge(e, idcv, bu, vv));
                            lemma_reach_prepend(comp_eps_rel(e, idcv), bu, vv, m);
                            assert(comp_eps_reach(e, idcv, bu, m));
                        }
                    }
                    if closed_char(e, idcv, bu, b, c) {
                        let m = choose|m: int|
                            #[trigger] comp_eps_reach(e, idcv, bu, m) && base_char(e, idcv, m, b, c);
                        if m == bu {
                            assert(row_arc_sym(base@[bu]@, b, c));
                        } else {
                            lemma_reach_head(comp_eps_rel(e, idcv), bu, m);
                            let vv = choose|vv: int|
                                #[trigger] comp_eps_rel(e, idcv)(bu, vv) && reaches(
                                    comp_eps_rel(e, idcv),
                                    vv,
                                    m,
                                );
                            assert(comp_eps_edge(e, idcv, bu, vv));
                            assert(seq_has(ce@[bu]@, vv));
                            let t2 = choose|t2: int|
                                0 <= t2 < ce@[bu]@.len() && (((#[trigger] ce@[bu]@[t2]) as int)
                                    == vv);
                            assert(comp_eps_reach(e, idcv, vv, m));
                            assert(closed_char(e, idcv, vv, b, c));
                            assert(exists|t3: int|
                                0 <= t3 < cl && closed_char(
                                    e,
                                    idcv,
                                    ((#[trigger] ce@[bu]@[t3]) as int),
                                    b,
                                    c,
                                ));
                            assert(row_arc_sym(base@[bu]@, b, c));
                        }
                    }
                }
                assert((#[trigger] fin_mark@[bu]) <==> closed_fin(e, idcv, bu)) by {
                    if fin_mark@[bu] {
                        if base_fin(e, idcv, bu) {
                            lemma_reach_refl(comp_eps_rel(e, idcv), bu);
                            assert(comp_eps_reach(e, idcv, bu, bu));
                        } else {
                            let t2 = choose|t2: int|
                                0 <= t2 < cl && closed_fin(
                                    e,
                                    idcv,
                                    ((#[trigger] ce@[bu]@[t2]) as int),
                                );
                            let vv = (ce@[bu]@[t2]) as int;
                            let m = choose|m: int|
                                #[trigger] comp_eps_reach(e, idcv, vv, m) && base_fin(e, idcv, m);
                            assert(seq_has(ce@[bu]@, vv)) by {
                                assert(((#[trigger] ce@[bu]@[t2]) as int) == vv);
                            }
                            assert(comp_eps_edge(e, idcv, bu, vv));
                            lemma_reach_prepend(comp_eps_rel(e, idcv), bu, vv, m);
                            assert(comp_eps_reach(e, idcv, bu, m));
                        }
                    }
                    if closed_fin(e, idcv, bu) {
                        let m = choose|m: int|
                            #[trigger] comp_eps_reach(e, idcv, bu, m) && base_fin(e, idcv, m);
                        if m == bu {
                        } else {
                            lemma_reach_head(comp_eps_rel(e, idcv), bu, m);
                            let vv = choose|vv: int|
                                #[trigger] comp_eps_rel(e, idcv)(bu, vv) && reaches(
                                    comp_eps_rel(e, idcv),
                                    vv,
                                    m,
                                );
                            assert(comp_eps_edge(e, idcv, bu, vv));
                            assert(seq_has(ce@[bu]@, vv));
                            let t2 = choose|t2: int|
                                0 <= t2 < ce@[bu]@.len() && (((#[trigger] ce@[bu]@[t2]) as int)
                                    == vv);
                            assert(comp_eps_reach(e, idcv, vv, m));
                            assert(closed_fin(e, idcv, vv));
                            assert(exists|t3: int|
                                0 <= t3 < cl && closed_fin(
                                    e,
                                    idcv,
                                    ((#[trigger] ce@[bu]@[t3]) as int),
                                ));
                        }
                    }
                }
            }
        }

        // The accepting components, in ascending order.
        let mut fin: Vec<usize> = Vec::new();
        let mut a: usize = 0;
        while a < k
            invariant
                a <= k,
                fin_mark@.len() == k,
                forall|k1: int, k2: int|
                    0 <= k1 < k2 < fin@.len() ==> (#[trigger] fin@[k1]) < (#[trigger] fin@[k2]),
                forall|k1: int| 0 <= k1 < fin@.len() ==> ((#[trigger] fin@[k1]) as int) < a as int,
                forall|b: int|
                    #[trigger] seq_has(fin@, b) <==> 0 <= b < a && fin_mark@[b],
            decreases k - a,
        {
            let ghost fin_pre = fin@;
            if fin_mark[a] {
                fin.push(a);
            }
            a += 1;
            proof {
                assert forall|b: int| #[trigger] seq_has(fin@, b) <==> 0 <= b < a && fin_mark@[b]
                by {
                    if seq_has(fin@, b) {
                        let j = choose|j: int|
                            0 <= j < fin@.len() && (((#[trigger] fin@[j]) as int) == b);
                        if j < fin_pre.len() {
                            assert(seq_has(fin_pre, b));
                        }
                    }
                    if 0 <= b < a && fin_mark@[b] {
                        if b < a - 1 {
                            assert(seq_has(fin_pre, b));
                            let j = choose|j: int|
                                0 <= j < fin_pre.len() && (((#[trigger] fin_pre[j]) as int) == b);
                            assert(((fin@[j]) as int) == b);
                        } else {
                            assert(((fin@[fin@.len() - 1]) as int) == b);
                        }
                    }
                }
            }
        }

        let start = id_to_comp[self.start];
        let r = Nfa { arcs: base, start, fin };
        proof {
            assert(r.wf()) by {
                assert forall|j: int| 0 <= j < r.fin@.len() implies ((#[trigger] r.fin@[j]) as int)
                    < r.n() by {
                    assert(seq_has(r.fin@, (r.fin@[j]) as int));
                }
            }
            assert forall|cp: int| 0 <= cp < r.n() implies #[trigger] comp_used(
                idcv,
                e.n(),
                cp,
            ) by {
                assert(cs[cp].len() >= 1);
                let v = (cs[cp][0]) as int;
                assert(((idcv[v]) as int) == cp);
                assert(0 <= v < n);
            }
            assert forall|aa: int, b: int, c: char|
                #[trigger] r.char_edge(aa, b, c) <==> closed_char(e, idcv, aa, b, c) by {
                if closed_char(e, idcv, aa, b, c) && !(0 <= aa < k as int) {
                    let m = choose|m: int|
                        #[trigger] comp_eps_reach(e, idcv, aa, m) && base_char(e, idcv, m, b, c);
                    let (x, y) = choose|x: int, y: int|
                        0 <= x < e.n() && 0 <= y < e.n() && ((idcv[x]) as int) == m && ((
                        idcv[y]) as int) == b && #[trigger] e.char_edge(x, y, c);
                    if m == aa {
                        assert(false);
                    } else {
                        lemma_reach_head(comp_eps_rel(e, idcv), aa, m);
                        let vv = choose|vv: int|
                            #[trigger] comp_eps_rel(e, idcv)(aa, vv) && reaches(
                                comp_eps_rel(e, idcv),
                                vv,
                                m,
                            );
                        assert(comp_eps_edge(e, idcv, aa, vv));
                        assert(false);
                    }
                }
            }
            assert forall|aa: int|
                #[trigger] r.is_fin(aa) <==> (0 <= aa < r.n() && closed_fin(e, idcv, aa)) by {
                if r.is_fin(aa) {
                    assert(seq_has(r.fin@, aa));
                    assert(0 <= aa < k && fin_mark@[aa]);
                }
                if 0 <= aa < r.n() && closed_fin(e, idcv, aa) {
                    assert(fin_mark@[aa]);
                    assert(seq_has(r.fin@, aa));
                }
            }
            assert(condensation_of(e, r, idcv));
        }
        r
    }
}

} // verus!
