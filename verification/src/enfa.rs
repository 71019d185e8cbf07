//! Thompson construction: building an epsilon-NFA from a postfix
//! expression by merging partial automata over an evaluation stack.

use crate::graph::{
    add_eps_target, clone_chars, clone_ids, eps_row_wf, merge_arc_sym, row_arc_sym, row_has_arc,
    row_wf, seq_has, CharArc,
};
use crate::parsing::{ExprUnit, RegexOp};
use crate::reach::{lemma_reach_condense, lemma_reach_prepend, lemma_reach_refl, lemma_reach_step, reaches};
use vstd::pervasive::VecAdditionalExecFns;
use vstd::prelude::*;

verus! {

/// The label of one ε-NFA edge: an epsilon transition or an input symbol.
#[derive(Clone, Copy, Debug, PartialEq, Eq, Structural)]
pub enum ENfaEdge {
    Epsilon,
    Char(char),
}

/// One node of an ε-NFA: the targets of its epsilon edges and its
/// symbol-labeled arcs.
pub struct ENfaNode {
    pub eps: Vec<usize>,
    pub arcs: Vec<CharArc>,
}

/// An automaton with epsilon transitions. Nodes are the dense identifiers
/// `0..nodes.len()`; `start` is the one start node and `fin` the accepting
/// nodes.
pub struct ENfa {
    pub nodes: Vec<ENfaNode>,
    pub start: usize,
    pub fin: Vec<usize>,
}

impl ENfa {
    /// Number of nodes.
    pub open spec fn n(self) -> int {
        self.nodes@.len() as int
    }

    /// There is an epsilon edge from `u` to `v`.
    pub open spec fn eps_edge(self, u: int, v: int) -> bool {
        0 <= u < self.n() && seq_has(self.nodes@[u].eps@, v)
    }

    /// There is an edge from `u` to `v` labeled with the symbol `c`.
    pub open spec fn char_edge(self, u: int, v: int, c: char) -> bool {
        0 <= u < self.n() && row_arc_sym(self.nodes@[u].arcs@, v, c)
    }

    /// There is a symbol-labeled edge from `u` to `v`.
    pub open spec fn has_arc(self, u: int, v: int) -> bool {
        0 <= u < self.n() && row_has_arc(self.nodes@[u].arcs@, v)
    }

    /// `v` is an accepting node.
    pub open spec fn is_fin(self, v: int) -> bool {
        seq_has(self.fin@, v)
    }

    /// There is an edge of any label from `u` to `v`.
    pub open spec fn edge(self, u: int, v: int) -> bool {
        self.eps_edge(u, v) || self.has_arc(u, v)
    }

    /// The edge relation of the automaton, epsilon and symbol edges alike.
    pub open spec fn edge_rel(self) -> spec_fn(int, int) -> bool {
        |u: int, v: int| self.edge(u, v)
    }

    /// `v` can be reached from `u` through edges of any label.
    pub open spec fn mixed_reaches(self, u: int, v: int) -> bool {
        reaches(self.edge_rel(), u, v)
    }

    /// Structural soundness: start and accepting nodes exist, every edge
    /// connects existing nodes, edge label sets are non-empty and
    /// duplicate-free, and there is at most one labeled arc per node pair.
    pub open spec fn wf(self) -> bool {
        &&& (self.start as int) < self.n()
        &&& forall|k: int|
            0 <= k < self.fin@.len() ==> ((#[trigger] self.fin@[k]) as int) < self.n()
        &&& forall|u: int|
            0 <= u < self.n() ==> {
                &&& eps_row_wf((#[trigger] self.nodes@[u]).eps@, self.n())
                &&& row_wf(self.nodes@[u].arcs@, self.n())
            }
    }

    /// The number of stored elements of a node list prefix: nodes plus
    /// epsilon targets plus labeled arcs.
    pub open spec fn rows_size(rows: Seq<ENfaNode>) -> int
        decreases rows.len(),
    {
        if rows.len() == 0 {
            0
        } else {
            Self::rows_size(rows.drop_last()) + 1 + rows.last().eps@.len()
                + rows.last().arcs@.len()
        }
    }

    /// The number of stored elements of the whole automaton; the merge
    /// helpers bound their cost and their overflow safety by it.
    pub open spec fn total_size(self) -> int {
        Self::rows_size(self.nodes@)
    }

    /// A node list only grows the size accounting as it grows.
    pub proof fn lemma_rows_size_nonneg(rows: Seq<ENfaNode>)
        ensures
            Self::rows_size(rows) >= rows.len(),
        decreases rows.len(),
    {
        if rows.len() > 0 {
            Self::lemma_rows_size_nonneg(rows.drop_last());
        }
    }

    /// Size accounting of a prefix is bounded by that of the whole list.
    pub proof fn lemma_rows_size_prefix(rows: Seq<ENfaNode>, i: int)
        requires
            0 <= i <= rows.len(),
        ensures
            Self::rows_size(rows.subrange(0, i)) <= Self::rows_size(rows),
        decreases rows.len() - i,
    {
        if i == rows.len() {
            assert(rows.subrange(0, i) =~= rows);
        } else {
            Self::lemma_rows_size_prefix(rows, i + 1);
            let s = rows.subrange(0, i + 1);
            assert(s.drop_last() =~= rows.subrange(0, i));
            assert(s.last() == rows[i]);
            assert(Self::rows_size(rows.subrange(0, i)) <= Self::rows_size(s));
        }
    }

    /// Adds one edge between two existing nodes, inserting its label into
    /// the edge's symbol set (an absent edge is materialized).
    fn add_edge(&mut self, i: usize, j: usize, w: ENfaEdge)
        requires
            old(self).wf(),
            i < old(self).n(),
            j < old(self).n(),
        ensures
            final(self).wf(),
            final(self).n() == old(self).n(),
            final(self).start == old(self).start,
            final(self).fin@ == old(self).fin@,
            final(self).total_size() <= old(self).total_size() + 1,
            forall|u: int, v: int|
                final(self).eps_edge(u, v) <==> old(self).eps_edge(u, v) || (w == ENfaEdge::Epsilon
                    && u == i as int && v == j as int),
            forall|u: int, v: int, c: char|
                final(self).char_edge(u, v, c) <==> old(self).char_edge(u, v, c) || (w
                    == ENfaEdge::Char(c) && u == i as int && v == j as int),
            forall|u: int, v: int|
                final(self).has_arc(u, v) <==> old(self).has_arc(u, v) || (w is Char && u == i as int
                    && v == j as int),
    {
        let ghost nodes0 = self.nodes@;
        let mut node = ENfaNode { eps: Vec::new(), arcs: Vec::new() };
        self.nodes.set_and_swap(i, &mut node);
        let ghost sz0 = node.eps@.len() + node.arcs@.len();
        match w {
            ENfaEdge::Epsilon => {
                add_eps_target(&mut node.eps, j, Ghost(self.nodes@.len() as int));
            },
            ENfaEdge::Char(c) => {
                merge_arc_sym(&mut node.arcs, j, c, Ghost(self.nodes@.len() as int));
            },
        }
        self.nodes.set_and_swap(i, &mut node);
        proof {
            let nf = self.nodes@;
            assert(nf =~= nodes0.update(i as int, nf[i as int]));
            assert(forall|u: int| 0 <= u < nf.len() && u != i as int ==> nf[u] == nodes0[u]);
            Self::lemma_rows_size_update(nodes0, i as int, nf[i as int]);
            assert(nf[i as int].eps@.len() + nf[i as int].arcs@.len() <= sz0 + 1);
        }
    }

    /// Size accounting after replacing one row.
    proof fn lemma_rows_size_update(rows: Seq<ENfaNode>, i: int, nd: ENfaNode)
        requires
            0 <= i < rows.len(),
        ensures
            Self::rows_size(rows.update(i, nd)) == Self::rows_size(rows) + nd.eps@.len()
                + nd.arcs@.len() - rows[i].eps@.len() - rows[i].arcs@.len(),
        decreases rows.len(),
    {
        let r2 = rows.update(i, nd);
        if i == rows.len() - 1 {
            assert(r2.drop_last() =~= rows.drop_last());
            assert(r2.last() == nd);
        } else {
            assert(r2.drop_last() =~= rows.drop_last().update(i, nd));
            assert(r2.last() == rows.last());
            Self::lemma_rows_size_update(rows.drop_last(), i, nd);
        }
    }
}

impl ENfa {
    /// Counts the stored elements of the automaton, the measure by which
    /// the merge helpers choose the cheaper merge direction.
    fn size(&self) -> (r: usize)
        requires
            self.total_size() <= usize::MAX,
        ensures
            r as int == self.total_size(),
    {
        let mut acc: usize = 0;
        let mut u: usize = 0;
        let l = self.nodes.len();
        while u < l
            invariant
                u <= l,
                l == self.nodes@.len(),
                self.total_size() <= usize::MAX,
                acc as int == Self::rows_size(self.nodes@.subrange(0, u as int)),
            decreases l - u,
        {
            proof {
                Self::lemma_rows_size_prefix(self.nodes@, u as int + 1);
                let s = self.nodes@.subrange(0, u as int + 1);
                assert(s.drop_last() =~= self.nodes@.subrange(0, u as int));
                assert(s.last() == self.nodes@[u as int]);
            }
            acc = acc + 1 + self.nodes[u].eps.len() + self.nodes[u].arcs.len();
            u += 1;
        }
        proof {
            assert(self.nodes@.subrange(0, l as int) =~= self.nodes@);
        }
        acc
    }

    /// Appends a fresh node with no edges.
    fn push_empty_node(&mut self)
        requires
            old(self).wf(),
        ensures
            final(self).wf(),
            final(self).n() == old(self).n() + 1,
            final(self).start == old(self).start,
            final(self).fin@ == old(self).fin@,
            final(self).total_size() == old(self).total_size() + 1,
            forall|u: int|
                0 <= u < old(self).n() ==> final(self).nodes@[u] == old(self).nodes@[u],
            forall|u: int, v: int| final(self).eps_edge(u, v) <==> old(self).eps_edge(u, v),
            forall|u: int, v: int, c: char|
                final(self).char_edge(u, v, c) <==> old(self).char_edge(u, v, c),
            forall|u: int, v: int| final(self).has_arc(u, v) <==> old(self).has_arc(u, v),
    {
        self.nodes.push(ENfaNode { eps: Vec::new(), arcs: Vec::new() });
        proof {
            let nf = self.nodes@;
            let n0 = old(self).nodes@;
            assert(nf.drop_last() =~= n0);
            assert forall|u: int, v: int|
                final(self).eps_edge(u, v) <==> old(self).eps_edge(u, v)
            by {
                if u == n0.len() {
                    assert(nf[u].eps@.len() == 0);
                    if seq_has(nf[u].eps@, v) {
                        let k = choose|k: int|
                            0 <= k < nf[u].eps@.len() && ((#[trigger] nf[u].eps@[k]) as int) == v;
                    }
                }
            }
            assert forall|u: int, v: int, c: char|
                final(self).char_edge(u, v, c) <==> old(self).char_edge(u, v, c)
            by {
                if u == n0.len() {
                    if crate::graph::row_arc_sym(nf[u].arcs@, v, c) {
                        let k = choose|k: int|
                            0 <= k < nf[u].arcs@.len() && ((#[trigger] nf[u].arcs@[k]).to as int)
                                == v && nf[u].arcs@[k].syms@.contains(c);
                    }
                }
            }
            assert forall|u: int, v: int| final(self).has_arc(u, v) <==> old(self).has_arc(u, v)
            by {
                if u == n0.len() {
                    if row_has_arc(nf[u].arcs@, v) {
                        let k = choose|k: int|
                            0 <= k < nf[u].arcs@.len() && ((#[trigger] nf[u].arcs@[k]).to as int)
                                == v;
                    }
                }
            }
            assert(forall|u: int|
                0 <= u < nf.len() ==> eps_row_wf((#[trigger] nf[u]).eps@, nf.len() as int)
                    && row_wf(nf[u].arcs@, nf.len() as int)) by {
                assert forall|u: int| 0 <= u < nf.len() implies eps_row_wf(
                    (#[trigger] nf[u]).eps@,
                    nf.len() as int,
                ) && row_wf(nf[u].arcs@, nf.len() as int) by {
                    if u < n0.len() {
                        crate::graph::lemma_eps_row_wf_mono(nf[u].eps@, n0.len() as int, nf.len() as int);
                        crate::graph::lemma_row_wf_mono(nf[u].arcs@, n0.len() as int, nf.len() as int);
                    }
                }
            }
        }
    }
}

/// Appends the nodes of `g2` after those of `g1`: every node and edge
/// endpoint from `g2` is offset by `g1`'s pre-merge node count, preserving
/// `g2`'s internal topology exactly.
fn merge_graphmaps(g1: &mut Vec<ENfaNode>, g2: &Vec<ENfaNode>)
    requires
        forall|u: int|
            0 <= u < old(g1)@.len() ==> {
                &&& eps_row_wf((#[trigger] old(g1)@[u]).eps@, old(g1)@.len() as int)
                &&& row_wf(old(g1)@[u].arcs@, old(g1)@.len() as int)
            },
        forall|u: int|
            0 <= u < g2@.len() ==> {
                &&& eps_row_wf((#[trigger] g2@[u]).eps@, g2@.len() as int)
                &&& row_wf(g2@[u].arcs@, g2@.len() as int)
            },
        old(g1)@.len() + g2@.len() <= usize::MAX,
    ensures
        final(g1)@.len() == old(g1)@.len() + g2@.len(),
        forall|u: int| 0 <= u < old(g1)@.len() ==> final(g1)@[u] == old(g1)@[u],
        forall|u: int|
            0 <= u < final(g1)@.len() ==> {
                &&& eps_row_wf((#[trigger] final(g1)@[u]).eps@, final(g1)@.len() as int)
                &&& row_wf(final(g1)@[u].arcs@, final(g1)@.len() as int)
            },
        forall|u: int, v: int|
            old(g1)@.len() <= u < final(g1)@.len() ==> (#[trigger] seq_has(
                final(g1)@[u].eps@,
                v,
            ) <==> seq_has(g2@[u - old(g1)@.len()].eps@, v - old(g1)@.len())),
        forall|u: int, v: int, c: char|
            old(g1)@.len() <= u < final(g1)@.len() ==> (#[trigger] row_arc_sym(
                final(g1)@[u].arcs@,
                v,
                c,
            ) <==> row_arc_sym(g2@[u - old(g1)@.len()].arcs@, v - old(g1)@.len(), c)),
        forall|u: int, v: int|
            old(g1)@.len() <= u < final(g1)@.len() ==> (#[trigger] row_has_arc(
                final(g1)@[u].arcs@,
                v,
            ) <==> row_has_arc(g2@[u - old(g1)@.len()].arcs@, v - old(g1)@.len())),
        ENfa::rows_size(final(g1)@) == ENfa::rows_size(old(g1)@) + ENfa::rows_size(g2@),
{
    let ord1 = g1.len();
    let mut u: usize = 0;
    let l2 = g2.len();
    while u < l2
        invariant
            u <= l2,
            l2 == g2@.len(),
            ord1 == old(g1)@.len(),
            ord1 + l2 <= usize::MAX,
            g1@.len() == ord1 + u,
            forall|w: int| 0 <= w < ord1 ==> g1@[w] == old(g1)@[w],
            forall|w: int|
                0 <= w < old(g1)@.len() ==> {
                    &&& eps_row_wf((#[trigger] old(g1)@[w]).eps@, old(g1)@.len() as int)
                    &&& row_wf(old(g1)@[w].arcs@, old(g1)@.len() as int)
                },
            forall|w: int|
                0 <= w < g2@.len() ==> {
                    &&& eps_row_wf((#[trigger] g2@[w]).eps@, g2@.len() as int)
                    &&& row_wf(g2@[w].arcs@, g2@.len() as int)
                },
            forall|w: int|
                ord1 <= w < g1@.len() ==> {
                    &&& eps_row_wf((#[trigger] g1@[w]).eps@, (ord1 + l2) as int)
                    &&& row_wf(g1@[w].arcs@, (ord1 + l2) as int)
                },
            forall|w: int, v: int|
                ord1 <= w < g1@.len() ==> (#[trigger] seq_has(g1@[w].eps@, v) <==> seq_has(
                    g2@[w - ord1].eps@,
                    v - ord1,
                )),
            forall|w: int, v: int, c: char|
                ord1 <= w < g1@.len() ==> (#[trigger] row_arc_sym(g1@[w].arcs@, v, c)
                    <==> row_arc_sym(g2@[w - ord1].arcs@, v - ord1, c)),
            forall|w: int, v: int|
                ord1 <= w < g1@.len() ==> (#[trigger] row_has_arc(g1@[w].arcs@, v)
                    <==> row_has_arc(g2@[w - ord1].arcs@, v - ord1)),
            ENfa::rows_size(g1@) == ENfa::rows_size(old(g1)@) + ENfa::rows_size(
                g2@.subrange(0, u as int),
            ),
        decreases l2 - u,
    {
        let mut eps: Vec<usize> = Vec::new();
        let mut k: usize = 0;
        let el = g2[u].eps.len();
        while k < el
            invariant
                k <= el,
                u < g2@.len(),
                el == g2@[u as int].eps@.len(),
                ord1 + g2@.len() <= usize::MAX,
                eps_row_wf(g2@[u as int].eps@, g2@.len() as int),
                eps@.len() == k,
                forall|j: int|
                    0 <= j < k ==> ((#[trigger] eps@[j]) as int) == g2@[u as int].eps@[j] + ord1,
            decreases el - k,
        {
            eps.push(g2[u].eps[k] + ord1);
            k += 1;
        }
        let mut arcs: Vec<CharArc> = Vec::new();
        let mut k: usize = 0;
        let al = g2[u].arcs.len();
        while k < al
            invariant
                k <= al,
                u < g2@.len(),
                al == g2@[u as int].arcs@.len(),
                ord1 + g2@.len() <= usize::MAX,
                row_wf(g2@[u as int].arcs@, g2@.len() as int),
                arcs@.len() == k,
                forall|j: int|
                    0 <= j < k ==> ((#[trigger] arcs@[j]).to as int) == g2@[u as int].arcs@[j].to
                        + ord1 && arcs@[j].syms@ == g2@[u as int].arcs@[j].syms@,
            decreases al - k,
        {
            let syms = clone_chars(&g2[u].arcs[k].syms);
            arcs.push(CharArc { to: g2[u].arcs[k].to + ord1, syms });
            k += 1;
        }
        proof {
            crate::graph::lemma_offset_ids(
                g2@[u as int].eps@,
                eps@,
                ord1 as int,
                g2@.len() as int,
            );
            crate::graph::lemma_offset_arcs(
                g2@[u as int].arcs@,
                arcs@,
                ord1 as int,
                g2@.len() as int,
            );
        }
        let ghost g1_before = g1@;
        let ghost new_eps = eps@;
        let ghost new_arcs = arcs@;
        g1.push(ENfaNode { eps, arcs });
        u += 1;
        proof {
            assert(g1@.drop_last() =~= g1_before);
            assert(g1@.last().eps@ == new_eps && g1@.last().arcs@ == new_arcs);
            let s = g2@.subrange(0, u as int);
            assert(s.drop_last() =~= g2@.subrange(0, u as int - 1));
            assert(s.last() == g2@[u as int - 1]);
            assert(ENfa::rows_size(g1@) == ENfa::rows_size(g1_before) + 1 + new_eps.len()
                + new_arcs.len());
        }
    }
    proof {
        assert(g2@.subrange(0, l2 as int) =~= g2@);
    }
}

/// The exact structure of the union of the ordered operand pair `(a, b)`:
/// `a`'s nodes keep their ids, `b`'s are offset by `a`'s node count, a new
/// start node epsilon-branches to both old starts, and both old accept sets
/// epsilon-converge on one new accept node.
pub open spec fn union_shape(a: ENfa, b: ENfa, r: ENfa) -> bool {
    let na = a.n();
    let nb = b.n();
    &&& r.n() == na + nb + 2
    &&& (r.start as int) == na + nb
    &&& r.fin@.len() == 1
    &&& (r.fin@[0] as int) == na + nb + 1
    &&& forall|u: int, v: int, c: char|
        #[trigger] r.char_edge(u, v, c) <==> a.char_edge(u, v, c) || b.char_edge(
            u - na,
            v - na,
            c,
        )
    &&& forall|u: int, v: int|
        #[trigger] r.has_arc(u, v) <==> a.has_arc(u, v) || b.has_arc(u - na, v - na)
    &&& forall|u: int, v: int|
        #[trigger] r.eps_edge(u, v) <==> {
            ||| a.eps_edge(u, v)
            ||| b.eps_edge(u - na, v - na)
            ||| (u == na + nb && v == a.start as int)
            ||| (u == na + nb && v == na + b.start as int)
            ||| (a.is_fin(u) && v == na + nb + 1)
            ||| (na <= u && b.is_fin(u - na) && v == na + nb + 1)
        }
}

/// Whether `union_nfa` re-indexes `nfa1` into `nfa2`'s id space instead of
/// the other way around: it does when `nfa1` is the smaller walk.
pub open spec fn spec_union_swapped(nfa1: ENfa, nfa2: ENfa) -> bool {
    nfa1.total_size() < nfa2.total_size()
}

/// If the first operand's start reaches one of its accepting nodes, the
/// union's start reaches the union's accepting node.
proof fn lemma_union_reach_a(a: ENfa, b: ENfa, r: ENfa)
    requires
        union_shape(a, b, r),
        a.wf(),
        exists|f: int| a.is_fin(f) && a.mixed_reaches(a.start as int, f),
    ensures
        r.mixed_reaches(r.start as int, r.fin@[0] as int),
{
    let f = choose|f: int| a.is_fin(f) && a.mixed_reaches(a.start as int, f);
    assert(0 <= f < a.n()) by {
        let k = choose|k: int| 0 <= k < a.fin@.len() && ((#[trigger] a.fin@[k]) as int) == f;
    }
    assert(forall|u: int, v: int|
        #[trigger] a.edge_rel()(u, v) ==> (|x: int| x)(u) == (|x: int| x)(v) || r.edge_rel()(
            (|x: int| x)(u),
            (|x: int| x)(v),
        ));
    lemma_reach_condense(a.edge_rel(), r.edge_rel(), |x: int| x, a.start as int, f);
    assert(r.eps_edge(r.start as int, a.start as int));
    assert(r.edge_rel()(r.start as int, a.start as int));
    lemma_reach_prepend(r.edge_rel(), r.start as int, a.start as int, f);
    assert(r.eps_edge(f, r.fin@[0] as int));
    lemma_reach_step(r.edge_rel(), r.start as int, f, r.fin@[0] as int);
}

/// If the second operand's start reaches one of its accepting nodes, the
/// union's start reaches the union's accepting node.
proof fn lemma_union_reach_b(a: ENfa, b: ENfa, r: ENfa)
    requires
        union_shape(a, b, r),
        b.wf(),
        exists|f: int| b.is_fin(f) && b.mixed_reaches(b.start as int, f),
    ensures
        r.mixed_reaches(r.start as int, r.fin@[0] as int),
{
    let na = a.n();
    let f = choose|f: int| b.is_fin(f) && b.mixed_reaches(b.start as int, f);
    assert(0 <= f < b.n()) by {
        let k = choose|k: int| 0 <= k < b.fin@.len() && ((#[trigger] b.fin@[k]) as int) == f;
    }
    let emb = |x: int| x + na;
    assert forall|u: int, v: int| #[trigger] b.edge_rel()(u, v) implies emb(u) == emb(v)
        || r.edge_rel()(emb(u), emb(v)) by {
        if b.eps_edge(u, v) {
            assert(r.eps_edge(u + na, v + na));
        } else {
            assert(b.has_arc(u, v));
            assert(r.has_arc(u + na, v + na));
        }
    }
    lemma_reach_condense(b.edge_rel(), r.edge_rel(), emb, b.start as int, f);
    assert(r.eps_edge(r.start as int, na + b.start as int));
    lemma_reach_prepend(r.edge_rel(), r.start as int, na + b.start as int, f + na);
    assert(r.eps_edge(f + na, r.fin@[0] as int));
    lemma_reach_step(r.edge_rel(), r.start as int, f + na, r.fin@[0] as int);
}

/// Merges two ε-NFAs into their union: a new start node epsilon-branches to
/// both original starts and both original accept sets epsilon-converge on a
/// single new accept node. The smaller operand is re-indexed into the
/// larger one's id space.
pub fn union_nfa(nfa1: ENfa, nfa2: ENfa) -> (r: ENfa)
    requires
        nfa1.wf(),
        nfa2.wf(),
        nfa1.total_size() + nfa2.total_size() + nfa1.fin@.len() + nfa2.fin@.len() + 6
            <= usize::MAX,
    ensures
        r.wf(),
        r.fin@.len() == 1,
        spec_union_swapped(nfa1, nfa2) ==> union_shape(nfa2, nfa1, r),
        !spec_union_swapped(nfa1, nfa2) ==> union_shape(nfa1, nfa2, r),
        r.total_size() <= nfa1.total_size() + nfa2.total_size() + 4 + nfa1.fin@.len()
            + nfa2.fin@.len(),
        (exists|f: int| nfa1.is_fin(f) && nfa1.mixed_reaches(nfa1.start as int, f))
            ==> r.mixed_reaches(r.start as int, r.fin@[0] as int),
        (exists|f: int| nfa2.is_fin(f) && nfa2.mixed_reaches(nfa2.start as int, f))
            ==> r.mixed_reaches(r.start as int, r.fin@[0] as int),
{
    proof {
        ENfa::lemma_rows_size_nonneg(nfa1.nodes@);
        ENfa::lemma_rows_size_nonneg(nfa2.nodes@);
    }
    let effort_now = nfa2.size();
    let effort_after = nfa1.size();
    let swapped = effort_after < effort_now;
    let (mut a, b) = if swapped {
        (nfa2, nfa1)
    } else {
        (nfa1, nfa2)
    };
    let ghost a0 = a;
    let ghost b0 = b;
    let ord1 = a.nodes.len();
    let ghost na = a.n();
    let ghost nb = b.n();
    merge_graphmaps(&mut a.nodes, &b.nodes);
    let start_node = a.nodes.len();
    a.push_empty_node();
    let fin_node = a.nodes.len();
    a.push_empty_node();
    proof {
        assert(a.wf());
        assert forall|u: int, v: int, c: char|
            #[trigger] a.char_edge(u, v, c) <==> a0.char_edge(u, v, c) || b0.char_edge(
                u - na,
                v - na,
                c,
            )
        by {}
        assert forall|u: int, v: int|
            #[trigger] a.has_arc(u, v) <==> a0.has_arc(u, v) || b0.has_arc(u - na, v - na)
        by {}
        assert forall|u: int, v: int|
            #[trigger] a.eps_edge(u, v) <==> a0.eps_edge(u, v) || b0.eps_edge(u - na, v - na)
        by {}
    }
    let ghost merged = a;
    let start1 = a.start;
    let start2 = b.start;
    a.add_edge(start_node, start1, ENfaEdge::Epsilon);
    a.add_edge(start_node, start2 + ord1, ENfaEdge::Epsilon);
    let ghost with_starts = a;
    let fa = clone_ids(&a.fin);
    let mut k: usize = 0;
    let fl = fa.len();
    while k < fl
        invariant
            k <= fl,
            fl == fa@.len(),
            fa@ == a0.fin@,
            a.wf(),
            a.n() == with_starts.n(),
            a.start == with_starts.start,
            a.fin@ == with_starts.fin@,
            a0.wf(),
            na == a0.n(),
            nb == b0.n(),
            forall|j: int| 0 <= j < fa@.len() ==> ((#[trigger] fa@[j]) as int) < na,
            na + nb + 2 == a.n(),
            fin_node as int == na + nb + 1,
            a.total_size() <= with_starts.total_size() + k,
            forall|u: int, v: int, c: char|
                #[trigger] a.char_edge(u, v, c) <==> with_starts.char_edge(u, v, c),
            forall|u: int, v: int| #[trigger] a.has_arc(u, v) <==> with_starts.has_arc(u, v),
            forall|u: int, v: int|
                #[trigger] a.eps_edge(u, v) <==> with_starts.eps_edge(u, v) || (seq_has(
                    fa@.subrange(0, k as int),
                    u,
                ) && v == fin_node as int),
        decreases fl - k,
    {
        a.add_edge(fa[k], fin_node, ENfaEdge::Epsilon);
        k += 1;
        proof {
            assert forall|u: int, v: int|
                #[trigger] a.eps_edge(u, v) <==> with_starts.eps_edge(u, v) || (seq_has(
                    fa@.subrange(0, k as int),
                    u,
                ) && v == fin_node as int)
            by {
                let s1 = fa@.subrange(0, k as int - 1);
                let s2 = fa@.subrange(0, k as int);
                assert(s2 =~= s1.push(fa@[k as int - 1]));
                if seq_has(s2, u) {
                    let j = choose|j: int| 0 <= j < s2.len() && ((#[trigger] s2[j]) as int) == u;
                    if j < s1.len() {
                        assert(seq_has(s1, u));
                    }
                }
                if seq_has(s1, u) {
                    let j = choose|j: int| 0 <= j < s1.len() && ((#[trigger] s1[j]) as int) == u;
                    assert((s2[j] as int) == u);
                    assert(seq_has(s2, u));
                }
                if u == fa@[k as int - 1] as int {
                    assert((s2[k as int - 1] as int) == u);
                    assert(seq_has(s2, u));
                }
            }
        }
    }
    let ghost with_afins = a;
    let mut k: usize = 0;
    let fbl = b.fin.len();
    while k < fbl
        invariant
            k <= fbl,
            fbl == b.fin@.len(),
            b == b0,
            a.wf(),
            a.n() == with_afins.n(),
            a.start == with_afins.start,
            a.fin@ == with_afins.fin@,
            b0.wf(),
            na == a0.n(),
            nb == b0.n(),
            ord1 as int == na,
            na + nb + 2 == a.n(),
            fin_node as int == na + nb + 1,
            a.total_size() <= with_afins.total_size() + k,
            forall|u: int, v: int, c: char|
                #[trigger] a.char_edge(u, v, c) <==> with_afins.char_edge(u, v, c),
            forall|u: int, v: int| #[trigger] a.has_arc(u, v) <==> with_afins.has_arc(u, v),
            forall|u: int, v: int|
                #[trigger] a.eps_edge(u, v) <==> with_afins.eps_edge(u, v) || (seq_has(
                    b0.fin@.subrange(0, k as int),
                    u - na,
                ) && v == fin_node as int),
        decreases fbl - k,
    {
        a.add_edge(b.fin[k] + ord1, fin_node, ENfaEdge::Epsilon);
        k += 1;
        proof {
            assert forall|u: int, v: int|
                #[trigger] a.eps_edge(u, v) <==> with_afins.eps_edge(u, v) || (seq_has(
                    b0.fin@.subrange(0, k as int),
                    u - na,
                ) && v == fin_node as int)
            by {
                let s1 = b0.fin@.subrange(0, k as int - 1);
                let s2 = b0.fin@.subrange(0, k as int);
                assert(s2 =~= s1.push(b0.fin@[k as int - 1]));
                if seq_has(s2, u - na) {
                    let j = choose|j: int| 0 <= j < s2.len() && ((#[trigger] s2[j]) as int) == u - na;
                    if j < s1.len() {
                        assert(seq_has(s1, u - na));
                    }
                }
                if seq_has(s1, u - na) {
                    let j = choose|j: int| 0 <= j < s1.len() && ((#[trigger] s1[j]) as int) == u - na;
                    assert((s2[j] as int) == u - na);
                    assert(seq_has(s2, u - na));
                }
                if u - na == b0.fin@[k as int - 1] as int {
                    assert((s2[k as int - 1] as int) == u - na);
                    assert(seq_has(s2, u - na));
                }
            }
        }
    }
    let ghost al = a;
    a.start = start_node;
    let mut new_fin: Vec<usize> = Vec::new();
    new_fin.push(fin_node);
    a.fin = new_fin;
    proof {
        assert(a.nodes@ == al.nodes@);
        assert(forall|u: int, v: int| #[trigger] a.eps_edge(u, v) <==> al.eps_edge(u, v));
        assert(forall|u: int, v: int, c: char|
            #[trigger] a.char_edge(u, v, c) <==> al.char_edge(u, v, c));
        assert(forall|u: int, v: int| #[trigger] a.has_arc(u, v) <==> al.has_arc(u, v));
        assert(fa@.subrange(0, fa@.len() as int) =~= a0.fin@);
        assert(b0.fin@.subrange(0, b0.fin@.len() as int) =~= b0.fin@);
        assert forall|u: int, v: int|
            #[trigger] a.eps_edge(u, v) <==> {
                ||| a0.eps_edge(u, v)
                ||| b0.eps_edge(u - na, v - na)
                ||| (u == na + nb && v == a0.start as int)
                ||| (u == na + nb && v == na + b0.start as int)
                ||| (a0.is_fin(u) && v == na + nb + 1)
                ||| (na <= u && b0.is_fin(u - na) && v == na + nb + 1)
            }
        by {
            if a.eps_edge(u, v) {
                assert(al.eps_edge(u, v));
                if !with_afins.eps_edge(u, v) {
                    assert(seq_has(b0.fin@, u - na) && v == fin_node as int);
                    let j = choose|j: int|
                        0 <= j < b0.fin@.len() && ((#[trigger] b0.fin@[j]) as int) == u - na;
                    assert(na <= u);
                }
            }
            if na <= u && b0.is_fin(u - na) && v == na + nb + 1 {
                assert(seq_has(b0.fin@, u - na));
            }
            if a0.is_fin(u) && v == na + nb + 1 {
                assert(seq_has(a0.fin@, u));
            }
        }
        assert(union_shape(a0, b0, a));
        if exists|f: int| a0.is_fin(f) && a0.mixed_reaches(a0.start as int, f) {
            lemma_union_reach_a(a0, b0, a);
        }
        if exists|f: int| b0.is_fin(f) && b0.mixed_reaches(b0.start as int, f) {
            lemma_union_reach_b(a0, b0, a);
        }
    }
    a
}

/// The exact structure of the concatenation when the right operand is
/// appended into the left one's id space: the result keeps `a`'s start,
/// takes `b`'s accept set offset by `a`'s node count, and every accept node
/// of `a` gains an epsilon edge to `b`'s offset start.
pub open spec fn concat_shape_unswapped(a: ENfa, b: ENfa, r: ENfa) -> bool {
    let na = a.n();
    &&& r.n() == na + b.n()
    &&& r.start == a.start
    &&& r.fin@.len() == b.fin@.len()
    &&& forall|k: int|
        0 <= k < b.fin@.len() ==> ((#[trigger] r.fin@[k]) as int) == b.fin@[k] + na
    &&& forall|u: int, v: int, c: char|
        #[trigger] r.char_edge(u, v, c) <==> a.char_edge(u, v, c) || b.char_edge(
            u - na,
            v - na,
            c,
        )
    &&& forall|u: int, v: int|
        #[trigger] r.has_arc(u, v) <==> a.has_arc(u, v) || b.has_arc(u - na, v - na)
    &&& forall|u: int, v: int|
        #[trigger] r.eps_edge(u, v) <==> {
            ||| a.eps_edge(u, v)
            ||| b.eps_edge(u - na, v - na)
            ||| (a.is_fin(u) && v == na + b.start as int)
        }
}

/// The exact structure of the concatenation when the left operand is
/// appended into the right one's id space instead.
pub open spec fn concat_shape_swapped(a: ENfa, b: ENfa, r: ENfa) -> bool {
    let nb = b.n();
    &&& r.n() == nb + a.n()
    &&& (r.start as int) == nb + a.start as int
    &&& r.fin@ == b.fin@
    &&& forall|u: int, v: int, c: char|
        #[trigger] r.char_edge(u, v, c) <==> b.char_edge(u, v, c) || a.char_edge(
            u - nb,
            v - nb,
            c,
        )
    &&& forall|u: int, v: int|
        #[trigger] r.has_arc(u, v) <==> b.has_arc(u, v) || a.has_arc(u - nb, v - nb)
    &&& forall|u: int, v: int|
        #[trigger] r.eps_edge(u, v) <==> {
            ||| b.eps_edge(u, v)
            ||| a.eps_edge(u - nb, v - nb)
            ||| (nb <= u && a.is_fin(u - nb) && v == b.start as int)
        }
}

/// Whether `concat_nfa` re-indexes its left operand into the right one's id
/// space: it does when that is the smaller walk.
pub open spec fn spec_concat_swapped(nfa1: ENfa, nfa2: ENfa) -> bool {
    nfa1.total_size() + nfa1.fin@.len() < nfa2.total_size() + nfa1.fin@.len()
        + nfa2.fin@.len()
}

/// Concatenates two ε-NFAs: every accept node of the left operand gains an
/// epsilon edge to the right operand's start; the result starts at the left
/// start and accepts at the right accept set. The smaller operand is
/// re-indexed into the larger one's id space.
pub fn concat_nfa(nfa1: ENfa, nfa2: ENfa) -> (r: ENfa)
    requires
        nfa1.wf(),
        nfa2.wf(),
        nfa1.total_size() + nfa2.total_size() + nfa1.fin@.len() + nfa2.fin@.len() + 6
            <= usize::MAX,
    ensures
        r.wf(),
        r.fin@.len() == nfa2.fin@.len(),
        spec_concat_swapped(nfa1, nfa2) ==> concat_shape_swapped(nfa1, nfa2, r),
        !spec_concat_swapped(nfa1, nfa2) ==> concat_shape_unswapped(nfa1, nfa2, r),
        r.total_size() <= nfa1.total_size() + nfa2.total_size() + nfa1.fin@.len(),
        ((exists|f: int| nfa1.is_fin(f) && nfa1.mixed_reaches(nfa1.start as int, f)) && (
        exists|f: int| nfa2.is_fin(f) && nfa2.mixed_reaches(nfa2.start as int, f))) ==> (
        exists|f: int| r.is_fin(f) && r.mixed_reaches(r.start as int, f)),
{
    proof {
        ENfa::lemma_rows_size_nonneg(nfa1.nodes@);
        ENfa::lemma_rows_size_nonneg(nfa2.nodes@);
    }
    let effort_now = nfa2.size() + nfa1.fin.len() + nfa2.fin.len();
    let effort_after = nfa1.size() + nfa1.fin.len();
    let swapped = effort_after < effort_now;
    let ghost a0 = nfa1;
    let ghost b0 = nfa2;
    if swapped {
        let nfa1_fin = nfa1.fin;
        let g1 = nfa1.nodes;
        let ghost start1 = nfa1.start;
        let mut b = nfa2;
        let ord2 = b.nodes.len();
        let ghost nb = b.n();
        let ghost na = g1@.len() as int;
        merge_graphmaps(&mut b.nodes, &g1);
        proof {
            assert(b.wf());
            assert forall|u: int, v: int, c: char|
                #[trigger] b.char_edge(u, v, c) <==> b0.char_edge(u, v, c) || a0.char_edge(
                    u - nb,
                    v - nb,
                    c,
                )
            by {}
            assert forall|u: int, v: int|
                #[trigger] b.has_arc(u, v) <==> b0.has_arc(u, v) || a0.has_arc(u - nb, v - nb)
            by {}
            assert forall|u: int, v: int|
                #[trigger] b.eps_edge(u, v) <==> b0.eps_edge(u, v) || a0.eps_edge(u - nb, v - nb)
            by {}
        }
        let ghost merged = b;
        let b_start = b.start;
        let mut k: usize = 0;
        let fl = nfa1_fin.len();
        while k < fl
            invariant
                k <= fl,
                fl == nfa1_fin@.len(),
                nfa1_fin@ == a0.fin@,
                b.wf(),
                b.n() == merged.n(),
                b.start == merged.start,
                b.fin@ == merged.fin@,
                b_start == merged.start,
                a0.wf(),
                na == a0.n(),
                nb == b0.n(),
                na + nb <= usize::MAX,
                ord2 as int == nb,
                forall|j: int| 0 <= j < nfa1_fin@.len() ==> ((#[trigger] nfa1_fin@[j]) as int) < na,
                na + nb == b.n(),
                b.total_size() <= merged.total_size() + k,
                forall|u: int, v: int, c: char|
                    #[trigger] b.char_edge(u, v, c) <==> merged.char_edge(u, v, c),
                forall|u: int, v: int| #[trigger] b.has_arc(u, v) <==> merged.has_arc(u, v),
                forall|u: int, v: int|
                    #[trigger] b.eps_edge(u, v) <==> merged.eps_edge(u, v) || (seq_has(
                        nfa1_fin@.subrange(0, k as int),
                        u - nb,
                    ) && v == b_start as int),
            decreases fl - k,
        {
            b.add_edge(nfa1_fin[k] + ord2, b_start, ENfaEdge::Epsilon);
            k += 1;
            proof {
                assert forall|u: int, v: int|
                    #[trigger] b.eps_edge(u, v) <==> merged.eps_edge(u, v) || (seq_has(
                        nfa1_fin@.subrange(0, k as int),
                        u - nb,
                    ) && v == b_start as int)
                by {
                    let s1 = nfa1_fin@.subrange(0, k as int - 1);
                    let s2 = nfa1_fin@.subrange(0, k as int);
                    assert(s2 =~= s1.push(nfa1_fin@[k as int - 1]));
                    if seq_has(s2, u - nb) {
                        let j = choose|j: int|
                            0 <= j < s2.len() && ((#[trigger] s2[j]) as int) == u - nb;
                        if j < s1.len() {
                            assert(seq_has(s1, u - nb));
                        }
                    }
                    if seq_has(s1, u - nb) {
                        let j = choose|j: int|
                            0 <= j < s1.len() && ((#[trigger] s1[j]) as int) == u - nb;
                        assert((s2[j] as int) == u - nb);
                        assert(seq_has(s2, u - nb));
                    }
                    if u - nb == nfa1_fin@[k as int - 1] as int {
                        assert((s2[k as int - 1] as int) == u - nb);
                        assert(seq_has(s2, u - nb));
                    }
                }
            }
        }
        let ghost bl = b;
        let new_start = nfa1.start + ord2;
        b.start = new_start;
        let r = b;
        proof {
            assert(r.nodes@ == bl.nodes@);
            assert(forall|u: int, v: int| #[trigger] r.eps_edge(u, v) <==> bl.eps_edge(u, v));
            assert(forall|u: int, v: int, c: char|
                #[trigger] r.char_edge(u, v, c) <==> bl.char_edge(u, v, c));
            assert(forall|u: int, v: int| #[trigger] r.has_arc(u, v) <==> bl.has_arc(u, v));
            assert(nfa1_fin@.subrange(0, fl as int) =~= a0.fin@);
            assert forall|u: int, v: int|
                #[trigger] r.eps_edge(u, v) <==> {
                    ||| b0.eps_edge(u, v)
                    ||| a0.eps_edge(u - nb, v - nb)
                    ||| (nb <= u && a0.is_fin(u - nb) && v == b0.start as int)
                }
            by {
                if r.eps_edge(u, v) {
                    assert(bl.eps_edge(u, v));
                    if !merged.eps_edge(u, v) {
                        assert(seq_has(a0.fin@, u - nb) && v == b_start as int);
                        let j = choose|j: int|
                            0 <= j < a0.fin@.len() && ((#[trigger] a0.fin@[j]) as int) == u - nb;
                        assert(nb <= u);
                    }
                }
                if nb <= u && a0.is_fin(u - nb) && v == b0.start as int {
                    assert(seq_has(a0.fin@, u - nb));
                }
            }
            assert(concat_shape_swapped(a0, b0, r));
            if ((exists|f: int| a0.is_fin(f) && a0.mixed_reaches(a0.start as int, f)) && (
            exists|f: int| b0.is_fin(f) && b0.mixed_reaches(b0.start as int, f))) {
                lemma_concat_reach_swapped(a0, b0, r);
            }
        }
        r
    } else {
        let mut a = nfa1;
        let ord1 = a.nodes.len();
        let ghost na = a.n();
        let ghost nb = nfa2.n();
        merge_graphmaps(&mut a.nodes, &nfa2.nodes);
        proof {
            assert(a.wf());
            assert forall|u: int, v: int, c: char|
                #[trigger] a.char_edge(u, v, c) <==> a0.char_edge(u, v, c) || b0.char_edge(
                    u - na,
                    v - na,
                    c,
                )
            by {}
            assert forall|u: int, v: int|
                #[trigger] a.has_arc(u, v) <==> a0.has_arc(u, v) || b0.has_arc(u - na, v - na)
            by {}
            assert forall|u: int, v: int|
                #[trigger] a.eps_edge(u, v) <==> a0.eps_edge(u, v) || b0.eps_edge(u - na, v - na)
            by {}
        }
        let ghost merged = a;
        let tgt = nfa2.start + ord1;
        let fa = clone_ids(&a.fin);
        let mut k: usize = 0;
        let fl = fa.len();
        while k < fl
            invariant
                k <= fl,
                fl == fa@.len(),
                fa@ == a0.fin@,
                a.wf(),
                a.n() == merged.n(),
                a.start == merged.start,
                a.fin@ == merged.fin@,
                a0.wf(),
                na == a0.n(),
                nb == b0.n(),
                b0.wf(),
                na + nb <= usize::MAX,
                tgt as int == na + b0.start as int,
                forall|j: int| 0 <= j < fa@.len() ==> ((#[trigger] fa@[j]) as int) < na,
                na + nb == a.n(),
                a.total_size() <= merged.total_size() + k,
                forall|u: int, v: int, c: char|
                    #[trigger] a.char_edge(u, v, c) <==> merged.char_edge(u, v, c),
                forall|u: int, v: int| #[trigger] a.has_arc(u, v) <==> merged.has_arc(u, v),
                forall|u: int, v: int|
                    #[trigger] a.eps_edge(u, v) <==> merged.eps_edge(u, v) || (seq_has(
                        fa@.subrange(0, k as int),
                        u,
                    ) && v == tgt as int),
            decreases fl - k,
        {
            a.add_edge(fa[k], tgt, ENfaEdge::Epsilon);
            k += 1;
            proof {
                assert forall|u: int, v: int|
                    #[trigger] a.eps_edge(u, v) <==> merged.eps_edge(u, v) || (seq_has(
                        fa@.subrange(0, k as int),
                        u,
                    ) && v == tgt as int)
                by {
                    let s1 = fa@.subrange(0, k as int - 1);
                    let s2 = fa@.subrange(0, k as int);
                    assert(s2 =~= s1.push(fa@[k as int - 1]));
                    if seq_has(s2, u) {
                        let j = choose|j: int|
                            0 <= j < s2.len() && ((#[trigger] s2[j]) as int) == u;
                        if j < s1.len() {
                            assert(seq_has(s1, u));
                        }
                    }
                    if seq_has(s1, u) {
                        let j = choose|j: int|
                            0 <= j < s1.len() && ((#[trigger] s1[j]) as int) == u;
                        assert((s2[j] as int) == u);
                        assert(seq_has(s2, u));
                    }
                    if u == fa@[k as int - 1] as int {
                        assert((s2[k as int - 1] as int) == u);
                        assert(seq_has(s2, u));
                    }
                }
            }
        }
        let ghost al = a;
        let mut new_fin: Vec<usize> = Vec::new();
        let mut k: usize = 0;
        let f2l = nfa2.fin.len();
        while k < f2l
            invariant
                k <= f2l,
                f2l == nfa2.fin@.len(),
                nfa2.fin@ == b0.fin@,
                nb == b0.n(),
                ord1 as int == na,
                na + nb <= usize::MAX,
                forall|j: int| 0 <= j < nfa2.fin@.len() ==> ((#[trigger] nfa2.fin@[j]) as int) < nb,
                new_fin@.len() == k,
                forall|j: int|
                    0 <= j < k ==> ((#[trigger] new_fin@[j]) as int) == b0.fin@[j] + na,
            decreases f2l - k,
        {
            new_fin.push(nfa2.fin[k] + ord1);
            k += 1;
        }
        a.fin = new_fin;
        let r = a;
        proof {
            assert(r.nodes@ == al.nodes@);
            assert(forall|u: int, v: int| #[trigger] r.eps_edge(u, v) <==> al.eps_edge(u, v));
            assert(forall|u: int, v: int, c: char|
                #[trigger] r.char_edge(u, v, c) <==> al.char_edge(u, v, c));
            assert(forall|u: int, v: int| #[trigger] r.has_arc(u, v) <==> al.has_arc(u, v));
            assert(fa@.subrange(0, fl as int) =~= a0.fin@);
            assert forall|u: int, v: int|
                #[trigger] r.eps_edge(u, v) <==> {
                    ||| a0.eps_edge(u, v)
                    ||| b0.eps_edge(u - na, v - na)
                    ||| (a0.is_fin(u) && v == na + b0.start as int)
                }
            by {
                if a0.is_fin(u) && v == na + b0.start as int {
                    assert(seq_has(a0.fin@, u));
                }
            }
            assert(r.wf()) by {
                assert forall|j: int| 0 <= j < r.fin@.len() implies ((#[trigger] r.fin@[j]) as int)
                    < r.n() by {
                    assert((b0.fin@[j] as int) < nb);
                }
            }
            assert(concat_shape_unswapped(a0, b0, r));
            if ((exists|f: int| a0.is_fin(f) && a0.mixed_reaches(a0.start as int, f)) && (
            exists|f: int| b0.is_fin(f) && b0.mixed_reaches(b0.start as int, f))) {
                lemma_concat_reach_unswapped(a0, b0, r);
            }
        }
        r
    }
}

/// Reaching an accept node survives concatenation (right-into-left form).
proof fn lemma_concat_reach_unswapped(a: ENfa, b: ENfa, r: ENfa)
    requires
        concat_shape_unswapped(a, b, r),
        a.wf(),
        b.wf(),
        exists|f: int| a.is_fin(f) && a.mixed_reaches(a.start as int, f),
        exists|f: int| b.is_fin(f) && b.mixed_reaches(b.start as int, f),
    ensures
        exists|f: int| r.is_fin(f) && r.mixed_reaches(r.start as int, f),
{
    let na = a.n();
    let fa = choose|f: int| a.is_fin(f) && a.mixed_reaches(a.start as int, f);
    let fb = choose|f: int| b.is_fin(f) && b.mixed_reaches(b.start as int, f);
    assert(0 <= fa < na) by {
        let k = choose|k: int| 0 <= k < a.fin@.len() && ((#[trigger] a.fin@[k]) as int) == fa;
    }
    let kb = choose|k: int| 0 <= k < b.fin@.len() && ((#[trigger] b.fin@[k]) as int) == fb;
    assert forall|u: int, v: int| #[trigger] a.edge_rel()(u, v) implies (|x: int| x)(u) == (
    |x: int| x)(v) || r.edge_rel()((|x: int| x)(u), (|x: int| x)(v)) by {}
    lemma_reach_condense(a.edge_rel(), r.edge_rel(), |x: int| x, a.start as int, fa);
    let emb = |x: int| x + na;
    assert forall|u: int, v: int| #[trigger] b.edge_rel()(u, v) implies emb(u) == emb(v)
        || r.edge_rel()(emb(u), emb(v)) by {
        if b.eps_edge(u, v) {
            assert(r.eps_edge(u + na, v + na));
        } else {
            assert(b.has_arc(u, v));
            assert(r.has_arc(u + na, v + na));
        }
    }
    lemma_reach_condense(b.edge_rel(), r.edge_rel(), emb, b.start as int, fb);
    assert(r.eps_edge(fa, na + b.start as int));
    crate::reach::lemma_reach_step(r.edge_rel(), r.start as int, fa, na + b.start as int);
    crate::reach::lemma_reach_trans(
        r.edge_rel(),
        r.start as int,
        na + b.start as int,
        fb + na,
    );
    assert(((#[trigger] r.fin@[kb]) as int) == fb + na);
    assert(r.is_fin(fb + na));
}

/// Reaching an accept node survives concatenation (left-into-right form).
proof fn lemma_concat_reach_swapped(a: ENfa, b: ENfa, r: ENfa)
    requires
        concat_shape_swapped(a, b, r),
        a.wf(),
        b.wf(),
        exists|f: int| a.is_fin(f) && a.mixed_reaches(a.start as int, f),
        exists|f: int| b.is_fin(f) && b.mixed_reaches(b.start as int, f),
    ensures
        exists|f: int| r.is_fin(f) && r.mixed_reaches(r.start as int, f),
{
    let nb = b.n();
    let fa = choose|f: int| a.is_fin(f) && a.mixed_reaches(a.start as int, f);
    let fb = choose|f: int| b.is_fin(f) && b.mixed_reaches(b.start as int, f);
    assert(0 <= fa < a.n()) by {
        let k = choose|k: int| 0 <= k < a.fin@.len() && ((#[trigger] a.fin@[k]) as int) == fa;
    }
    let kb = choose|k: int| 0 <= k < b.fin@.len() && ((#[trigger] b.fin@[k]) as int) == fb;
    let emb = |x: int| x + nb;
    assert forall|u: int, v: int| #[trigger] a.edge_rel()(u, v) implies emb(u) == emb(v)
        || r.edge_rel()(emb(u), emb(v)) by {
        if a.eps_edge(u, v) {
            assert(r.eps_edge(u + nb, v + nb));
        } else {
            assert(a.has_arc(u, v));
            assert(r.has_arc(u + nb, v + nb));
        }
    }
    lemma_reach_condense(a.edge_rel(), r.edge_rel(), emb, a.start as int, fa);
    assert forall|u: int, v: int| #[trigger] b.edge_rel()(u, v) implies (|x: int| x)(u) == (
    |x: int| x)(v) || r.edge_rel()((|x: int| x)(u), (|x: int| x)(v)) by {}
    lemma_reach_condense(b.edge_rel(), r.edge_rel(), |x: int| x, b.start as int, fb);
    assert(r.eps_edge(fa + nb, b.start as int));
    crate::reach::lemma_reach_step(r.edge_rel(), r.start as int, fa + nb, b.start as int);
    crate::reach::lemma_reach_trans(r.edge_rel(), r.start as int, b.start as int, fb);
    assert(((#[trigger] r.fin@[kb]) as int) == fb);
    assert(r.is_fin(fb));
}

/// The exact structure of the Kleene star applied in place: two fresh
/// nodes; the new start epsilon-branches to the old start and to the new
/// accept node, and every old accept node epsilon-branches back to the old
/// start and forward to the new accept node.
pub open spec fn star_shape(o: ENfa, r: ENfa) -> bool {
    let n0 = o.n();
    &&& r.n() == n0 + 2
    &&& (r.start as int) == n0
    &&& r.fin@.len() == 1
    &&& (r.fin@[0] as int) == n0 + 1
    &&& forall|u: int, v: int, c: char|
        #[trigger] r.char_edge(u, v, c) <==> o.char_edge(u, v, c)
    &&& forall|u: int, v: int| #[trigger] r.has_arc(u, v) <==> o.has_arc(u, v)
    &&& forall|u: int, v: int|
        #[trigger] r.eps_edge(u, v) <==> {
            ||| o.eps_edge(u, v)
            ||| (u == n0 && v == o.start as int)
            ||| (u == n0 && v == n0 + 1)
            ||| (o.is_fin(u) && v == o.start as int)
            ||| (o.is_fin(u) && v == n0 + 1)
        }
}

/// Wraps an ε-NFA in place with the Kleene star construction.
pub fn star_nfa(nfa: &mut ENfa)
    requires
        old(nfa).wf(),
        old(nfa).total_size() + 2 * old(nfa).fin@.len() + 4 <= usize::MAX,
    ensures
        final(nfa).wf(),
        final(nfa).fin@.len() == 1,
        star_shape(*old(nfa), *final(nfa)),
        final(nfa).total_size() <= old(nfa).total_size() + 4 + 2 * old(nfa).fin@.len(),
        final(nfa).mixed_reaches(final(nfa).start as int, final(nfa).fin@[0] as int),
{
    let ghost o = *old(nfa);
    let start_node = nfa.nodes.len();
    nfa.push_empty_node();
    let fin_node = nfa.nodes.len();
    nfa.push_empty_node();
    let old_start = nfa.start;
    nfa.add_edge(start_node, old_start, ENfaEdge::Epsilon);
    nfa.add_edge(start_node, fin_node, ENfaEdge::Epsilon);
    let ghost with_starts = *nfa;
    let fa = clone_ids(&nfa.fin);
    let mut k: usize = 0;
    let fl = fa.len();
    while k < fl
        invariant
            k <= fl,
            fl == fa@.len(),
            fa@ == o.fin@,
            nfa.wf(),
            nfa.n() == with_starts.n(),
            nfa.start == with_starts.start,
            nfa.fin@ == with_starts.fin@,
            o.wf(),
            old_start == o.start,
            forall|j: int| 0 <= j < fa@.len() ==> ((#[trigger] fa@[j]) as int) < o.n(),
            o.n() + 2 == nfa.n(),
            start_node as int == o.n(),
            fin_node as int == o.n() + 1,
            nfa.total_size() <= with_starts.total_size() + 2 * k,
            forall|u: int, v: int, c: char|
                #[trigger] nfa.char_edge(u, v, c) <==> with_starts.char_edge(u, v, c),
            forall|u: int, v: int| #[trigger] nfa.has_arc(u, v) <==> with_starts.has_arc(u, v),
            forall|u: int, v: int|
                #[trigger] nfa.eps_edge(u, v) <==> with_starts.eps_edge(u, v) || (seq_has(
                    fa@.subrange(0, k as int),
                    u,
                ) && (v == o.start as int || v == fin_node as int)),
        decreases fl - k,
    {
        nfa.add_edge(fa[k], old_start, ENfaEdge::Epsilon);
        nfa.add_edge(fa[k], fin_node, ENfaEdge::Epsilon);
        k += 1;
        proof {
            assert forall|u: int, v: int|
                #[trigger] nfa.eps_edge(u, v) <==> with_starts.eps_edge(u, v) || (seq_has(
                    fa@.subrange(0, k as int),
                    u,
                ) && (v == o.start as int || v == fin_node as int))
            by {
                let s1 = fa@.subrange(0, k as int - 1);
                let s2 = fa@.subrange(0, k as int);
                assert(s2 =~= s1.push(fa@[k as int - 1]));
                if seq_has(s2, u) {
                    let j = choose|j: int| 0 <= j < s2.len() && ((#[trigger] s2[j]) as int) == u;
                    if j < s1.len() {
                        assert(seq_has(s1, u));
                    }
                }
                if seq_has(s1, u) {
                    let j = choose|j: int| 0 <= j < s1.len() && ((#[trigger] s1[j]) as int) == u;
                    assert((s2[j] as int) == u);
                    assert(seq_has(s2, u));
                }
                if u == fa@[k as int - 1] as int {
                    assert((s2[k as int - 1] as int) == u);
                    assert(seq_has(s2, u));
                }
            }
        }
    }
    let ghost al = *nfa;
    nfa.start = start_node;
    let mut new_fin: Vec<usize> = Vec::new();
    new_fin.push(fin_node);
    nfa.fin = new_fin;
    proof {
        assert(nfa.nodes@ == al.nodes@);
        assert(forall|u: int, v: int| #[trigger] nfa.eps_edge(u, v) <==> al.eps_edge(u, v));
        assert(forall|u: int, v: int, c: char|
            #[trigger] nfa.char_edge(u, v, c) <==> al.char_edge(u, v, c));
        assert(forall|u: int, v: int| #[trigger] nfa.has_arc(u, v) <==> al.has_arc(u, v));
        assert(fa@.subrange(0, fl as int) =~= o.fin@);
        assert forall|u: int, v: int|
            #[trigger] nfa.eps_edge(u, v) <==> {
                ||| o.eps_edge(u, v)
                ||| (u == o.n() && v == o.start as int)
                ||| (u == o.n() && v == o.n() + 1)
                ||| (o.is_fin(u) && v == o.start as int)
                ||| (o.is_fin(u) && v == o.n() + 1)
            }
        by {
            if o.is_fin(u) && (v == o.start as int || v == o.n() + 1) {
                assert(seq_has(o.fin@, u));
            }
        }
        assert(star_shape(o, *nfa));
        assert(nfa.eps_edge(nfa.start as int, nfa.fin@[0] as int));
        assert(nfa.edge_rel()(nfa.start as int, nfa.fin@[0] as int));
        lemma_reach_refl(nfa.edge_rel(), nfa.start as int);
        lemma_reach_step(
            nfa.edge_rel(),
            nfa.start as int,
            nfa.start as int,
            nfa.fin@[0] as int,
        );
    }
}

/// Builds the two-node automaton of a single literal character:
/// `0 --c--> 1`, start `0`, accepting `1`.
pub fn gen_char_nfa(c: char) -> (r: ENfa)
    ensures
        r.wf(),
        r.n() == 2,
        r.start == 0usize,
        r.fin@.len() == 1,
        r.fin@[0] == 1usize,
        r.total_size() == 3,
        forall|u: int, v: int| !r.eps_edge(u, v),
        forall|u: int, v: int, x: char| r.char_edge(u, v, x) <==> u == 0 && v == 1 && x == c,
        forall|u: int, v: int| r.has_arc(u, v) <==> u == 0 && v == 1,
        r.mixed_reaches(0, 1),
{
    let mut syms: Vec<char> = Vec::new();
    syms.push(c);
    let mut arcs: Vec<CharArc> = Vec::new();
    arcs.push(CharArc { to: 1, syms });
    let mut nodes: Vec<ENfaNode> = Vec::new();
    nodes.push(ENfaNode { eps: Vec::new(), arcs });
    nodes.push(ENfaNode { eps: Vec::new(), arcs: Vec::new() });
    let mut fin: Vec<usize> = Vec::new();
    fin.push(1);
    let r = ENfa { nodes, start: 0, fin };
    proof {
        assert(r.nodes@.len() == 2);
        assert(ENfa::rows_size(Seq::<ENfaNode>::empty()) == 0);
        let s1 = r.nodes@.drop_last();
        assert(s1.drop_last() =~= Seq::<ENfaNode>::empty());
        assert(ENfa::rows_size(s1) == 2);
        assert(ENfa::rows_size(r.nodes@) == 3);
        assert forall|u: int, v: int, x: char|
            r.char_edge(u, v, x) <==> u == 0 && v == 1 && x == c
        by {
            if r.char_edge(u, v, x) {
                assert(u == 0 || u == 1);
                if u == 1 {
                    assert(!row_arc_sym(r.nodes@[1].arcs@, v, x));
                } else {
                    let k = choose|k: int|
                        0 <= k < r.nodes@[0].arcs@.len() && (#[trigger] r.nodes@[0].arcs@[k]).to
                            as int == v && r.nodes@[0].arcs@[k].syms@.contains(x);
                    assert(k == 0);
                    assert(r.nodes@[0].arcs@[0].syms@ =~= seq![c]);
                }
            }
            if u == 0 && v == 1 && x == c {
                assert(r.nodes@[0].arcs@[0].to as int == 1);
                assert(r.nodes@[0].arcs@[0].syms@[0] == c);
                assert(r.nodes@[0].arcs@[0].syms@.contains(c));
                assert(row_arc_sym(r.nodes@[0].arcs@, 1, c));
            }
        }
        assert forall|u: int, v: int| r.has_arc(u, v) <==> u == 0 && v == 1 by {
            if r.has_arc(u, v) {
                if u == 1 {
                    assert(!row_has_arc(r.nodes@[1].arcs@, v));
                } else {
                    let k = choose|k: int|
                        0 <= k < r.nodes@[u].arcs@.len() && (#[trigger] r.nodes@[u].arcs@[k]).to
                            as int == v;
                    assert(k == 0);
                }
            }
            if u == 0 && v == 1 {
                assert(r.nodes@[0].arcs@[0].to as int == 1);
                assert(row_has_arc(r.nodes@[0].arcs@, 1));
            }
        }
        assert forall|u: int, v: int| !r.eps_edge(u, v) by {
            if r.eps_edge(u, v) {
                assert(r.nodes@[u].eps@.len() == 0);
            }
        }
        assert(r.edge(0, 1));
        lemma_reach_refl(r.edge_rel(), 0);
        lemma_reach_step(r.edge_rel(), 0, 0, 1);
    }
    r
}

/// The reasons the Thompson builder rejects a postfix expression.
#[derive(Clone, Copy, Debug, PartialEq, Eq, Structural)]
pub enum BuildError {
    /// The postfix expression is empty.
    EmptyExpression,
    /// A union operator found fewer than two automata on the stack.
    NotEnoughOperandsUnion,
    /// A concat operator found fewer than two automata on the stack.
    NotEnoughOperandsConcat,
    /// A star operator found no automaton on the stack.
    NotEnoughOperandsStar,
    /// More than one automaton was left on the stack at the end.
    LeftoverOperands,
}

impl BuildError {
    /// The descriptive text carried by each failure reason.
    pub open spec fn spec_message(self) -> Seq<char> {
        match self {
            BuildError::EmptyExpression => "Invalid postfix expression: empty expression"@,
            BuildError::NotEnoughOperandsUnion => "Invalid postfix expression: not enough operands for union"@,
            BuildError::NotEnoughOperandsConcat => "Invalid postfix expression: not enough operands for concat"@,
            BuildError::NotEnoughOperandsStar => "Invalid postfix expression: not enough operands for kleene star"@,
            BuildError::LeftoverOperands => "Invalid postfix expression: too few operands"@,
        }
    }

    /// Returns the descriptive text for this failure reason.
    pub fn message(&self) -> (r: &'static str)
        ensures
            r@ == self.spec_message(),
    {
        match self {
            BuildError::EmptyExpression => "Invalid postfix expression: empty expression",
            BuildError::NotEnoughOperandsUnion => "Invalid postfix expression: not enough operands for union",
            BuildError::NotEnoughOperandsConcat => "Invalid postfix expression: not enough operands for concat",
            BuildError::NotEnoughOperandsStar => "Invalid postfix expression: not enough operands for kleene star",
            BuildError::LeftoverOperands => "Invalid postfix expression: too few operands",
        }
    }
}

/// Simulates the evaluation stack depth of a postfix expression from
/// position `i` with `depth` operands already on the stack, and names the
/// first failure, if any.
pub open spec fn spec_build_outcome_from(
    expr: Seq<ExprUnit>,
    i: int,
    depth: int,
) -> Result<(), BuildError>
    decreases expr.len() - i,
{
    if i < 0 || i >= expr.len() {
        if depth == 1 {
            Ok(())
        } else {
            Err(BuildError::LeftoverOperands)
        }
    } else {
        match expr[i] {
            ExprUnit::Char(_) => spec_build_outcome_from(expr, i + 1, depth + 1),
            ExprUnit::Op(RegexOp::Union) => if depth < 2 {
                Err(BuildError::NotEnoughOperandsUnion)
            } else {
                spec_build_outcome_from(expr, i + 1, depth - 1)
            },
            ExprUnit::Op(RegexOp::Concat) => if depth < 2 {
                Err(BuildError::NotEnoughOperandsConcat)
            } else {
                spec_build_outcome_from(expr, i + 1, depth - 1)
            },
            ExprUnit::Op(RegexOp::Star) => if depth < 1 {
                Err(BuildError::NotEnoughOperandsStar)
            } else {
                spec_build_outcome_from(expr, i + 1, depth)
            },
        }
    }
}

/// Whether the Thompson builder accepts the postfix expression, and which
/// error it reports otherwise.
pub open spec fn spec_build_outcome(expr: Seq<ExprUnit>) -> Result<(), BuildError> {
    if expr.len() == 0 {
        Err(BuildError::EmptyExpression)
    } else {
        spec_build_outcome_from(expr, 0, 0)
    }
}

/// A postfix expression that evaluates to exactly one automaton.
pub open spec fn valid_postfix(expr: Seq<ExprUnit>) -> bool {
    spec_build_outcome(expr) is Ok
}

/// The total stored size of a stack of partial automata.
pub open spec fn stack_total(s: Seq<ENfa>) -> int
    decreases s.len(),
{
    if s.len() == 0 {
        0
    } else {
        stack_total(s.drop_last()) + s.last().total_size()
    }
}

proof fn lemma_stack_total_nonneg(s: Seq<ENfa>)
    ensures
        stack_total(s) >= 0,
    decreases s.len(),
{
    if s.len() > 0 {
        lemma_stack_total_nonneg(s.drop_last());
        ENfa::lemma_rows_size_nonneg(s.last().nodes@);
    }
}

/// The shape of the two-node automaton of one literal character.
pub open spec fn lit_shape(c: char, r: ENfa) -> bool {
    &&& r.n() == 2
    &&& r.start == 0usize
    &&& r.fin@.len() == 1
    &&& ((r.fin@[0]) as int) == 1
    &&& forall|u: int, v: int| !(#[trigger] r.eps_edge(u, v))
    &&& forall|u: int, v: int, x: char|
        #[trigger] r.char_edge(u, v, x) <==> u == 0 && v == 1 && x == c
    &&& forall|u: int, v: int| #[trigger] r.has_arc(u, v) <==> u == 0 && v == 1
}

/// One step of the Thompson evaluation: how the stack of partial automata
/// changes when `u` is consumed.
pub open spec fn step_rel(stk: Seq<ENfa>, u: ExprUnit, stk2: Seq<ENfa>) -> bool {
    match u {
        ExprUnit::Char(c) => {
            &&& stk2.len() == stk.len() + 1
            &&& stk2.drop_last() == stk
            &&& lit_shape(c, stk2.last())
        },
        ExprUnit::Op(RegexOp::Union) => {
            &&& stk.len() >= 2
            &&& stk2.len() == stk.len() - 1
            &&& stk2.drop_last() == stk.drop_last().drop_last()
            &&& {
                let op1 = stk.drop_last().last();
                let op2 = stk.last();
                if spec_union_swapped(op1, op2) {
                    union_shape(op2, op1, stk2.last())
                } else {
                    union_shape(op1, op2, stk2.last())
                }
            }
        },
        ExprUnit::Op(RegexOp::Concat) => {
            &&& stk.len() >= 2
            &&& stk2.len() == stk.len() - 1
            &&& stk2.drop_last() == stk.drop_last().drop_last()
            &&& {
                let op1 = stk.drop_last().last();
                let op2 = stk.last();
                if spec_concat_swapped(op1, op2) {
                    concat_shape_swapped(op1, op2, stk2.last())
                } else {
                    concat_shape_unswapped(op1, op2, stk2.last())
                }
            }
        },
        ExprUnit::Op(RegexOp::Star) => {
            &&& stk.len() >= 1
            &&& stk2.len() == stk.len()
            &&& stk2.drop_last() == stk.drop_last()
            &&& star_shape(stk.last(), stk2.last())
        },
    }
}

/// The whole Thompson evaluation of `expr`: `tr[i]` is the stack of partial
/// automata before the `i`-th element is consumed, starting empty.
pub open spec fn trace_ok(expr: Seq<ExprUnit>, tr: Seq<Seq<ENfa>>) -> bool {
    &&& tr.len() == expr.len() + 1
    &&& tr[0] == Seq::<ENfa>::empty()
    &&& forall|i: int| 0 <= i < expr.len() ==> #[trigger] step_rel(tr[i], expr[i], tr[i + 1])
}

/// Evaluates a postfix expression over a stack of partial ε-NFAs, combining
/// them with the union, concat and star merge operators, producing the
/// ε-NFA of the whole expression.
pub fn gen_epsilon_nfa_from_expr(expr: &[ExprUnit]) -> (r: Result<ENfa, BuildError>)
    requires
        6 * (expr@.len() + 1) <= usize::MAX,
    ensures
        (match r {
            Ok(nfa) => {
                &&& spec_build_outcome(expr@) is Ok
                &&& nfa.wf()
                &&& nfa.fin@.len() == 1
                &&& nfa.mixed_reaches(nfa.start as int, nfa.fin@[0] as int)
                &&& exists|tr: Seq<Seq<ENfa>>|
                    #[trigger] trace_ok(expr@, tr) && tr.last() == seq![nfa]
            },
            Err(e) => spec_build_outcome(expr@) == Err::<(), BuildError>(e),
        }),
{
    let mut graph_stk: Vec<ENfa> = Vec::new();
    let ghost mut tr: Seq<Seq<ENfa>> = seq![Seq::<ENfa>::empty()];

    if expr.len() == 0 {
        return Err(BuildError::EmptyExpression);
    }

    let mut i: usize = 0;
    let l = expr.len();
    while i < l
        invariant
            i <= l,
            l == expr@.len(),
            l >= 1,
            6 * (expr@.len() + 1) <= usize::MAX,
            spec_build_outcome_from(expr@, i as int, graph_stk@.len() as int)
                == spec_build_outcome_from(expr@, 0, 0),
            stack_total(graph_stk@) <= 6 * i,
            tr.len() == i + 1,
            trace_ok(expr@.subrange(0, i as int), tr),
            tr.last() == graph_stk@,
            forall|j: int|
                0 <= j < graph_stk@.len() ==> {
                    &&& (#[trigger] graph_stk@[j]).wf()
                    &&& graph_stk@[j].fin@.len() == 1
                    &&& graph_stk@[j].mixed_reaches(
                        graph_stk@[j].start as int,
                        graph_stk@[j].fin@[0] as int,
                    )
                },
        decreases l - i,
    {
        let ghost stk_pre = graph_stk@;
        proof {
            lemma_stack_total_nonneg(graph_stk@);
        }
        match expr[i] {
            ExprUnit::Char(c) => {
                let nfa = gen_char_nfa(c);
                graph_stk.push(nfa);
                proof {
                    assert(graph_stk@.drop_last() =~= stk_pre);
                }
            },
            ExprUnit::Op(RegexOp::Union) => {
                if graph_stk.len() < 2 {
                    return Err(BuildError::NotEnoughOperandsUnion);
                }
                proof {
                    assert(stk_pre.drop_last() =~= stk_pre.subrange(0, stk_pre.len() - 1));
                    assert(stk_pre.drop_last().drop_last() =~= stk_pre.subrange(
                        0,
                        stk_pre.len() - 2,
                    ));
                    lemma_stack_total_nonneg(stk_pre.drop_last().drop_last());
                }
                let op2 = graph_stk.pop().unwrap();
                let op1 = graph_stk.pop().unwrap();
                proof {
                    assert(graph_stk@ =~= stk_pre.drop_last().drop_last());
                    assert(op2 == stk_pre.last());
                    assert(op1 == stk_pre.drop_last().last());
                    assert(stack_total(stk_pre) == stack_total(stk_pre.drop_last())
                        + stk_pre.last().total_size());
                    assert(stack_total(stk_pre.drop_last()) == stack_total(
                        stk_pre.drop_last().drop_last(),
                    ) + stk_pre.drop_last().last().total_size());
                    assert(stack_total(graph_stk@) + op1.total_size() + op2.total_size()
                        == stack_total(stk_pre));
                    assert(op1.is_fin(op1.fin@[0] as int)) by {
                        assert(((#[trigger] op1.fin@[0]) as int) == op1.fin@[0] as int);
                    }
                    assert(op2.is_fin(op2.fin@[0] as int)) by {
                        assert(((#[trigger] op2.fin@[0]) as int) == op2.fin@[0] as int);
                    }
                }
                let merged = union_nfa(op1, op2);
                graph_stk.push(merged);
                proof {
                    assert(graph_stk@.drop_last() =~= stk_pre.drop_last().drop_last());
                }
            },
            ExprUnit::Op(RegexOp::Concat) => {
                if graph_stk.len() < 2 {
                    return Err(BuildError::NotEnoughOperandsConcat);
                }
                proof {
                    assert(stk_pre.drop_last() =~= stk_pre.subrange(0, stk_pre.len() - 1));
                    assert(stk_pre.drop_last().drop_last() =~= stk_pre.subrange(
                        0,
                        stk_pre.len() - 2,
                    ));
                    lemma_stack_total_nonneg(stk_pre.drop_last().drop_last());
                }
                let op2 = graph_stk.pop().unwrap();
                let op1 = graph_stk.pop().unwrap();
                proof {
                    assert(graph_stk@ =~= stk_pre.drop_last().drop_last());
                    assert(op2 == stk_pre.last());
                    assert(op1 == stk_pre.drop_last().last());
                    assert(stack_total(stk_pre) == stack_total(stk_pre.drop_last())
                        + stk_pre.last().total_size());
                    assert(stack_total(stk_pre.drop_last()) == stack_total(
                        stk_pre.drop_last().drop_last(),
                    ) + stk_pre.drop_last().last().total_size());
                    assert(stack_total(graph_stk@) + op1.total_size() + op2.total_size()
                        == stack_total(stk_pre));
                    assert(op1.is_fin(op1.fin@[0] as int)) by {
                        assert(((#[trigger] op1.fin@[0]) as int) == op1.fin@[0] as int);
                    }
                    assert(op2.is_fin(op2.fin@[0] as int)) by {
                        assert(((#[trigger] op2.fin@[0]) as int) == op2.fin@[0] as int);
                    }
                }
                let merged = concat_nfa(op1, op2);
                graph_stk.push(merged);
                proof {
                    assert(graph_stk@.drop_last() =~= stk_pre.drop_last().drop_last());
                    let f = choose|f: int|
                        merged.is_fin(f) && merged.mixed_reaches(merged.start as int, f);
                    let k = choose|k: int|
                        0 <= k < merged.fin@.len() && ((#[trigger] merged.fin@[k]) as int) == f;
                    assert(k == 0);
                }
            },
            ExprUnit::Op(RegexOp::Star) => {
                if graph_stk.len() < 1 {
                    return Err(BuildError::NotEnoughOperandsStar);
                }
                proof {
                    assert(stk_pre.drop_last() =~= stk_pre.subrange(0, stk_pre.len() - 1));
                    lemma_stack_total_nonneg(stk_pre.drop_last());
                }
                let mut op1 = graph_stk.pop().unwrap();
                proof {
                    assert(graph_stk@ =~= stk_pre.drop_last());
                    assert(stack_total(graph_stk@) + op1.total_size() == stack_total(stk_pre));
                }
                star_nfa(&mut op1);
                graph_stk.push(op1);
                proof {
                    assert(graph_stk@.drop_last() =~= stk_pre.drop_last());
                }
            },
        }
        proof {
            assert(step_rel(stk_pre, expr@[i as int], graph_stk@));
            let ghost tr_pre = tr;
            tr = tr.push(graph_stk@);
            assert(trace_ok(expr@.subrange(0, i as int + 1), tr)) by {
                let sub2 = expr@.subrange(0, i as int + 1);
                assert(sub2.len() == i + 1);
                assert(tr[0] == Seq::<ENfa>::empty());
                assert forall|j: int| 0 <= j < sub2.len() implies #[trigger] step_rel(
                    tr[j],
                    sub2[j],
                    tr[j + 1],
                ) by {
                    if j < i {
                        let sub1 = expr@.subrange(0, i as int);
                        assert(step_rel(tr_pre[j], sub1[j], tr_pre[j + 1]));
                        assert(tr[j] == tr_pre[j] && tr[j + 1] == tr_pre[j + 1]);
                        assert(sub2[j] == sub1[j]);
                    } else {
                        assert(tr[j] == stk_pre && tr[j + 1] == graph_stk@);
                        assert(sub2[j] == expr@[i as int]);
                    }
                }
            }
        }
        i += 1;
    }

    if graph_stk.len() != 1 {
        return Err(BuildError::LeftoverOperands);
    }
    let r = graph_stk.pop().unwrap();
    proof {
        assert(expr@.subrange(0, l as int) =~= expr@);
        assert(tr.last() =~= seq![r]);
        assert(trace_ok(expr@, tr) && tr.last() == seq![r]);
    }
    Ok(r)
}

} // verus!
