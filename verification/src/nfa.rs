//! Epsilon-free automata and the determinization pipeline: pruning,
//! reversal, subset construction and Brzozowski minimization.

use crate::graph::{
    clone_arcs, clone_ids, merge_arc_sym, merge_rows, row_arc_sym, row_has_arc, row_wf, seq_has,
    CharArc,
};
use vstd::pervasive::VecAdditionalExecFns;
use crate::reach::reaches;
use vstd::prelude::*;

verus! {

/// An automaton without epsilon transitions. Nodes are the dense
/// identifiers `0..arcs.len()`; `arcs[u]` holds the labeled edges leaving
/// `u`. A deterministic automaton is an `Nfa` in which no node has two
/// outgoing edges on the same symbol.
pub struct Nfa {
    pub arcs: Vec<Vec<CharArc>>,
    pub start: usize,
    pub fin: Vec<usize>,
}

impl Nfa {
    /// Number of nodes.
    pub open spec fn n(self) -> int {
        self.arcs@.len() as int
    }

    /// There is an edge from `u` to `v` labeled with the symbol `c`.
    pub open spec fn char_edge(self, u: int, v: int, c: char) -> bool {
        0 <= u < self.n() && row_arc_sym(self.arcs@[u]@, v, c)
    }

    /// There is an edge from `u` to `v`.
    pub open spec fn has_arc(self, u: int, v: int) -> bool {
        0 <= u < self.n() && row_has_arc(self.arcs@[u]@, v)
    }

    /// `v` is an accepting node.
    pub open spec fn is_fin(self, v: int) -> bool {
        seq_has(self.fin@, v)
    }

    /// The edge relation of the automaton.
    pub open spec fn edge_rel(self) -> spec_fn(int, int) -> bool {
        |u: int, v: int| self.has_arc(u, v)
    }

    /// `v` can be reached from `u`.
    pub open spec fn nfa_reaches(self, u: int, v: int) -> bool {
        reaches(self.edge_rel(), u, v)
    }

    /// Structural soundness: start and accepting nodes exist, every edge
    /// connects existing nodes, edge label sets are non-empty and
    /// duplicate-free, and there is at most one arc per node pair.
    pub open spec fn wf(self) -> bool {
        &&& (self.start as int) < self.n()
        &&& forall|k: int|
            0 <= k < self.fin@.len() ==> ((#[trigger] self.fin@[k]) as int) < self.n()
        &&& forall|u: int| 0 <= u < self.n() ==> row_wf((#[trigger] self.arcs@[u])@, self.n())
    }

    /// No node has two outgoing edges on the same symbol: the automaton is
    /// in fact a DFA.
    pub open spec fn deterministic(self) -> bool {
        forall|u: int, v1: int, v2: int, c: char|
            #[trigger] self.char_edge(u, v1, c) && #[trigger] self.char_edge(u, v2, c) ==> v1
                == v2
    }

    /// Every node is reachable from the start node.
    pub open spec fn all_reachable(self) -> bool {
        forall|v: int| 0 <= v < self.n() ==> self.nfa_reaches(self.start as int, v)
    }
}

impl Clone for Nfa {
    /// Copies the automaton; the copy has exactly the same nodes, edges,
    /// start and accept set.
    fn clone(&self) -> (r: Self)
        ensures
            r.n() == self.n(),
            r.start == self.start,
            r.fin@ == self.fin@,
            forall|u: int, v: int, c: char|
                #[trigger] r.char_edge(u, v, c) <==> self.char_edge(u, v, c),
            forall|u: int, v: int| #[trigger] r.has_arc(u, v) <==> self.has_arc(u, v),
            self.wf() ==> r.wf(),
    {
        let mut arcs: Vec<Vec<CharArc>> = Vec::new();
        let mut u: usize = 0;
        let l = self.arcs.len();
        while u < l
            invariant
                u <= l,
                l == self.arcs@.len(),
                arcs@.len() == u,
                forall|w: int|
                    0 <= w < u ==> (#[trigger] arcs@[w])@.len() == self.arcs@[w]@.len(),
                forall|w: int, j: int|
                    0 <= w < u && 0 <= j < self.arcs@[w]@.len() ==> (#[trigger] arcs@[w]@[j]).to
                        == self.arcs@[w]@[j].to && arcs@[w]@[j].syms@ == self.arcs@[w]@[j].syms@,
            decreases l - u,
        {
            arcs.push(clone_arcs(&self.arcs[u]));
            u += 1;
        }
        let r = Nfa { arcs, start: self.start, fin: clone_ids(&self.fin) };
        proof {
            assert forall|u2: int, v: int, c: char|
                #[trigger] r.char_edge(u2, v, c) <==> self.char_edge(u2, v, c)
            by {
                if 0 <= u2 < r.n() {
                    crate::graph::lemma_like_rows(r.arcs@[u2]@, self.arcs@[u2]@);
                }
            }
            assert forall|u2: int, v: int|
                #[trigger] r.has_arc(u2, v) <==> self.has_arc(u2, v)
            by {
                if 0 <= u2 < r.n() {
                    crate::graph::lemma_like_rows(r.arcs@[u2]@, self.arcs@[u2]@);
                }
            }
            assert forall|u2: int|
                0 <= u2 < r.n() implies (row_wf((#[trigger] r.arcs@[u2])@, r.n()) <==> row_wf(
                self.arcs@[u2]@,
                self.n(),
            )) by {
                crate::graph::lemma_like_rows(r.arcs@[u2]@, self.arcs@[u2]@);
            }
            if self.wf() {
                assert forall|u2: int| 0 <= u2 < r.n() implies row_wf(
                    (#[trigger] r.arcs@[u2])@,
                    r.n(),
                ) by {
                    assert(row_wf(self.arcs@[u2]@, self.n()));
                    crate::graph::lemma_like_rows(r.arcs@[u2]@, self.arcs@[u2]@);
                }
                assert(r.wf());
            }
        }
        r
    }
}

/// How many of the nodes `0..v` of `o` are reachable from its start: the
/// new identifier that node `v` receives when the unreachable nodes are
/// discarded and the rest are renumbered densely.
pub open spec fn reach_count(o: Nfa, v: int) -> int
    decreases v,
{
    if v <= 0 {
        0
    } else {
        reach_count(o, v - 1) + if o.nfa_reaches(o.start as int, v - 1) {
            1int
        } else {
            0int
        }
    }
}

proof fn lemma_reach_count_mono(o: Nfa, a: int, b: int)
    requires
        0 <= a <= b,
    ensures
        reach_count(o, a) <= reach_count(o, b),
        o.nfa_reaches(o.start as int, a) && a < b ==> reach_count(o, a) < reach_count(o, b),
        reach_count(o, b) <= reach_count(o, a) + (b - a),
    decreases b - a,
{
    if a < b {
        lemma_reach_count_mono(o, a, b - 1);
    }
}

/// Distinct reachable nodes receive distinct new identifiers.
proof fn lemma_reach_count_inj(o: Nfa, a: int, b: int)
    requires
        0 <= a,
        0 <= b,
        o.nfa_reaches(o.start as int, a),
        o.nfa_reaches(o.start as int, b),
        reach_count(o, a) == reach_count(o, b),
    ensures
        a == b,
{
    if a < b {
        lemma_reach_count_mono(o, a, b);
    } else if b < a {
        lemma_reach_count_mono(o, b, a);
    }
}

proof fn lemma_reach_restrict_helper(e: spec_fn(int, int) -> bool, s: int, v: int)
    requires
        reaches(e, s, v),
    ensures
        reaches(|a: int, b: int| e(a, b) && reaches(e, s, a), s, v),
{
    let p = choose|p: Seq<int>|
        crate::reach::is_path(e, p) && p.first() == s && p.last() == v;
    lemma_reach_restrict_path(e, s, p);
}

proof fn lemma_reach_restrict_path(e: spec_fn(int, int) -> bool, s: int, p: Seq<int>)
    requires
        crate::reach::is_path(e, p),
        p.first() == s,
    ensures
        reaches(|a: int, b: int| e(a, b) && reaches(e, s, a), s, p.last()),
    decreases p.len(),
{
    let r2 = |a: int, b: int| e(a, b) && reaches(e, s, a);
    if p.len() == 1 {
        crate::reach::lemma_reach_refl(r2, s);
    } else {
        let q = p.drop_last();
        assert forall|i: int| 0 <= i < q.len() - 1 implies e(#[trigger] q[i], q[i + 1]) by {
            assert(e(p[i], p[i + 1]));
        }
        assert(crate::reach::is_path(e, q) && q.first() == s && q.last() == p[p.len() - 2]);
        lemma_reach_restrict_path(e, s, q);
        assert(e(p[p.len() - 2], p[p.len() - 1]));
        assert(reaches(e, s, p[p.len() - 2])) by {
            crate::reach::lemma_reach_refl(e, s);
            lemma_path_extends(e, s, q);
        }
        assert(r2(p[p.len() - 2], p.last()));
        crate::reach::lemma_reach_step(r2, s, p[p.len() - 2], p.last());
    }
}

proof fn lemma_path_extends(e: spec_fn(int, int) -> bool, s: int, p: Seq<int>)
    requires
        crate::reach::is_path(e, p),
        p.first() == s,
    ensures
        reaches(e, s, p.last()),
{
    assert(crate::reach::is_path(e, p) && p.first() == s && p.last() == p.last());
}

/// The accept list after pruning: the reachable members of `fin`, in
/// their stored order, renumbered.
pub open spec fn prune_fin(o: Nfa, fin: Seq<usize>) -> Seq<usize>
    decreases fin.len(),
{
    if fin.len() == 0 {
        Seq::empty()
    } else {
        prune_fin(o, fin.drop_last()) + if o.nfa_reaches(o.start as int, fin.last() as int) {
            seq![reach_count(o, fin.last() as int) as usize]
        } else {
            Seq::empty()
        }
    }
}

/// `r` is `o` with its unreachable nodes discarded and the reachable ones
/// densely renumbered in ascending order of their old identifiers.
pub open spec fn pruned_of(o: Nfa, r: Nfa) -> bool {
    &&& r.fin@ == prune_fin(o, o.fin@)
    &&& r.n() == reach_count(o, o.n())
    &&& (r.start as int) == reach_count(o, o.start as int)
    &&& forall|uu: int, vv: int, c: char|
        #[trigger] r.char_edge(uu, vv, c) <==> exists|u: int, v: int|
            0 <= u < o.n() && 0 <= v < o.n() && o.nfa_reaches(o.start as int, u)
                && o.nfa_reaches(o.start as int, v) && reach_count(o, u) == uu && reach_count(
                o,
                v,
            ) == vv && #[trigger] o.char_edge(u, v, c)
    &&& forall|ff: int|
        #[trigger] r.is_fin(ff) <==> exists|f: int|
            0 <= f < o.n() && #[trigger] o.is_fin(f) && o.nfa_reaches(o.start as int, f)
                && reach_count(o, f) == ff
}

impl Nfa {
    /// Discards every node unreachable from the start node, densely
    /// renumbers the remaining nodes in ascending order of their old
    /// identifiers, and remaps the start and accept identifiers. Afterwards
    /// every node is reachable from the start.
    pub fn remove_unreachable_nodes(&mut self)
        requires
            old(self).wf(),
        ensures
            final(self).wf(),
            final(self).all_reachable(),
            pruned_of(*old(self), *final(self)),
    {
        let ghost o = *old(self);
        let n = self.arcs.len();

        // The arc targets, as a plain adjacency structure.
        let mut adj: Vec<Vec<usize>> = Vec::new();
        let mut u: usize = 0;
        while u < n
            invariant
                u <= n,
                n == o.n(),
                o == *self,
                o.wf(),
                adj@.len() == u,
                forall|w: int, b: int|
                    0 <= w < u ==> (#[trigger] seq_has(adj@[w]@, b) <==> row_has_arc(
                        o.arcs@[w]@,
                        b,
                    )),
                forall|w: int|
                    0 <= w < u ==> crate::graph::eps_row_wf((#[trigger] adj@[w])@, n as int),
            decreases n - u,
        {
            let mut row: Vec<usize> = Vec::new();
            let mut t: usize = 0;
            let al = self.arcs[u].len();
            while t < al
                invariant
                    t <= al,
                    u < n,
                    n == o.n(),
                    o == *self,
                    o.wf(),
                    al == o.arcs@[u as int]@.len(),
                    row@.len() == t,
                    forall|j: int|
                        0 <= j < t ==> (#[trigger] row@[j]) == o.arcs@[u as int]@[j].to,
                decreases al - t,
            {
                row.push(self.arcs[u][t].to);
                t += 1;
            }
            proof {
                assert(row_wf(o.arcs@[u as int]@, n as int));
                assert forall|b: int|
                    #[trigger] seq_has(row@, b) <==> row_has_arc(o.arcs@[u as int]@, b)
                by {
                    if seq_has(row@, b) {
                        let j = choose|j: int|
                            0 <= j < row@.len() && (((#[trigger] row@[j]) as int) == b);
                        assert((o.arcs@[u as int]@[j].to as int) == b);
                        assert(row_has_arc(o.arcs@[u as int]@, b));
                    }
                    if row_has_arc(o.arcs@[u as int]@, b) {
                        let j = choose|j: int|
                            0 <= j < o.arcs@[u as int]@.len() && (((
                            #[trigger] o.arcs@[u as int]@[j]).to as int) == b);
                        assert(((row@[j]) as int) == b);
                    }
                }
                assert(crate::graph::eps_row_wf(row@, n as int)) by {
                    assert forall|j1: int, j2: int| 0 <= j1 < j2 < row@.len() implies (
                    #[trigger] row@[j1]) != (#[trigger] row@[j2]) by {
                        assert(o.arcs@[u as int]@[j1].to != o.arcs@[u as int]@[j2].to);
                    }
                    assert forall|j: int| 0 <= j < row@.len() implies (#[trigger] row@[j])
                        < n by {
                        assert(o.arcs@[u as int]@[j].to < n);
                    }
                }
            }
            adj.push(row);
            u += 1;
        }
        let ghost av = crate::graph_algo::adj_view(adj);
        proof {
            assert(av.len() == n);
            assert(forall|w: int, b: int|
                0 <= w < n ==> (#[trigger] seq_has(av[w], b) <==> row_has_arc(o.arcs@[w]@, b)));
            assert forall|x: int, tt: int|
                0 <= x < av.len() && 0 <= tt < av[x].len() implies ((#[trigger] av[x][tt]) as int)
                < av.len() by {
                assert(crate::graph::eps_row_wf(av[x], n as int));
            }
            assert(crate::graph_algo::adj_wf(av));
            // The adjacency relation agrees with the automaton's edges.
            assert forall|x: int, y: int|
                crate::graph::adj_rel(av)(x, y) <==> #[trigger] o.edge_rel()(x, y) by {
                if crate::graph::adj_rel(av)(x, y) {
                    assert(seq_has(av[x], y));
                }
                if o.edge_rel()(x, y) {
                    assert(row_has_arc(o.arcs@[x]@, y));
                }
            }
        }

        let rlist = crate::graph_algo::reachable_from(&adj, self.start);
        let mut mark: Vec<bool> = vec![false; n];
        let mut t: usize = 0;
        let rl = rlist.len();
        proof {
            // Reachability transfers between the two relations.
            assert forall|v: int|
                crate::graph::adj_reaches(av, o.start as int, v) <==> #[trigger] o.nfa_reaches(
                    o.start as int,
                    v,
                ) by {
                if crate::graph::adj_reaches(av, o.start as int, v) {
                    crate::reach::lemma_reach_condense(
                        crate::graph::adj_rel(av),
                        o.edge_rel(),
                        |q: int| q,
                        o.start as int,
                        v,
                    );
                }
                if o.nfa_reaches(o.start as int, v) {
                    crate::reach::lemma_reach_condense(
                        o.edge_rel(),
                        crate::graph::adj_rel(av),
                        |q: int| q,
                        o.start as int,
                        v,
                    );
                }
            }
        }
        while t < rl
            invariant
                t <= rl,
                rl == rlist@.len(),
                n == o.n(),
                mark@.len() == n,
                forall|j: int| 0 <= j < rl ==> ((#[trigger] rlist@[j]) as int) < n,
                forall|v: int| #[trigger] seq_has(rlist@, v) <==> o.nfa_reaches(o.start as int, v),
                forall|v: int|
                    0 <= v < n ==> ((#[trigger] mark@[v]) <==> exists|j: int|
                        0 <= j < t && ((rlist@[j]) as int) == v),
            decreases rl - t,
        {
            mark.set(rlist[t], true);
            t += 1;
            proof {
                assert forall|v: int|
                    0 <= v < n implies ((#[trigger] mark@[v]) <==> exists|j: int|
                        0 <= j < t && ((rlist@[j]) as int) == v) by {
                    if v == (rlist@[t - 1]) as int {
                        assert(exists|j: int| 0 <= j < t && ((rlist@[j]) as int) == v);
                    } else if exists|j: int| 0 <= j < t && ((rlist@[j]) as int) == v {
                        let j = choose|j: int| 0 <= j < t && ((rlist@[j]) as int) == v;
                        assert(j < t - 1);
                        assert(exists|j2: int| 0 <= j2 < t - 1 && ((rlist@[j2]) as int) == v);
                    }
                }
            }
        }
        proof {
            assert forall|v: int|
                0 <= v < n implies ((#[trigger] mark@[v]) <==> o.nfa_reaches(o.start as int, v))
            by {
                if mark@[v] {
                    let j = choose|j: int| 0 <= j < rl && ((rlist@[j]) as int) == v;
                    assert(seq_has(rlist@, v));
                }
                if o.nfa_reaches(o.start as int, v) {
                    assert(seq_has(rlist@, v));
                    let j = choose|j: int|
                        0 <= j < rlist@.len() && (((#[trigger] rlist@[j]) as int) == v);
                    assert(exists|j2: int| 0 <= j2 < rl && ((rlist@[j2]) as int) == v);
                }
            }
        }

        // Dense renumbering: each node's new identifier is the number of
        // reachable nodes before it.
        let mut nmap: Vec<usize> = vec![0; n];
        let mut cnt: usize = 0;
        let mut v: usize = 0;
        while v < n
            invariant
                v <= n,
                n == o.n(),
                mark@.len() == n,
                nmap@.len() == n,
                forall|w: int|
                    0 <= w < n ==> ((#[trigger] mark@[w]) <==> o.nfa_reaches(o.start as int, w)),
                cnt as int == reach_count(o, v as int),
                cnt <= v,
                forall|w: int| 0 <= w < v ==> ((#[trigger] nmap@[w]) as int) == reach_count(o, w),
            decreases n - v,
        {
            nmap.set(v, cnt);
            if mark[v] {
                cnt = cnt + 1;
            }
            v += 1;
        }
        let ghost total = cnt as int;
        proof {
            assert(total == reach_count(o, n as int));
        }

        // Rebuild the graph over the reachable nodes only.
        let mut new_arcs: Vec<Vec<CharArc>> = Vec::new();
        let ghost mut rev: Seq<int> = Seq::empty();
        let mut v: usize = 0;
        while v < n
            invariant
                v <= n,
                n == o.n(),
                o.wf(),
                o == *self,
                mark@.len() == n,
                nmap@.len() == n,
                forall|w: int|
                    0 <= w < n ==> ((#[trigger] mark@[w]) <==> o.nfa_reaches(o.start as int, w)),
                forall|w: int| 0 <= w < n ==> ((#[trigger] nmap@[w]) as int) == reach_count(o, w),
                new_arcs@.len() == reach_count(o, v as int),
                rev.len() == new_arcs@.len(),
                forall|j: int|
                    0 <= j < rev.len() ==> 0 <= #[trigger] rev[j] < v && o.nfa_reaches(
                        o.start as int,
                        rev[j],
                    ) && reach_count(o, rev[j]) == j,
                forall|j: int|
                    0 <= j < rev.len() ==> (#[trigger] new_arcs@[j])@.len()
                        == o.arcs@[rev[j]]@.len(),
                forall|j: int, s: int|
                    0 <= j < rev.len() && 0 <= s < o.arcs@[rev[j]]@.len() ==> ((
                    #[trigger] new_arcs@[j]@[s]).to as int) == reach_count(
                        o,
                        o.arcs@[rev[j]]@[s].to as int,
                    ) && new_arcs@[j]@[s].syms@ == o.arcs@[rev[j]]@[s].syms@,
            decreases n - v,
        {
            if mark[v] {
                let mut row: Vec<CharArc> = Vec::new();
                let mut s: usize = 0;
                let al = self.arcs[v].len();
                while s < al
                    invariant
                        s <= al,
                        v < n,
                        n == o.n(),
                        o == *self,
                        o.wf(),
                        nmap@.len() == n,
                        forall|w: int|
                            0 <= w < n ==> ((#[trigger] nmap@[w]) as int) == reach_count(o, w),
                        al == o.arcs@[v as int]@.len(),
                        row@.len() == s,
                        forall|j: int|
                            0 <= j < s ==> ((#[trigger] row@[j]).to as int) == reach_count(
                                o,
                                o.arcs@[v as int]@[j].to as int,
                            ) && row@[j].syms@ == o.arcs@[v as int]@[j].syms@,
                    decreases al - s,
                {
                    proof {
                        assert(row_wf(o.arcs@[v as int]@, n as int));
                        assert(o.arcs@[v as int]@[s as int].to < n);
                    }
                    let tgt = nmap[self.arcs[v][s].to];
                    let syms = crate::graph::clone_chars(&self.arcs[v][s].syms);
                    row.push(CharArc { to: tgt, syms });
                    s += 1;
                }
                new_arcs.push(row);
                proof {
                    rev = rev.push(v as int);
                }
            }
            v += 1;
        }
        proof {
            assert(new_arcs@.len() == total);
        }
        let new_start = nmap[self.start];
        let mut new_fin: Vec<usize> = Vec::new();
        let mut t: usize = 0;
        let fl = self.fin.len();
        while t < fl
            invariant
                t <= fl,
                n == o.n(),
                o == *self,
                o.wf(),
                mark@.len() == n,
                nmap@.len() == n,
                fl == o.fin@.len(),
                forall|w: int|
                    0 <= w < n ==> ((#[trigger] mark@[w]) <==> o.nfa_reaches(o.start as int, w)),
                forall|w: int| 0 <= w < n ==> ((#[trigger] nmap@[w]) as int) == reach_count(o, w),
                new_fin@ == prune_fin(o, o.fin@.subrange(0, t as int)),
                forall|ff: int|
                    #[trigger] seq_has(new_fin@, ff) <==> exists|t2: int|
                        0 <= t2 < t && o.nfa_reaches(o.start as int, (#[trigger] o.fin@[t2]) as int)
                            && reach_count(o, (o.fin@[t2]) as int) == ff,
            decreases fl - t,
        {
            let ghost fin_pre = new_fin@;
            let f = self.fin[t];
            if mark[f] {
                new_fin.push(nmap[f]);
            }
            t += 1;
            proof {
                let s2 = o.fin@.subrange(0, t as int);
                assert(s2.drop_last() =~= o.fin@.subrange(0, t as int - 1));
                assert(s2.last() == o.fin@[t - 1]);
                assert(new_fin@ =~= prune_fin(o, s2));
                assert forall|ff: int|
                    #[trigger] seq_has(new_fin@, ff) <==> exists|t2: int|
                        0 <= t2 < t && o.nfa_reaches(o.start as int, (#[trigger] o.fin@[t2]) as int)
                            && reach_count(o, (o.fin@[t2]) as int) == ff by {
                    if seq_has(new_fin@, ff) {
                        if seq_has(fin_pre, ff) {
                            let t2 = choose|t2: int|
                                0 <= t2 < t - 1 && o.nfa_reaches(
                                    o.start as int,
                                    (#[trigger] o.fin@[t2]) as int,
                                ) && reach_count(o, (o.fin@[t2]) as int) == ff;
                            assert(exists|t3: int|
                                0 <= t3 < t && o.nfa_reaches(
                                    o.start as int,
                                    (#[trigger] o.fin@[t3]) as int,
                                ) && reach_count(o, (o.fin@[t3]) as int) == ff);
                        } else {
                            let j = choose|j: int|
                                0 <= j < new_fin@.len() && (((#[trigger] new_fin@[j]) as int)
                                    == ff);
                            assert(j == new_fin@.len() - 1);
                            assert(o.nfa_reaches(o.start as int, (o.fin@[t - 1]) as int));
                            assert(reach_count(o, (o.fin@[t - 1]) as int) == ff);
                            assert(exists|t3: int|
                                0 <= t3 < t && o.nfa_reaches(
                                    o.start as int,
                                    (#[trigger] o.fin@[t3]) as int,
                                ) && reach_count(o, (o.fin@[t3]) as int) == ff);
                        }
                    }
                    if exists|t2: int|
                        0 <= t2 < t && o.nfa_reaches(o.start as int, (#[trigger] o.fin@[t2]) as int)
                            && reach_count(o, (o.fin@[t2]) as int) == ff {
                        let t2 = choose|t2: int|
                            0 <= t2 < t && o.nfa_reaches(
                                o.start as int,
                                (#[trigger] o.fin@[t2]) as int,
                            ) && reach_count(o, (o.fin@[t2]) as int) == ff;
                        if t2 < t - 1 {
                            assert(exists|t3: int|
                                0 <= t3 < t - 1 && o.nfa_reaches(
                                    o.start as int,
                                    (#[trigger] o.fin@[t3]) as int,
                                ) && reach_count(o, (o.fin@[t3]) as int) == ff);
                            assert(seq_has(fin_pre, ff));
                            let j = choose|j: int|
                                0 <= j < fin_pre.len() && (((#[trigger] fin_pre[j]) as int) == ff);
                            assert(((new_fin@[j]) as int) == ff);
                            assert(seq_has(new_fin@, ff));
                        } else {
                            assert(mark@[(o.fin@[t - 1]) as int]);
                            assert(((new_fin@[new_fin@.len() - 1]) as int) == ff);
                            assert(seq_has(new_fin@, ff));
                        }
                    }
                }
            }
        }

        let ghost rev_final = rev;
        self.arcs = new_arcs;
        self.start = new_start;
        self.fin = new_fin;
        proof {
            let f = *self;
            assert(o.fin@.subrange(0, fl as int) =~= o.fin@);
            // Every new node stands for exactly one reachable old node.
            assert forall|uu: int| 0 <= uu < f.n() implies 0 <= #[trigger] rev_final[uu] < n
                && o.nfa_reaches(o.start as int, rev_final[uu]) && reach_count(
                o,
                rev_final[uu],
            ) == uu by {}
            assert forall|uu: int, vv: int, c: char|
                #[trigger] f.char_edge(uu, vv, c) <==> exists|u2: int, v2: int|
                    0 <= u2 < o.n() && 0 <= v2 < o.n() && o.nfa_reaches(o.start as int, u2)
                        && o.nfa_reaches(o.start as int, v2) && reach_count(o, u2) == uu
                        && reach_count(o, v2) == vv && #[trigger] o.char_edge(u2, v2, c) by {
                if f.char_edge(uu, vv, c) {
                    let s = choose|s: int|
                        0 <= s < f.arcs@[uu]@.len() && ((#[trigger] f.arcs@[uu]@[s]).to as int)
                            == vv && f.arcs@[uu]@[s].syms@.contains(c);
                    let u2 = rev_final[uu];
                    let v2 = o.arcs@[u2]@[s].to as int;
                    assert(o.char_edge(u2, v2, c)) by {
                        assert(((#[trigger] o.arcs@[u2]@[s]).to as int) == v2
                            && o.arcs@[u2]@[s].syms@.contains(c));
                    }
                    assert(o.nfa_reaches(o.start as int, v2)) by {
                        assert(row_has_arc(o.arcs@[u2]@, v2));
                        assert(o.edge_rel()(u2, v2));
                        crate::reach::lemma_reach_step(o.edge_rel(), o.start as int, u2, v2);
                    }
                    assert(0 <= v2 < o.n()) by {
                        assert(row_wf(o.arcs@[u2]@, n as int));
                    }
                    assert(reach_count(o, v2) == vv);
                }
                if exists|u2: int, v2: int|
                    0 <= u2 < o.n() && 0 <= v2 < o.n() && o.nfa_reaches(o.start as int, u2)
                        && o.nfa_reaches(o.start as int, v2) && reach_count(o, u2) == uu
                        && reach_count(o, v2) == vv && #[trigger] o.char_edge(u2, v2, c) {
                    let (u2, v2) = choose|u2: int, v2: int|
                        0 <= u2 < o.n() && 0 <= v2 < o.n() && o.nfa_reaches(o.start as int, u2)
                            && o.nfa_reaches(o.start as int, v2) && reach_count(o, u2) == uu
                            && reach_count(o, v2) == vv && #[trigger] o.char_edge(u2, v2, c);
                    assert(0 <= uu < f.n()) by {
                        lemma_reach_count_mono(o, u2 + 1, n as int);
                        lemma_reach_count_mono(o, 0, u2);
                    }
                    lemma_reach_count_inj(o, rev_final[uu], u2);
                    let s = choose|s: int|
                        0 <= s < o.arcs@[u2]@.len() && ((#[trigger] o.arcs@[u2]@[s]).to as int)
                            == v2 && o.arcs@[u2]@[s].syms@.contains(c);
                    assert(((f.arcs@[uu]@[s]).to as int) == reach_count(o, v2));
                    assert(f.arcs@[uu]@[s].syms@.contains(c));
                    assert(row_arc_sym(f.arcs@[uu]@, vv, c)) by {
                        assert(((#[trigger] f.arcs@[uu]@[s]).to as int) == vv
                            && f.arcs@[uu]@[s].syms@.contains(c));
                    }
                }
            }
            // Well-formedness of the rebuilt automaton.
            assert(f.wf()) by {
                assert((f.start as int) < f.n()) by {
                    crate::reach::lemma_reach_refl(o.edge_rel(), o.start as int);
                    assert(o.nfa_reaches(o.start as int, o.start as int));
                    assert(reach_count(o, o.start as int + 1) == reach_count(o, o.start as int)
                        + 1);
                    lemma_reach_count_mono(o, o.start as int + 1, n as int);
                }
                assert forall|j: int| 0 <= j < f.fin@.len() implies ((#[trigger] f.fin@[j]) as int)
                    < f.n() by {
                    assert(seq_has(f.fin@, (f.fin@[j]) as int));
                    let t2 = choose|t2: int|
                        0 <= t2 < fl && o.nfa_reaches(o.start as int, (#[trigger] o.fin@[t2]) as int)
                            && reach_count(o, (o.fin@[t2]) as int) == (f.fin@[j]) as int;
                    assert(((o.fin@[t2]) as int) < n);
                    lemma_reach_count_mono(o, (o.fin@[t2]) as int + 1, n as int);
                }
                assert forall|uu: int| 0 <= uu < f.n() implies row_wf(
                    (#[trigger] f.arcs@[uu])@,
                    f.n(),
                ) by {
                    let u2 = rev_final[uu];
                    assert(row_wf(o.arcs@[u2]@, n as int));
                    assert forall|s: int| 0 <= s < f.arcs@[uu]@.len() implies {
                        &&& ((#[trigger] f.arcs@[uu]@[s]).to as int) < f.n()
                        &&& f.arcs@[uu]@[s].syms@.len() > 0
                        &&& f.arcs@[uu]@[s].syms@.no_duplicates()
                    } by {
                        assert((o.arcs@[u2]@[s].to as int) < n);
                        assert(o.arcs@[u2]@[s].syms@.len() > 0
                            && o.arcs@[u2]@[s].syms@.no_duplicates());
                        let v2 = o.arcs@[u2]@[s].to as int;
                        assert(o.nfa_reaches(o.start as int, v2)) by {
                            assert(row_has_arc(o.arcs@[u2]@, v2));
                            assert(o.edge_rel()(u2, v2));
                            crate::reach::lemma_reach_step(o.edge_rel(), o.start as int, u2, v2);
                        }
                        lemma_reach_count_mono(o, v2 + 1, n as int);
                    }
                    assert forall|s1: int, s2: int| 0 <= s1 < s2 < f.arcs@[uu]@.len() implies (
                    #[trigger] f.arcs@[uu]@[s1]).to != (#[trigger] f.arcs@[uu]@[s2]).to by {
                        assert(o.arcs@[u2]@[s1].to != o.arcs@[u2]@[s2].to);
                        let x1 = o.arcs@[u2]@[s1].to as int;
                        let x2 = o.arcs@[u2]@[s2].to as int;
                        assert(o.nfa_reaches(o.start as int, x1)) by {
                            assert(row_has_arc(o.arcs@[u2]@, x1)) by {
                                assert(((#[trigger] o.arcs@[u2]@[s1]).to as int) == x1);
                            }
                            assert(o.edge_rel()(u2, x1));
                            crate::reach::lemma_reach_step(o.edge_rel(), o.start as int, u2, x1);
                        }
                        assert(o.nfa_reaches(o.start as int, x2)) by {
                            assert(row_has_arc(o.arcs@[u2]@, x2)) by {
                                assert(((#[trigger] o.arcs@[u2]@[s2]).to as int) == x2);
                            }
                            assert(o.edge_rel()(u2, x2));
                            crate::reach::lemma_reach_step(o.edge_rel(), o.start as int, u2, x2);
                        }
                        if reach_count(o, x1) == reach_count(o, x2) {
                            lemma_reach_count_inj(o, x1, x2);
                        }
                    }
                }
            }
            // The accept identifiers are those of the reachable old accept
            // nodes.
            assert forall|ff: int|
                #[trigger] f.is_fin(ff) <==> exists|f2: int|
                    0 <= f2 < o.n() && #[trigger] o.is_fin(f2) && o.nfa_reaches(
                        o.start as int,
                        f2,
                    ) && reach_count(o, f2) == ff by {
                if f.is_fin(ff) {
                    assert(seq_has(f.fin@, ff));
                    let t2 = choose|t2: int|
                        0 <= t2 < fl && o.nfa_reaches(o.start as int, (#[trigger] o.fin@[t2]) as int)
                            && reach_count(o, (o.fin@[t2]) as int) == ff;
                    let f2 = (o.fin@[t2]) as int;
                    assert(o.is_fin(f2)) by {
                        assert(((#[trigger] o.fin@[t2]) as int) == f2);
                    }
                    assert(0 <= f2 < o.n());
                }
                if exists|f2: int|
                    0 <= f2 < o.n() && #[trigger] o.is_fin(f2) && o.nfa_reaches(
                        o.start as int,
                        f2,
                    ) && reach_count(o, f2) == ff {
                    let f2 = choose|f2: int|
                        0 <= f2 < o.n() && #[trigger] o.is_fin(f2) && o.nfa_reaches(
                            o.start as int,
                            f2,
                        ) && reach_count(o, f2) == ff;
                    let t2 = choose|t2: int|
                        0 <= t2 < o.fin@.len() && (((#[trigger] o.fin@[t2]) as int) == f2);
                    assert(exists|t3: int|
                        0 <= t3 < fl && o.nfa_reaches(o.start as int, (#[trigger] o.fin@[t3]) as int)
                            && reach_count(o, (o.fin@[t3]) as int) == ff);
                    assert(seq_has(f.fin@, ff));
                }
            }
            // Every new node is reachable from the new start.
            assert forall|vv: int| 0 <= vv < f.n() implies f.nfa_reaches(f.start as int, vv) by {
                let v2 = rev_final[vv];
                lemma_reach_restrict_helper(o.edge_rel(), o.start as int, v2);
                let er = |a: int, b: int|
                    o.edge_rel()(a, b) && reaches(o.edge_rel(), o.start as int, a);
                assert forall|a: int, b: int| #[trigger] er(a, b) implies (|q: int|
                    reach_count(o, q))(a) == (|q: int| reach_count(o, q))(b) || f.edge_rel()(
                    (|q: int| reach_count(o, q))(a),
                    (|q: int| reach_count(o, q))(b),
                ) by {
                    assert(o.has_arc(a, b));
                    let s = choose|s: int|
                        0 <= s < o.arcs@[a]@.len() && (((#[trigger] o.arcs@[a]@[s]).to as int)
                            == b);
                    let c = o.arcs@[a]@[s].syms@[0];
                    assert(o.arcs@[a]@[s].syms@.contains(c)) by {
                        assert(row_wf(o.arcs@[a]@, n as int));
                    }
                    assert(o.char_edge(a, b, c)) by {
                        assert(((#[trigger] o.arcs@[a]@[s]).to as int) == b
                            && o.arcs@[a]@[s].syms@.contains(c));
                    }
                    assert(o.nfa_reaches(o.start as int, b)) by {
                        crate::reach::lemma_reach_step(o.edge_rel(), o.start as int, a, b);
                    }
                    assert(f.char_edge(reach_count(o, a), reach_count(o, b), c));
                    assert(f.has_arc(reach_count(o, a), reach_count(o, b))) by {
                        let s2 = choose|s2: int|
                            0 <= s2 < f.arcs@[reach_count(o, a)]@.len() && ((
                            #[trigger] f.arcs@[reach_count(o, a)]@[s2]).to as int) == reach_count(
                                o,
                                b,
                            ) && f.arcs@[reach_count(o, a)]@[s2].syms@.contains(c);
                    }
                }
                crate::reach::lemma_reach_condense(
                    er,
                    f.edge_rel(),
                    |q: int| reach_count(o, q),
                    o.start as int,
                    v2,
                );
            }
        }
    }
}

/// The exact structure of the reversal when the source has exactly one
/// accepting node: every edge flips; start and accept swap.
pub open spec fn reverse_shape_single(o: Nfa, r: Nfa) -> bool {
    &&& r.n() == o.n()
    &&& r.start == o.fin@[0]
    &&& r.fin@.len() == 1
    &&& r.fin@[0] == o.start
    &&& forall|u: int, v: int, c: char|
        #[trigger] r.char_edge(u, v, c) <==> o.char_edge(v, u, c)
    &&& forall|u: int, v: int| #[trigger] r.has_arc(u, v) <==> o.has_arc(v, u)
}

/// The exact structure of the reversal when the source has several
/// accepting nodes: every edge flips, and one synthetic start node inherits
/// the flipped outgoing edges of every old accepting node. The new accept
/// set is the old start, joined by the synthetic node when the old start
/// was itself accepting.
pub open spec fn reverse_shape_multi(o: Nfa, r: Nfa) -> bool {
    &&& r.n() == o.n() + 1
    &&& (r.start as int) == o.n()
    &&& (r.fin@[0]) == o.start
    &&& (if o.is_fin(o.start as int) {
        r.fin@.len() == 2 && ((r.fin@[1]) as int) == o.n()
    } else {
        r.fin@.len() == 1
    })
    &&& forall|u: int, v: int, c: char|
        #[trigger] r.char_edge(u, v, c) <==> (u < o.n() && o.char_edge(v, u, c)) || (u == o.n()
            && exists|f: int| #[trigger] o.is_fin(f) && o.char_edge(v, f, c))
    &&& forall|u: int, v: int|
        #[trigger] r.has_arc(u, v) <==> (u < o.n() && o.has_arc(v, u)) || (u == o.n() && exists|
        f: int|
            #[trigger] o.is_fin(f) && o.has_arc(v, f))
}

/// Records the flipped arcs of one source node: for every edge
/// `src --c--> t` of the node, the reversed graph gains `t --c--> src`.
fn scatter_rev_node(
    rev: &mut Vec<Vec<CharArc>>,
    node_arcs: &Vec<CharArc>,
    u: usize,
    Ghost(n): Ghost<int>,
)
    requires
        old(rev)@.len() == n,
        forall|x: int| 0 <= x < n ==> row_wf((#[trigger] old(rev)@[x])@, n),
        row_wf(node_arcs@, n),
        (u as int) < n,
    ensures
        final(rev)@.len() == n,
        forall|x: int| 0 <= x < n ==> row_wf((#[trigger] final(rev)@[x])@, n),
        forall|x: int, y: int, c: char|
            0 <= x < n ==> (#[trigger] row_arc_sym(final(rev)@[x]@, y, c) <==> row_arc_sym(
                old(rev)@[x]@,
                y,
                c,
            ) || (y == u as int && row_arc_sym(node_arcs@, x, c))),
        forall|x: int, y: int|
            0 <= x < n ==> (#[trigger] row_has_arc(final(rev)@[x]@, y) <==> row_has_arc(
                old(rev)@[x]@,
                y,
            ) || (y == u as int && row_has_arc(node_arcs@, x))),
{
    let al = node_arcs.len();
    let mut t: usize = 0;
    while t < al
        invariant
            t <= al,
            al == node_arcs@.len(),
            rev@.len() == n,
            (u as int) < n,
            row_wf(node_arcs@, n),
            forall|x: int| 0 <= x < n ==> row_wf((#[trigger] rev@[x])@, n),
            forall|x: int, y: int, c: char|
                0 <= x < n ==> (#[trigger] row_arc_sym(rev@[x]@, y, c) <==> row_arc_sym(
                    old(rev)@[x]@,
                    y,
                    c,
                ) || (y == u as int && exists|t2: int|
                    0 <= t2 < t && ((#[trigger] node_arcs@[t2]).to as int) == x
                        && node_arcs@[t2].syms@.contains(c))),
            forall|x: int, y: int|
                0 <= x < n ==> (#[trigger] row_has_arc(rev@[x]@, y) <==> row_has_arc(
                    old(rev)@[x]@,
                    y,
                ) || (y == u as int && exists|t2: int|
                    0 <= t2 < t && ((#[trigger] node_arcs@[t2]).to as int) == x)),
        decreases al - t,
    {
        let tgt = node_arcs[t].to;
        let mut row: Vec<CharArc> = Vec::new();
        rev.set_and_swap(tgt, &mut row);
        let ghost row_pre = row@;
        let ghost rev_pre = rev@;
        let sl = node_arcs[t].syms.len();
        let mut s: usize = 0;
        while s < sl
            invariant
                s <= sl,
                t < node_arcs@.len(),
                sl == node_arcs@[t as int].syms@.len(),
                (u as int) < n,
                row_wf(row@, n),
                forall|y: int, c: char|
                    #[trigger] row_arc_sym(row@, y, c) <==> row_arc_sym(row_pre, y, c) || (y
                        == u as int && exists|s2: int|
                        0 <= s2 < s && (#[trigger] node_arcs@[t as int].syms@[s2]) == c),
                forall|y: int|
                    #[trigger] row_has_arc(row@, y) <==> row_has_arc(row_pre, y) || (y == u as int
                        && s > 0),
            decreases sl - s,
        {
            merge_arc_sym(&mut row, u, node_arcs[t].syms[s], Ghost(n));
            s += 1;
            proof {
                assert forall|y: int, c: char|
                    #[trigger] row_arc_sym(row@, y, c) <==> row_arc_sym(row_pre, y, c) || (y
                        == u as int && exists|s2: int|
                        0 <= s2 < s && (#[trigger] node_arcs@[t as int].syms@[s2]) == c) by {
                    if y == u as int && c == node_arcs@[t as int].syms@[s - 1] {
                        assert((#[trigger] node_arcs@[t as int].syms@[s - 1]) == c);
                    }
                    if y == u as int && exists|s2: int|
                        0 <= s2 < s && (#[trigger] node_arcs@[t as int].syms@[s2]) == c {
                        let s2 = choose|s2: int|
                            0 <= s2 < s && (#[trigger] node_arcs@[t as int].syms@[s2]) == c;
                        if s2 < s - 1 {
                            assert(exists|s3: int|
                                0 <= s3 < s - 1 && (#[trigger] node_arcs@[t as int].syms@[s3])
                                    == c);
                        }
                    }
                }
            }
        }
        rev.set_and_swap(tgt, &mut row);
        t += 1;
        proof {
            assert(rev@ =~= rev_pre.update(tgt as int, rev@[tgt as int]));
            assert forall|x: int, y: int, c: char|
                0 <= x < n implies (#[trigger] row_arc_sym(rev@[x]@, y, c) <==> row_arc_sym(
                    old(rev)@[x]@,
                    y,
                    c,
                ) || (y == u as int && exists|t2: int|
                    0 <= t2 < t && ((#[trigger] node_arcs@[t2]).to as int) == x
                        && node_arcs@[t2].syms@.contains(c))) by {
                if x == tgt as int {
                    if row_arc_sym(rev@[x]@, y, c) && !row_arc_sym(row_pre, y, c) {
                        let s2 = choose|s2: int|
                            0 <= s2 < sl && (#[trigger] node_arcs@[t as int - 1].syms@[s2]) == c;
                        assert(node_arcs@[t - 1].syms@.contains(c));
                        assert(((#[trigger] node_arcs@[t - 1]).to as int) == x
                            && node_arcs@[t - 1].syms@.contains(c));
                    }
                    if y == u as int && exists|t2: int|
                        0 <= t2 < t && ((#[trigger] node_arcs@[t2]).to as int) == x
                            && node_arcs@[t2].syms@.contains(c) {
                        let t2 = choose|t2: int|
                            0 <= t2 < t && ((#[trigger] node_arcs@[t2]).to as int) == x
                                && node_arcs@[t2].syms@.contains(c);
                        if t2 < t - 1 {
                            assert(exists|t3: int|
                                0 <= t3 < t - 1 && ((#[trigger] node_arcs@[t3]).to as int) == x
                                    && node_arcs@[t3].syms@.contains(c));
                            assert(row_arc_sym(row_pre, y, c));
                            assert(row_arc_sym(rev@[x]@, y, c));
                        } else {
                            let s2 = choose|s2: int|
                                0 <= s2 < node_arcs@[t2].syms@.len() && node_arcs@[t2].syms@[s2]
                                    == c;
                            assert(exists|s3: int|
                                0 <= s3 < sl && (#[trigger] node_arcs@[t as int - 1].syms@[s3])
                                    == c);
                            assert(row_arc_sym(rev@[x]@, y, c));
                        }
                    }
                } else {
                    assert(rev@[x] == rev_pre[x]);
                    if y == u as int && exists|t2: int|
                        0 <= t2 < t && ((#[trigger] node_arcs@[t2]).to as int) == x
                            && node_arcs@[t2].syms@.contains(c) {
                        let t2 = choose|t2: int|
                            0 <= t2 < t && ((#[trigger] node_arcs@[t2]).to as int) == x
                                && node_arcs@[t2].syms@.contains(c);
                        assert(t2 < t - 1);
                        assert(exists|t3: int|
                            0 <= t3 < t - 1 && ((#[trigger] node_arcs@[t3]).to as int) == x
                                && node_arcs@[t3].syms@.contains(c));
                    }
                }
            }
            assert forall|x: int, y: int|
                0 <= x < n implies (#[trigger] row_has_arc(rev@[x]@, y) <==> row_has_arc(
                    old(rev)@[x]@,
                    y,
                ) || (y == u as int && exists|t2: int|
                    0 <= t2 < t && ((#[trigger] node_arcs@[t2]).to as int) == x)) by {
                if x == tgt as int {
                    assert(sl > 0);
                    if row_has_arc(rev@[x]@, y) && !row_has_arc(row_pre, y) {
                        assert(((#[trigger] node_arcs@[t - 1]).to as int) == x);
                    }
                    if y == u as int && exists|t2: int|
                        0 <= t2 < t && ((#[trigger] node_arcs@[t2]).to as int) == x {
                        assert(row_has_arc(rev@[x]@, y));
                    }
                } else {
                    assert(rev@[x] == rev_pre[x]);
                    if y == u as int && exists|t2: int|
                        0 <= t2 < t && ((#[trigger] node_arcs@[t2]).to as int) == x {
                        let t2 = choose|t2: int|
                            0 <= t2 < t && ((#[trigger] node_arcs@[t2]).to as int) == x;
                        assert(t2 < t - 1);
                        assert(exists|t3: int|
                            0 <= t3 < t - 1 && ((#[trigger] node_arcs@[t3]).to as int) == x);
                    }
                }
            }
        }
    }
}

impl Nfa {
    /// Produces the automaton with every edge direction flipped. With
    /// several accepting nodes, a synthetic epsilon-free start node
    /// inherits the flipped outgoing edges of every old accepting node;
    /// with exactly one, that node simply becomes the start. The new accept
    /// set is the old start node, joined by the synthetic node when the old
    /// start was itself accepting.
    pub fn reverse(self) -> (r: Self)
        requires
            self.wf(),
            self.fin@.len() >= 1,
        ensures
            r.wf(),
            r.fin@.len() >= 1,
            self.fin@.len() == 1 ==> reverse_shape_single(self, r),
            self.fin@.len() > 1 ==> reverse_shape_multi(self, r),
    {
        let ghost o = self;
        let n = self.arcs.len();
        let mut rev: Vec<Vec<CharArc>> = Vec::new();
        let mut w: usize = 0;
        while w < n
            invariant
                w <= n,
                rev@.len() == w,
                forall|x: int| 0 <= x < w ==> (#[trigger] rev@[x])@.len() == 0,
            decreases n - w,
        {
            rev.push(Vec::new());
            w += 1;
        }
        let mut u: usize = 0;
        while u < n
            invariant
                u <= n,
                n == o.n(),
                o == self,
                o.wf(),
                rev@.len() == n,
                forall|x: int| 0 <= x < n ==> row_wf((#[trigger] rev@[x])@, n as int),
                forall|x: int, y: int, c: char|
                    0 <= x < n ==> (#[trigger] row_arc_sym(rev@[x]@, y, c) <==> (0 <= y < u
                        && o.char_edge(y, x, c))),
                forall|x: int, y: int|
                    0 <= x < n ==> (#[trigger] row_has_arc(rev@[x]@, y) <==> (0 <= y < u
                        && o.has_arc(y, x))),
            decreases n - u,
        {
            let ghost rev_pre = rev@;
            scatter_rev_node(&mut rev, &self.arcs[u], u, Ghost(n as int));
            u += 1;
            proof {
                assert forall|x: int, y: int, c: char|
                    0 <= x < n implies (#[trigger] row_arc_sym(rev@[x]@, y, c) <==> (0 <= y < u
                        && o.char_edge(y, x, c))) by {
                    if row_arc_sym(rev@[x]@, y, c) {
                        if row_arc_sym(rev_pre[x]@, y, c) {
                        } else {
                            assert(y == u - 1 && row_arc_sym(o.arcs@[u as int - 1]@, x, c));
                        }
                    }
                    if 0 <= y < u && o.char_edge(y, x, c) {
                        if y < u - 1 {
                            assert(row_arc_sym(rev_pre[x]@, y, c));
                        } else {
                            assert(row_arc_sym(o.arcs@[u as int - 1]@, x, c));
                        }
                    }
                }
                assert forall|x: int, y: int|
                    0 <= x < n implies (#[trigger] row_has_arc(rev@[x]@, y) <==> (0 <= y < u
                        && o.has_arc(y, x))) by {
                    if row_has_arc(rev@[x]@, y) {
                        if row_has_arc(rev_pre[x]@, y) {
                        } else {
                            assert(y == u - 1 && row_has_arc(o.arcs@[u as int - 1]@, x));
                        }
                    }
                    if 0 <= y < u && o.has_arc(y, x) {
                        if y < u - 1 {
                            assert(row_has_arc(rev_pre[x]@, y));
                        } else {
                            assert(row_has_arc(o.arcs@[u as int - 1]@, x));
                        }
                    }
                }
            }
        }
        if self.fin.len() > 1 {
            let mut new_row: Vec<CharArc> = Vec::new();
            let mut t: usize = 0;
            let fl = self.fin.len();
            while t < fl
                invariant
                    t <= fl,
                    n == o.n(),
                    o == self,
                    o.wf(),
                    fl == o.fin@.len(),
                    rev@.len() == n,
                    forall|x: int| 0 <= x < n ==> row_wf((#[trigger] rev@[x])@, n as int),
                    row_wf(new_row@, n as int),
                    forall|x: int, y: int, c: char|
                        0 <= x < n ==> (#[trigger] row_arc_sym(rev@[x]@, y, c) <==> (0 <= y < n
                            && o.char_edge(y, x, c))),
                    forall|x: int, y: int|
                        0 <= x < n ==> (#[trigger] row_has_arc(rev@[x]@, y) <==> (0 <= y < n
                            && o.has_arc(y, x))),
                    forall|y: int, c: char|
                        #[trigger] row_arc_sym(new_row@, y, c) <==> exists|t2: int|
                            0 <= t2 < t && row_arc_sym(
                                rev@[(#[trigger] o.fin@[t2]) as int]@,
                                y,
                                c,
                            ),
                    forall|y: int|
                        #[trigger] row_has_arc(new_row@, y) <==> exists|t2: int|
                            0 <= t2 < t && row_has_arc(rev@[(#[trigger] o.fin@[t2]) as int]@, y),
                decreases fl - t,
            {
                let f = self.fin[t];
                merge_rows(&mut new_row, &rev[f], Ghost(n as int));
                t += 1;
                proof {
                    assert forall|y: int, c: char|
                        #[trigger] row_arc_sym(new_row@, y, c) <==> exists|t2: int|
                            0 <= t2 < t && row_arc_sym(
                                rev@[(#[trigger] o.fin@[t2]) as int]@,
                                y,
                                c,
                            ) by {
                        if row_arc_sym(new_row@, y, c) {
                            if exists|t2: int|
                                0 <= t2 < t - 1 && row_arc_sym(
                                    rev@[(#[trigger] o.fin@[t2]) as int]@,
                                    y,
                                    c,
                                ) {
                                let t2 = choose|t2: int|
                                    0 <= t2 < t - 1 && row_arc_sym(
                                        rev@[(#[trigger] o.fin@[t2]) as int]@,
                                        y,
                                        c,
                                    );
                                assert(exists|t3: int|
                                    0 <= t3 < t && row_arc_sym(
                                        rev@[(#[trigger] o.fin@[t3]) as int]@,
                                        y,
                                        c,
                                    ));
                            } else {
                                assert(row_arc_sym(rev@[(#[trigger] o.fin@[t - 1]) as int]@, y, c));
                                assert(exists|t3: int|
                                    0 <= t3 < t && row_arc_sym(
                                        rev@[(#[trigger] o.fin@[t3]) as int]@,
                                        y,
                                        c,
                                    ));
                            }
                        }
                        if exists|t2: int|
                            0 <= t2 < t && row_arc_sym(
                                rev@[(#[trigger] o.fin@[t2]) as int]@,
                                y,
                                c,
                            ) {
                            let t2 = choose|t2: int|
                                0 <= t2 < t && row_arc_sym(
                                    rev@[(#[trigger] o.fin@[t2]) as int]@,
                                    y,
                                    c,
                                );
                            if t2 < t - 1 {
                                assert(exists|t3: int|
                                    0 <= t3 < t - 1 && row_arc_sym(
                                        rev@[(#[trigger] o.fin@[t3]) as int]@,
                                        y,
                                        c,
                                    ));
                            }
                        }
                    }
                    assert forall|y: int|
                        #[trigger] row_has_arc(new_row@, y) <==> exists|t2: int|
                            0 <= t2 < t && row_has_arc(rev@[(#[trigger] o.fin@[t2]) as int]@, y)
                    by {
                        if row_has_arc(new_row@, y) {
                            if exists|t2: int|
                                0 <= t2 < t - 1 && row_has_arc(
                                    rev@[(#[trigger] o.fin@[t2]) as int]@,
                                    y,
                                ) {
                                let t2 = choose|t2: int|
                                    0 <= t2 < t - 1 && row_has_arc(
                                        rev@[(#[trigger] o.fin@[t2]) as int]@,
                                        y,
                                    );
                                assert(exists|t3: int|
                                    0 <= t3 < t && row_has_arc(
                                        rev@[(#[trigger] o.fin@[t3]) as int]@,
                                        y,
                                    ));
                            } else {
                                assert(row_has_arc(rev@[(#[trigger] o.fin@[t - 1]) as int]@, y));
                                assert(exists|t3: int|
                                    0 <= t3 < t && row_has_arc(
                                        rev@[(#[trigger] o.fin@[t3]) as int]@,
                                        y,
                                    ));
                            }
                        }
                        if exists|t2: int|
                            0 <= t2 < t && row_has_arc(rev@[(#[trigger] o.fin@[t2]) as int]@, y) {
                            let t2 = choose|t2: int|
                                0 <= t2 < t && row_has_arc(rev@[(#[trigger] o.fin@[t2]) as int]@, y);
                            if t2 < t - 1 {
                                assert(exists|t3: int|
                                    0 <= t3 < t - 1 && row_has_arc(
                                        rev@[(#[trigger] o.fin@[t3]) as int]@,
                                        y,
                                    ));
                            }
                        }
                    }
                }
            }
            rev.push(new_row);
            let mut fin: Vec<usize> = Vec::new();
            fin.push(self.start);
            let mut has_start = false;
            let mut t: usize = 0;
            let fl = self.fin.len();
            while t < fl
                invariant
                    t <= fl,
                    o == self,
                    fl == o.fin@.len(),
                    has_start <==> exists|t2: int|
                        0 <= t2 < t && (#[trigger] o.fin@[t2]) == o.start,
                decreases fl - t,
            {
                if self.fin[t] == self.start {
                    has_start = true;
                    proof {
                        assert((#[trigger] o.fin@[t as int]) == o.start);
                    }
                }
                t += 1;
            }
            proof {
                if has_start {
                    let t2 = choose|t2: int| 0 <= t2 < fl && (#[trigger] o.fin@[t2]) == o.start;
                    assert(seq_has(o.fin@, o.start as int)) by {
                        assert(((#[trigger] o.fin@[t2]) as int) == o.start as int);
                    }
                } else {
                    if seq_has(o.fin@, o.start as int) {
                        let t2 = choose|t2: int|
                            0 <= t2 < o.fin@.len() && (((#[trigger] o.fin@[t2]) as int)
                                == o.start as int);
                        assert((#[trigger] o.fin@[t2]) == o.start);
                        assert(false);
                    }
                }
            }
            if has_start {
                fin.push(n);
            }
            let r = Nfa { arcs: rev, start: n, fin };
            proof {
                assert forall|x: int, y: int, c: char|
                    #[trigger] r.char_edge(x, y, c) <==> (x < o.n() && o.char_edge(y, x, c)) || (x
                        == o.n() && exists|f: int| #[trigger] o.is_fin(f) && o.char_edge(y, f, c))
                by {
                    if 0 <= x < n {
                        assert(r.arcs@[x] == rev@[x]);
                    } else if x == n as int {
                        if row_arc_sym(r.arcs@[x]@, y, c) {
                            let t2 = choose|t2: int|
                                0 <= t2 < fl && row_arc_sym(
                                    rev@[(#[trigger] o.fin@[t2]) as int]@,
                                    y,
                                    c,
                                );
                            let f = (o.fin@[t2]) as int;
                            assert(o.is_fin(f)) by {
                                assert(((#[trigger] o.fin@[t2]) as int) == f);
                            }
                            assert(o.char_edge(y, f, c));
                        }
                        if exists|f: int| #[trigger] o.is_fin(f) && o.char_edge(y, f, c) {
                            let f = choose|f: int| #[trigger] o.is_fin(f) && o.char_edge(y, f, c);
                            let t2 = choose|t2: int|
                                0 <= t2 < o.fin@.len() && (((#[trigger] o.fin@[t2]) as int) == f);
                            assert(row_arc_sym(rev@[f]@, y, c));
                            assert(exists|t3: int|
                                0 <= t3 < fl && row_arc_sym(
                                    rev@[(#[trigger] o.fin@[t3]) as int]@,
                                    y,
                                    c,
                                ));
                        }
                    }
                }
                assert forall|x: int, y: int|
                    #[trigger] r.has_arc(x, y) <==> (x < o.n() && o.has_arc(y, x)) || (x == o.n()
                        && exists|f: int| #[trigger] o.is_fin(f) && o.has_arc(y, f)) by {
                    if 0 <= x < n {
                        assert(r.arcs@[x] == rev@[x]);
                    } else if x == n as int {
                        if row_has_arc(r.arcs@[x]@, y) {
                            let t2 = choose|t2: int|
                                0 <= t2 < fl && row_has_arc(rev@[(#[trigger] o.fin@[t2]) as int]@, y);
                            let f = (o.fin@[t2]) as int;
                            assert(o.is_fin(f)) by {
                                assert(((#[trigger] o.fin@[t2]) as int) == f);
                            }
                            assert(o.has_arc(y, f));
                        }
                        if exists|f: int| #[trigger] o.is_fin(f) && o.has_arc(y, f) {
                            let f = choose|f: int| #[trigger] o.is_fin(f) && o.has_arc(y, f);
                            let t2 = choose|t2: int|
                                0 <= t2 < o.fin@.len() && (((#[trigger] o.fin@[t2]) as int) == f);
                            assert(row_has_arc(rev@[f]@, y));
                            assert(exists|t3: int|
                                0 <= t3 < fl && row_has_arc(
                                    rev@[(#[trigger] o.fin@[t3]) as int]@,
                                    y,
                                ));
                        }
                    }
                }
                assert(r.wf()) by {
                    assert forall|x: int| 0 <= x < r.n() implies row_wf(
                        (#[trigger] r.arcs@[x])@,
                        r.n(),
                    ) by {
                        if x < n {
                            assert(row_wf(rev@[x]@, n as int));
                            crate::graph::lemma_row_wf_mono(r.arcs@[x]@, n as int, r.n());
                        } else {
                            crate::graph::lemma_row_wf_mono(r.arcs@[x]@, n as int, r.n());
                        }
                    }
                }
            }
            r
        } else {
            let new_start = self.fin[0];
            let mut fin: Vec<usize> = Vec::new();
            fin.push(self.start);
            let r = Nfa { arcs: rev, start: new_start, fin };
            proof {
                assert forall|x: int, y: int, c: char|
                    #[trigger] r.char_edge(x, y, c) <==> o.char_edge(y, x, c) by {
                    if 0 <= x < n {
                        assert(r.arcs@[x] == rev@[x]);
                    }
                }
                assert forall|x: int, y: int| #[trigger] r.has_arc(x, y) <==> o.has_arc(y, x) by {
                    if 0 <= x < n {
                        assert(r.arcs@[x] == rev@[x]);
                    }
                }
                assert(r.wf());
            }
            r
        }
    }
}

/// Symbol `c` moves the subset to a set containing node `v`, according to
/// a per-symbol move list.
pub open spec fn move_rel(list: Seq<(char, Vec<bool>)>, c: char, v: int) -> bool {
    exists|t: int|
        0 <= t < list.len() && (#[trigger] list[t]).0 == c && 0 <= v < list[t].1@.len()
            && list[t].1@[v]
}

/// Well-formedness of a move list: masks of length `n`, one entry per
/// symbol, no empty entry.
pub open spec fn moves_wf(list: Seq<(char, Vec<bool>)>, n: int) -> bool {
    &&& forall|t: int| 0 <= t < list.len() ==> (#[trigger] list[t]).1@.len() == n
    &&& forall|t1: int, t2: int|
        0 <= t1 < t2 < list.len() ==> (#[trigger] list[t1]).0 != (#[trigger] list[t2]).0
    &&& forall|t: int|
        0 <= t < list.len() ==> mask_nonempty((#[trigger] list[t]).1@)
}

/// The subset reached from the subset `m` on symbol `c`: the union of the
/// `c`-successors of its members.
pub open spec fn move_mask(o: Nfa, m: Seq<bool>, c: char) -> Seq<bool> {
    Seq::new(
        o.n() as nat,
        |v: int|
            exists|u: int| 0 <= u < m.len() && (#[trigger] m[u]) && o.char_edge(u, v, c),
    )
}

/// The mask names at least one node.
pub open spec fn mask_nonempty(m: Seq<bool>) -> bool {
    exists|v: int| 0 <= v < m.len() && #[trigger] m[v]
}

/// The mask names at least one accepting node of `o`.
pub open spec fn mask_hits_fin(o: Nfa, m: Seq<bool>) -> bool {
    exists|f: int| 0 <= f < m.len() && m[f] && #[trigger] o.is_fin(f)
}

/// The singleton subset of the start node.
pub open spec fn start_mask(o: Nfa) -> Seq<bool> {
    Seq::new(o.n() as nat, |v: int| v == o.start as int)
}

/// `m` is one of the listed subsets.
pub open spec fn subs_has(subs: Seq<Seq<bool>>, m: Seq<bool>) -> bool {
    exists|j: int| 0 <= j < subs.len() && (#[trigger] subs[j]) == m
}

/// Subset `j` of the discovery list is the move of an earlier subset.
pub open spec fn parent_linked(o: Nfa, seen: Seq<Vec<bool>>, j: int) -> bool {
    exists|i: int, c: char|
        0 <= i < j && seen[j]@ == #[trigger] move_mask(o, seen[i]@, c)
}

/// Subset `j` is the move of an earlier subset.
pub open spec fn parent_of(o: Nfa, subs: Seq<Seq<bool>>, j: int) -> bool {
    exists|i: int, c: char| 0 <= i < j && subs[j] == #[trigger] move_mask(o, subs[i], c)
}

/// `r` is the powerset determinization of `o`, with `subs` naming the
/// discovered subsets in discovery order: subset `0` is `{start}`, every
/// later subset is the non-empty move of an earlier one, every non-empty
/// move of a discovered subset is discovered, the edges are exactly the
/// subset moves, and a subset accepts exactly when it holds an accepting
/// node.
pub open spec fn powerset_of(o: Nfa, r: Nfa, subs: Seq<Seq<bool>>) -> bool {
    &&& subs.len() == r.n()
    &&& subs.len() >= 1
    &&& forall|i: int| 0 <= i < subs.len() ==> (#[trigger] subs[i]).len() == o.n()
    &&& forall|i: int| 0 <= i < subs.len() ==> mask_nonempty(#[trigger] subs[i])
    &&& forall|i: int, j: int|
        0 <= i < j < subs.len() ==> (#[trigger] subs[i]) != (#[trigger] subs[j])
    &&& subs[0] == start_mask(o)
    &&& r.start == 0usize
    &&& forall|i: int, j: int, c: char|
        #[trigger] r.char_edge(i, j, c) <==> 0 <= i < subs.len() && 0 <= j < subs.len()
            && mask_nonempty(move_mask(o, subs[i], c)) && subs[j] == move_mask(o, subs[i], c)
    &&& forall|i: int, c: char|
        0 <= i < subs.len() && mask_nonempty(#[trigger] move_mask(o, subs[i], c)) ==> subs_has(
            subs,
            move_mask(o, subs[i], c),
        )
    &&& forall|i: int|
        #[trigger] r.is_fin(i) <==> 0 <= i < subs.len() && mask_hits_fin(o, subs[i])
    &&& forall|k1: int, k2: int|
        0 <= k1 < k2 < r.fin@.len() ==> (#[trigger] r.fin@[k1]) < (#[trigger] r.fin@[k2])
    &&& forall|j: int| 1 <= j < subs.len() ==> #[trigger] parent_of(o, subs, j)
}

/// Copies a subset mask.
fn clone_bools(v: &Vec<bool>) -> (r: Vec<bool>)
    ensures
        r@ == v@,
{
    let mut r: Vec<bool> = Vec::new();
    let mut i: usize = 0;
    while i < v.len()
        invariant
            i <= v@.len(),
            r@ == v@.subrange(0, i as int),
        decreases v@.len() - i,
    {
        r.push(v[i]);
        i += 1;
        proof {
            assert(r@ =~= v@.subrange(0, i as int));
        }
    }
    proof {
        assert(r@ =~= v@);
    }
    r
}

/// Compares two subset masks.
fn masks_equal(a: &Vec<bool>, b: &Vec<bool>) -> (r: bool)
    ensures
        r <==> a@ == b@,
{
    if a.len() != b.len() {
        proof {
            assert(a@ != b@);
        }
        return false;
    }
    let mut i: usize = 0;
    let l = a.len();
    while i < l
        invariant
            i <= l,
            l == a@.len(),
            a@.len() == b@.len(),
            forall|j: int| 0 <= j < i ==> a@[j] == b@[j],
        decreases l - i,
    {
        if a[i] != b[i] {
            return false;
        }
        i += 1;
    }
    proof {
        assert(a@ =~= b@);
    }
    true
}

/// Finds a subset among the discovered ones.
fn find_mask(seen: &Vec<Vec<bool>>, m: &Vec<bool>) -> (r: Option<usize>)
    ensures
        match r {
            Some(j) => (j as int) < seen@.len() && seen@[j as int]@ == m@,
            None => forall|j: int| 0 <= j < seen@.len() ==> (#[trigger] seen@[j])@ != m@,
        },
{
    let mut j: usize = 0;
    let l = seen.len();
    while j < l
        invariant
            j <= l,
            l == seen@.len(),
            forall|j2: int| 0 <= j2 < j ==> (#[trigger] seen@[j2])@ != m@,
        decreases l - j,
    {
        if masks_equal(&seen[j], m) {
            return Some(j);
        }
        j += 1;
    }
    None
}

/// Adds target `to` to the move of symbol `c`, materializing the entry for
/// `c` if it does not exist yet.
fn add_move(list: &mut Vec<(char, Vec<bool>)>, c: char, to: usize, n: usize)
    requires
        moves_wf(old(list)@, n as int),
        to < n,
    ensures
        moves_wf(final(list)@, n as int),
        forall|c2: char, v: int|
            #[trigger] move_rel(final(list)@, c2, v) <==> move_rel(old(list)@, c2, v) || (c2 == c
                && v == to as int),
{
    let ghost list0 = list@;
    let mut k: usize = 0;
    let l = list.len();
    loop
        invariant
            list@ == list0,
            k <= l,
            l == list@.len(),
            forall|j: int| 0 <= j < k ==> (#[trigger] list@[j]).0 != c,
        ensures
            list@ == list0,
            k <= list@.len(),
            forall|j: int| 0 <= j < k ==> (#[trigger] list@[j]).0 != c,
            k < list@.len() ==> list@[k as int].0 == c,
            k == list@.len() ==> forall|j: int|
                0 <= j < list@.len() ==> (#[trigger] list@[j]).0 != c,
        decreases l - k,
    {
        if k == l {
            break;
        }
        if list[k].0 == c {
            break;
        }
        k += 1;
    }
    if k < list.len() {
        let mut tup = list.swap_remove(k);
        let ghost mask0 = tup.1@;
        tup.1.set(to, true);
        proof {
            assert(tup.1@ =~= mask0.update(to as int, true));
            assert(mask_nonempty(tup.1@)) by {
                assert(tup.1@[to as int]);
            }
        }
        list.push(tup);
        proof {
            let lf = list@;
            assert forall|c2: char, v: int|
                #[trigger] move_rel(lf, c2, v) <==> move_rel(list0, c2, v) || (c2 == c && v
                    == to as int) by {
                if move_rel(lf, c2, v) {
                    let t = choose|t: int|
                        0 <= t < lf.len() && (#[trigger] lf[t]).0 == c2 && 0 <= v
                            < lf[t].1@.len() && lf[t].1@[v];
                    if t == lf.len() - 1 {
                        if mask0[v] {
                            assert((#[trigger] list0[k as int]).0 == c2 && 0 <= v
                                < list0[k as int].1@.len() && list0[k as int].1@[v]);
                        }
                    } else if t == k as int {
                        assert(lf[t] == list0[list0.len() - 1]);
                        assert(move_rel(list0, c2, v));
                    } else {
                        assert(lf[t] == list0[t]);
                        assert(move_rel(list0, c2, v));
                    }
                }
                if move_rel(list0, c2, v) {
                    let t = choose|t: int|
                        0 <= t < list0.len() && (#[trigger] list0[t]).0 == c2 && 0 <= v
                            < list0[t].1@.len() && list0[t].1@[v];
                    if t == k as int {
                        assert((#[trigger] lf[lf.len() - 1]).0 == c2 && lf[lf.len() - 1].1@[v]);
                    } else if t == list0.len() - 1 {
                        assert(lf[k as int] == list0[t]);
                        assert((#[trigger] lf[k as int]).0 == c2 && lf[k as int].1@[v]);
                    } else {
                        assert(lf[t] == list0[t]);
                        assert((#[trigger] lf[t]).0 == c2 && lf[t].1@[v]);
                    }
                }
                if c2 == c && v == to as int {
                    assert((#[trigger] lf[lf.len() - 1]).0 == c2 && lf[lf.len() - 1].1@[v]);
                }
            }
            assert forall|t1: int, t2: int| 0 <= t1 < t2 < list@.len() implies (
            #[trigger] list@[t1]).0 != (#[trigger] list@[t2]).0 by {
                let m = list@.len() - 1;
                if t2 == m {
                    if t1 == k as int {
                        assert(list@[t1] == list0[m]);
                    } else {
                        assert(list@[t1] == list0[t1]);
                    }
                } else if t2 == k as int {
                    assert(list@[t2] == list0[m]);
                    assert(list@[t1] == list0[t1]);
                } else if t1 == k as int {
                    assert(list@[t1] == list0[m]);
                    assert(list@[t2] == list0[t2]);
                } else {
                    assert(list@[t1] == list0[t1] && list@[t2] == list0[t2]);
                }
            }
        }
    } else {
        let mut mask: Vec<bool> = vec![false; n];
        mask.set(to, true);
        proof {
            assert(mask_nonempty(mask@)) by {
                assert(mask@[to as int]);
            }
        }
        list.push((c, mask));
        proof {
            let lf = list@;
            assert forall|c2: char, v: int|
                #[trigger] move_rel(lf, c2, v) <==> move_rel(list0, c2, v) || (c2 == c && v
                    == to as int) by {
                if move_rel(lf, c2, v) {
                    let t = choose|t: int|
                        0 <= t < lf.len() && (#[trigger] lf[t]).0 == c2 && 0 <= v
                            < lf[t].1@.len() && lf[t].1@[v];
                    if t < lf.len() - 1 {
                        assert(lf[t] == list0[t]);
                        assert(move_rel(list0, c2, v));
                    }
                }
                if move_rel(list0, c2, v) {
                    let t = choose|t: int|
                        0 <= t < list0.len() && (#[trigger] list0[t]).0 == c2 && 0 <= v
                            < list0[t].1@.len() && list0[t].1@[v];
                    assert(lf[t] == list0[t]);
                    assert((#[trigger] lf[t]).0 == c2 && lf[t].1@[v]);
                }
                if c2 == c && v == to as int {
                    assert((#[trigger] lf[lf.len() - 1]).0 == c2 && lf[lf.len() - 1].1@[v]);
                }
            }
            assert forall|t1: int, t2: int| 0 <= t1 < t2 < list@.len() implies (
            #[trigger] list@[t1]).0 != (#[trigger] list@[t2]).0 by {
                if t2 == list@.len() - 1 {
                    assert(list@[t1] == list0[t1]);
                } else {
                    assert(list@[t1] == list0[t1] && list@[t2] == list0[t2]);
                }
            }
        }
    }
}

/// Computes the per-symbol moves of one subset: for every symbol, the
/// union of the successor sets of the subset's members.
fn build_moves(arcs: &Vec<Vec<CharArc>>, m: &Vec<bool>, n: usize) -> (r: Vec<(char, Vec<bool>)>)
    requires
        arcs@.len() == n,
        forall|x: int| 0 <= x < n ==> row_wf((#[trigger] arcs@[x])@, n as int),
        m@.len() == n,
    ensures
        moves_wf(r@, n as int),
        forall|c: char, v: int|
            #[trigger] move_rel(r@, c, v) <==> exists|u: int|
                0 <= u < n && (#[trigger] m@[u]) && row_arc_sym(arcs@[u]@, v, c),
{
    let mut list: Vec<(char, Vec<bool>)> = Vec::new();
    let mut u: usize = 0;
    while u < n
        invariant
            u <= n,
            arcs@.len() == n,
            forall|x: int| 0 <= x < n ==> row_wf((#[trigger] arcs@[x])@, n as int),
            m@.len() == n,
            moves_wf(list@, n as int),
            forall|c: char, v: int|
                #[trigger] move_rel(list@, c, v) <==> exists|u2: int|
                    0 <= u2 < u && (#[trigger] m@[u2]) && row_arc_sym(arcs@[u2]@, v, c),
        decreases n - u,
    {
        let ghost list_pre = list@;
        if m[u] {
            let al = arcs[u].len();
            let mut t: usize = 0;
            while t < al
                invariant
                    t <= al,
                    u < n,
                    arcs@.len() == n,
                    forall|x: int| 0 <= x < n ==> row_wf((#[trigger] arcs@[x])@, n as int),
                    al == arcs@[u as int]@.len(),
                    moves_wf(list@, n as int),
                    forall|c: char, v: int|
                        #[trigger] move_rel(list@, c, v) <==> move_rel(list_pre, c, v) || (
                        exists|t2: int|
                            0 <= t2 < t && ((#[trigger] arcs@[u as int]@[t2]).to as int) == v
                                && arcs@[u as int]@[t2].syms@.contains(c)),
                decreases al - t,
            {
                let ghost list_t = list@;
                let to = arcs[u][t].to;
                let sl = arcs[u][t].syms.len();
                let mut s: usize = 0;
                while s < sl
                    invariant
                        s <= sl,
                        u < n,
                        t < arcs@[u as int]@.len(),
                        arcs@.len() == n,
                        forall|x: int| 0 <= x < n ==> row_wf((#[trigger] arcs@[x])@, n as int),
                        sl == arcs@[u as int]@[t as int].syms@.len(),
                        to == arcs@[u as int]@[t as int].to,
                        to < n,
                        moves_wf(list@, n as int),
                        forall|c: char, v: int|
                            #[trigger] move_rel(list@, c, v) <==> move_rel(list_t, c, v) || (v
                                == to as int && exists|s2: int|
                                0 <= s2 < s && (
                                #[trigger] arcs@[u as int]@[t as int].syms@[s2]) == c),
                    decreases sl - s,
                {
                    add_move(&mut list, arcs[u][t].syms[s], to, n);
                    s += 1;
                    proof {
                        assert forall|c: char, v: int|
                            #[trigger] move_rel(list@, c, v) <==> move_rel(list_t, c, v) || (v
                                == to as int && exists|s2: int|
                                0 <= s2 < s && (
                                #[trigger] arcs@[u as int]@[t as int].syms@[s2]) == c) by {
                            if v == to as int && c == arcs@[u as int]@[t as int].syms@[s - 1] {
                                assert((#[trigger] arcs@[u as int]@[t as int].syms@[s - 1]) == c);
                            }
                            if v == to as int && exists|s2: int|
                                0 <= s2 < s && (
                                #[trigger] arcs@[u as int]@[t as int].syms@[s2]) == c {
                                let s2 = choose|s2: int|
                                    0 <= s2 < s && (
                                    #[trigger] arcs@[u as int]@[t as int].syms@[s2]) == c;
                                if s2 < s - 1 {
                                    assert(exists|s3: int|
                                        0 <= s3 < s - 1 && (
                                        #[trigger] arcs@[u as int]@[t as int].syms@[s3]) == c);
                                }
                            }
                        }
                    }
                }
                t += 1;
                proof {
                    assert forall|c: char, v: int|
                        #[trigger] move_rel(list@, c, v) <==> move_rel(list_pre, c, v) || (
                        exists|t2: int|
                            0 <= t2 < t && ((#[trigger] arcs@[u as int]@[t2]).to as int) == v
                                && arcs@[u as int]@[t2].syms@.contains(c)) by {
                        if move_rel(list@, c, v) && !move_rel(list_t, c, v) {
                            let s2 = choose|s2: int|
                                0 <= s2 < sl && (
                                #[trigger] arcs@[u as int]@[t as int - 1].syms@[s2]) == c;
                            assert(arcs@[u as int]@[t - 1].syms@.contains(c));
                            assert(((#[trigger] arcs@[u as int]@[t - 1]).to as int) == v
                                && arcs@[u as int]@[t - 1].syms@.contains(c));
                        }
                        if exists|t2: int|
                            0 <= t2 < t && ((#[trigger] arcs@[u as int]@[t2]).to as int) == v
                                && arcs@[u as int]@[t2].syms@.contains(c) {
                            let t2 = choose|t2: int|
                                0 <= t2 < t && ((#[trigger] arcs@[u as int]@[t2]).to as int) == v
                                    && arcs@[u as int]@[t2].syms@.contains(c);
                            if t2 < t - 1 {
                                assert(exists|t3: int|
                                    0 <= t3 < t - 1 && ((
                                    #[trigger] arcs@[u as int]@[t3]).to as int) == v
                                        && arcs@[u as int]@[t3].syms@.contains(c));
                                assert(move_rel(list_t, c, v));
                            } else {
                                let s2 = choose|s2: int|
                                    0 <= s2 < arcs@[u as int]@[t2].syms@.len()
                                        && arcs@[u as int]@[t2].syms@[s2] == c;
                                assert(exists|s3: int|
                                    0 <= s3 < sl && (
                                    #[trigger] arcs@[u as int]@[t as int - 1].syms@[s3]) == c);
                            }
                            assert(move_rel(list@, c, v));
                        }
                    }
                }
            }
        }
        u += 1;
        proof {
            assert forall|c: char, v: int|
                #[trigger] move_rel(list@, c, v) <==> exists|u2: int|
                    0 <= u2 < u && (#[trigger] m@[u2]) && row_arc_sym(arcs@[u2]@, v, c) by {
                if move_rel(list@, c, v) {
                    if move_rel(list_pre, c, v) {
                        let u2 = choose|u2: int|
                            0 <= u2 < u - 1 && (#[trigger] m@[u2]) && row_arc_sym(
                                arcs@[u2]@,
                                v,
                                c,
                            );
                        assert(0 <= u2 < u && m@[u2] && row_arc_sym(arcs@[u2]@, v, c));
                    } else {
                        assert(m@[u - 1]);
                        let t2 = choose|t2: int|
                            0 <= t2 < arcs@[u as int - 1]@.len() && ((
                            #[trigger] arcs@[u as int - 1]@[t2]).to as int) == v
                                && arcs@[u as int - 1]@[t2].syms@.contains(c);
                        assert(row_arc_sym(arcs@[u as int - 1]@, v, c));
                        assert(0 <= u - 1 < u && (#[trigger] m@[u - 1]) && row_arc_sym(
                            arcs@[u as int - 1]@,
                            v,
                            c,
                        ));
                    }
                }
                if exists|u2: int|
                    0 <= u2 < u && (#[trigger] m@[u2]) && row_arc_sym(arcs@[u2]@, v, c) {
                    let u2 = choose|u2: int|
                        0 <= u2 < u && (#[trigger] m@[u2]) && row_arc_sym(arcs@[u2]@, v, c);
                    if u2 < u - 1 {
                        assert(exists|u3: int|
                            0 <= u3 < u - 1 && (#[trigger] m@[u3]) && row_arc_sym(
                                arcs@[u3]@,
                                v,
                                c,
                            ));
                        assert(move_rel(list_pre, c, v));
                    } else {
                        let t2 = choose|t2: int|
                            0 <= t2 < arcs@[u2]@.len() && ((#[trigger] arcs@[u2]@[t2]).to as int)
                                == v && arcs@[u2]@[t2].syms@.contains(c);
                        assert(exists|t3: int|
                            0 <= t3 < arcs@[u as int - 1]@.len() && ((
                            #[trigger] arcs@[u as int - 1]@[t3]).to as int) == v
                                && arcs@[u as int - 1]@[t3].syms@.contains(c));
                    }
                    assert(move_rel(list@, c, v));
                }
            }
        }
    }
    list
}

/// The whole Brzozowski chain: `a` is the reversal of `o`, `b` its
/// determinization (with subset list `subs1`), `c2` the reversal of `b`,
/// and `r` the determinization of `c2` (with subset list `subs2`).
pub open spec fn brzozowski_chain(
    o: Nfa,
    a: Nfa,
    b: Nfa,
    c2: Nfa,
    r: Nfa,
    subs1: Seq<Seq<bool>>,
    subs2: Seq<Seq<bool>>,
) -> bool {
    &&& (o.fin@.len() == 1 ==> reverse_shape_single(o, a))
    &&& (o.fin@.len() > 1 ==> reverse_shape_multi(o, a))
    &&& powerset_of(a, b, subs1)
    &&& (b.fin@.len() == 1 ==> reverse_shape_single(b, c2))
    &&& (b.fin@.len() > 1 ==> reverse_shape_multi(b, c2))
    &&& powerset_of(c2, r, subs2)
}

/// Every state of a powerset determinization is reachable from state 0:
/// each later subset is the non-empty move of an earlier one, and that
/// move is an edge of the result.
proof fn lemma_powerset_reach(o: Nfa, r: Nfa, subs: Seq<Seq<bool>>, j: int)
    requires
        powerset_of(o, r, subs),
        0 <= j < subs.len(),
    ensures
        r.nfa_reaches(r.start as int, j),
    decreases j,
{
    if j == 0 {
        crate::reach::lemma_reach_refl(r.edge_rel(), r.start as int);
    } else {
        assert(parent_of(o, subs, j));
        let (i, c) = choose|i: int, c: char|
            0 <= i < j && subs[j] == #[trigger] move_mask(o, subs[i], c);
        lemma_powerset_reach(o, r, subs, i);
        assert(mask_nonempty(move_mask(o, subs[i], c))) by {
            assert(mask_nonempty(subs[j]));
        }
        assert(r.char_edge(i, j, c));
        assert(r.has_arc(i, j)) by {
            let k = choose|k: int|
                0 <= k < r.arcs@[i]@.len() && ((#[trigger] r.arcs@[i]@[k]).to as int) == j
                    && r.arcs@[i]@[k].syms@.contains(c);
            assert(((#[trigger] r.arcs@[i]@[k]).to as int) == j);
        }
        assert(r.edge_rel()(i, j));
        crate::reach::lemma_reach_step(r.edge_rel(), r.start as int, i, j);
    }
}

/// A queue entry at or after the head equals `m`.
pub open spec fn pending_has(queue: Seq<Vec<bool>>, qhead: int, m: Seq<bool>) -> bool {
    exists|qi: int| qhead <= qi < queue.len() && (#[trigger] queue[qi])@ == m
}

impl Nfa {
    /// Standard powerset determinization: starting from the subset holding
    /// only the start node, repeatedly materializes the per-symbol moves
    /// of each newly discovered subset, assigning output node ids in
    /// discovery order. A subset accepts when it holds an accepting node.
    /// The result never has two outgoing edges on one symbol: it is a DFA.
    #[verifier::rlimit(100)]
    #[verifier::spinoff_prover]
    pub fn subset_construction(self) -> (r: Self)
        requires
            self.wf(),
        ensures
            r.wf(),
            r.deterministic(),
            r.start == 0usize,
            r.n() >= 1,
            r.all_reachable(),
            exists|subs: Seq<Seq<bool>>| #[trigger] powerset_of(self, r, subs),
            (exists|f: int| self.is_fin(f) && self.nfa_reaches(self.start as int, f))
                ==> r.fin@.len() >= 1,
    {
        let ghost o = self;
        let n = self.arcs.len();
        let mut seen: Vec<Vec<bool>> = Vec::new();
        let mut id_moves: Vec<Vec<(char, Vec<bool>)>> = Vec::new();
        let mut fin: Vec<usize> = Vec::new();
        let mut queue: Vec<Vec<bool>> = Vec::new();
        let mut qhead: usize = 0;

        let mut init: Vec<bool> = vec![false; n];
        init.set(self.start, true);
        proof {
            assert(init@ =~= start_mask(o));
            assert(mask_nonempty(init@)) by {
                assert(init@[o.start as int]);
            }
        }
        queue.push(init);

        while qhead < queue.len()
            invariant
                o == self,
                o.wf(),
                n == o.n(),
                qhead <= queue@.len(),
                forall|qi: int| 0 <= qi < queue@.len() ==> (#[trigger] queue@[qi])@.len() == n,
                forall|qi: int|
                    0 <= qi < queue@.len() ==> mask_nonempty((#[trigger] queue@[qi])@),
                forall|j: int| 0 <= j < seen@.len() ==> (#[trigger] seen@[j])@.len() == n,
                forall|j: int| 0 <= j < seen@.len() ==> mask_nonempty((#[trigger] seen@[j])@),
                forall|i: int, j: int|
                    0 <= i < j < seen@.len() ==> (#[trigger] seen@[i])@ != (#[trigger] seen@[j])@,
                seen@.len() <= crate::counting::two_to(n as nat),
                qhead == 0 ==> seen@.len() == 0 && queue@.len() == 1 && queue@[0]@ == start_mask(
                    o,
                ),
                qhead >= 1 ==> seen@.len() >= 1 && seen@[0]@ == start_mask(o),
                forall|qi: int|
                    qhead <= qi < queue@.len() ==> ((#[trigger] queue@[qi])@ == start_mask(o)
                        || exists|i: int, c: char|
                        0 <= i < seen@.len() && queue@[qi]@ == move_mask(o, seen@[i]@, c)),
                forall|j: int| 1 <= j < seen@.len() ==> #[trigger] parent_linked(o, seen@, j),
                id_moves@.len() == seen@.len(),
                forall|i: int|
                    0 <= i < seen@.len() ==> moves_wf((#[trigger] id_moves@[i])@, n as int),
                forall|i: int, c: char, v: int|
                    0 <= i < seen@.len() ==> (#[trigger] move_rel(id_moves@[i]@, c, v) <==> (0 <= v
                        < n && move_mask(o, seen@[i]@, c)[v])),
                forall|i: int, c: char|
                    0 <= i < seen@.len() && mask_nonempty(
                        #[trigger] move_mask(o, seen@[i]@, c),
                    ) ==> (subs_has(seen@.map_values(|x: Vec<bool>| x@), move_mask(o, seen@[i]@, c))
                        || pending_has(queue@, qhead as int, move_mask(o, seen@[i]@, c))),
                forall|idv: int|
                    #[trigger] seq_has(fin@, idv) <==> 0 <= idv < seen@.len() && mask_hits_fin(
                        o,
                        seen@[idv]@,
                    ),
                forall|k1: int, k2: int|
                    0 <= k1 < k2 < fin@.len() ==> (#[trigger] fin@[k1]) < (#[trigger] fin@[k2]),
                forall|k1: int|
                    0 <= k1 < fin@.len() ==> ((#[trigger] fin@[k1]) as int) < seen@.len(),
            decreases
                    crate::counting::two_to(n as nat) - seen@.len(),
                    queue@.len() - qhead,
        {
            let ghost seen_pre = seen@;
            let ghost queue_pre = queue@;
            let ghost qhead_pre = qhead as int;
            let m = clone_bools(&queue[qhead]);
            qhead += 1;
            match find_mask(&seen, &m) {
                Some(_) => {
                    proof {
                        assert forall|i: int, c: char|
                            0 <= i < seen@.len() && mask_nonempty(
                                #[trigger] move_mask(o, seen@[i]@, c),
                            ) implies (subs_has(
                            seen@.map_values(|x: Vec<bool>| x@),
                            move_mask(o, seen@[i]@, c),
                        ) || pending_has(queue@, qhead as int, move_mask(o, seen@[i]@, c))) by {
                            let mm = move_mask(o, seen@[i]@, c);
                            if pending_has(queue_pre, qhead_pre, mm) {
                                let qi = choose|qi: int|
                                    qhead_pre <= qi < queue_pre.len() && (
                                    #[trigger] queue_pre[qi])@ == mm;
                                if qi >= qhead as int {
                                    assert(pending_has(queue@, qhead as int, mm));
                                } else {
                                    assert(qi == qhead_pre);
                                    assert(m@ == mm);
                                    let j = choose|j: int|
                                        0 <= j < seen@.len() && seen@[j]@ == m@;
                                    assert(seen@.map_values(|x: Vec<bool>| x@)[j] == mm);
                                    assert(subs_has(seen@.map_values(|x: Vec<bool>| x@), mm));
                                }
                            }
                        }
                    }
                },
                None => {
                    let ghost id = seen@.len() as int;
                    proof {
                        assert forall|i: int, j: int|
                            0 <= i < j < seen@.len() + 1 implies (#[trigger] seen_pre.push(m)[i])@
                            != (#[trigger] seen_pre.push(m)[j])@ by {}
                        crate::counting::lemma_distinct_bitvecs_bound(
                            seen@.map_values(|x: Vec<bool>| x@).push(m@),
                            n as nat,
                        );
                    }
                    let moves = build_moves(&self.arcs, &m, n);
                    // Enqueue every move of the new subset.
                    let mut t: usize = 0;
                    let ml = moves.len();
                    while t < ml
                        invariant
                            t <= ml,
                            o == self,
                            o.wf(),
                            n == o.n(),
                            ml == moves@.len(),
                            m@.len() == n,
                            moves_wf(moves@, n as int),
                            forall|c: char, v: int|
                                #[trigger] move_rel(moves@, c, v) <==> (0 <= v < n && move_mask(
                                    o,
                                    m@,
                                    c,
                                )[v]),
                            queue@.len() >= queue_pre.len(),
                            forall|qi: int|
                                0 <= qi < queue_pre.len() ==> (#[trigger] queue@[qi])
                                    == queue_pre[qi],
                            forall|qi: int|
                                0 <= qi < queue@.len() ==> (#[trigger] queue@[qi])@.len() == n,
                            forall|qi: int|
                                0 <= qi < queue@.len() ==> mask_nonempty((#[trigger] queue@[qi])@),
                            forall|qi: int|
                                queue_pre.len() <= qi < queue@.len() ==> exists|c: char|
                                    (#[trigger] queue@[qi])@ == move_mask(o, m@, c),
                            forall|t2: int|
                                0 <= t2 < t ==> pending_has(
                                    queue@,
                                    qhead as int,
                                    (#[trigger] moves@[t2]).1@,
                                ),
                            qhead <= queue_pre.len(),
                        decreases ml - t,
                    {
                        let mask2 = clone_bools(&moves[t].1);
                        let ghost qpre = queue@;
                        let ghost cc = moves@[t as int].0;
                        proof {
                            // The entry's mask is exactly the move of `m` on
                            // its symbol.
                            assert(mask2@ =~= move_mask(o, m@, cc)) by {
                                assert forall|v2: int|
                                    0 <= v2 < n implies mask2@[v2] == move_mask(o, m@, cc)[v2]
                                by {
                                    if mask2@[v2] {
                                        assert(move_rel(moves@, cc, v2)) by {
                                            assert((#[trigger] moves@[t as int]).0 == cc
                                                && moves@[t as int].1@[v2]);
                                        }
                                    }
                                    if move_mask(o, m@, cc)[v2] {
                                        assert(move_rel(moves@, cc, v2));
                                        let t3 = choose|t3: int|
                                            0 <= t3 < moves@.len() && (#[trigger] moves@[t3]).0
                                                == cc && 0 <= v2 < moves@[t3].1@.len()
                                                && moves@[t3].1@[v2];
                                        assert(t3 == t as int);
                                    }
                                }
                            }
                        }
                        queue.push(mask2);
                        t += 1;
                        proof {
                            assert(queue@.drop_last() =~= qpre);
                            assert((#[trigger] queue@[queue@.len() - 1])@ == move_mask(o, m@, cc));
                            assert forall|t2: int|
                                0 <= t2 < t implies pending_has(
                                queue@,
                                qhead as int,
                                (#[trigger] moves@[t2]).1@,
                            ) by {
                                if t2 == t - 1 {
                                    assert((#[trigger] queue@[queue@.len() - 1])@
                                        == moves@[t2].1@);
                                } else {
                                    let qi = choose|qi: int|
                                        qhead as int <= qi < qpre.len() && (#[trigger] qpre[qi])@
                                            == moves@[t2].1@;
                                    assert((#[trigger] queue@[qi])@ == moves@[t2].1@);
                                }
                            }
                            assert forall|qi: int|
                                queue_pre.len() <= qi < queue@.len() implies exists|c: char|
                                    (#[trigger] queue@[qi])@ == move_mask(o, m@, c) by {
                                if qi < queue@.len() - 1 {
                                    let c2 = choose|c2: char|
                                        (#[trigger] qpre[qi])@ == move_mask(o, m@, c2);
                                    assert((#[trigger] queue@[qi])@ == move_mask(o, m@, c2));
                                }
                            }
                        }
                    }
                    // Record whether the new subset accepts.
                    let mut hit = false;
                    let mut ft: usize = 0;
                    let fl = self.fin.len();
                    while ft < fl
                        invariant
                            ft <= fl,
                            o == self,
                            o.wf(),
                            n == o.n(),
                            fl == o.fin@.len(),
                            m@.len() == n,
                            hit <==> exists|t2: int|
                                0 <= t2 < ft && m@[(#[trigger] o.fin@[t2]) as int],
                        decreases fl - ft,
                    {
                        if m[self.fin[ft]] {
                            hit = true;
                            proof {
                                assert(m@[(#[trigger] o.fin@[ft as int]) as int]);
                            }
                        }
                        ft += 1;
                        proof {
                            if !hit {
                                assert forall|t2: int| 0 <= t2 < ft implies !m@[(
                                #[trigger] o.fin@[t2]) as int] by {
                                    if t2 < ft - 1 {
                                        assert(!(exists|t3: int|
                                            0 <= t3 < ft - 1 && m@[(
                                            #[trigger] o.fin@[t3]) as int]));
                                    }
                                }
                            }
                        }
                    }
                    proof {
                        assert(hit <==> mask_hits_fin(o, m@)) by {
                            if hit {
                                let t2 = choose|t2: int|
                                    0 <= t2 < fl && m@[(#[trigger] o.fin@[t2]) as int];
                                let f = (o.fin@[t2]) as int;
                                assert(o.is_fin(f)) by {
                                    assert(((#[trigger] o.fin@[t2]) as int) == f);
                                }
                                assert(0 <= f < m@.len() && m@[f] && o.is_fin(f));
                            }
                            if mask_hits_fin(o, m@) {
                                let f = choose|f: int|
                                    0 <= f < m@.len() && m@[f] && #[trigger] o.is_fin(f);
                                let t2 = choose|t2: int|
                                    0 <= t2 < o.fin@.len() && (((#[trigger] o.fin@[t2]) as int)
                                        == f);
                                assert(exists|t3: int|
                                    0 <= t3 < fl && m@[(#[trigger] o.fin@[t3]) as int]);
                            }
                        }
                    }
                    let ghost fin_pre = fin@;
                    if hit {
                        fin.push(seen.len());
                    }
                    seen.push(m);
                    id_moves.push(moves);
                    proof {
                        assert(seen@.drop_last() =~= seen_pre);
                        // The new subset is either the initial one or the
                        // move of an earlier subset.
                        assert forall|j: int|
                            1 <= j < seen@.len() implies #[trigger] parent_linked(
                            o,
                            seen@,
                            j,
                        ) by {
                            if j < id {
                                assert(parent_linked(o, seen_pre, j));
                                let (i, c) = choose|i: int, c: char|
                                    0 <= i < j && seen_pre[j]@ == #[trigger] move_mask(
                                        o,
                                        seen_pre[i]@,
                                        c,
                                    );
                                assert(seen@[j] == seen_pre[j] && seen@[i] == seen_pre[i]);
                                assert(seen@[j]@ == move_mask(o, seen@[i]@, c));
                                assert(parent_linked(o, seen@, j));
                            } else {
                                if qhead_pre == 0 {
                                    assert(seen_pre.len() == 0);
                                    assert(j < 1);
                                    assert(false);
                                }
                                assert(j == id);
                                assert(m@ == queue_pre[qhead_pre]@);
                                if m@ == start_mask(o) {
                                    assert(seen_pre[0]@ == start_mask(o));
                                    assert(seen_pre[0]@ == m@);
                                    assert(false);
                                } else {
                                    assert(exists|i: int, c: char|
                                        0 <= i < seen_pre.len() && queue_pre[qhead_pre]@
                                            == move_mask(o, seen_pre[i]@, c));
                                    let (i, c) = choose|i: int, c: char|
                                        0 <= i < seen_pre.len() && queue_pre[qhead_pre]@
                                            == move_mask(o, seen_pre[i]@, c);
                                    assert(seen@[i] == seen_pre[i]);
                                    assert(seen@[j]@ == move_mask(o, seen@[i]@, c));
                                    assert(parent_linked(o, seen@, j));
                                }
                            }
                        }
                        assert(seen@.map_values(|x: Vec<bool>| x@) =~= seen_pre.map_values(
                            |x: Vec<bool>| x@,
                        ).push(seen@[id]@));
                        assert forall|idv: int|
                            #[trigger] seq_has(fin@, idv) <==> 0 <= idv < seen@.len()
                                && mask_hits_fin(o, seen@[idv]@) by {
                            if seq_has(fin@, idv) {
                                let j = choose|j: int|
                                    0 <= j < fin@.len() && (((#[trigger] fin@[j]) as int) == idv);
                                if j < fin_pre.len() {
                                    assert(seq_has(fin_pre, idv));
                                    assert(seen@[idv] == seen_pre[idv]);
                                } else {
                                    assert(idv == id);
                                }
                            }
                            if 0 <= idv < seen@.len() && mask_hits_fin(o, seen@[idv]@) {
                                if idv < id {
                                    assert(seen@[idv] == seen_pre[idv]);
                                    assert(seq_has(fin_pre, idv));
                                    let j = choose|j: int|
                                        0 <= j < fin_pre.len() && (((#[trigger] fin_pre[j]) as int)
                                            == idv);
                                    assert(((fin@[j]) as int) == idv);
                                    assert(seq_has(fin@, idv));
                                } else {
                                    assert(idv == id);
                                    assert(hit);
                                    assert(((fin@[fin@.len() - 1]) as int) == idv);
                                    assert(seq_has(fin@, idv));
                                }
                            }
                        }
                        // The pending-or-discovered property for the grown state.
                        assert forall|i: int, c: char|
                            0 <= i < seen@.len() && mask_nonempty(
                                #[trigger] move_mask(o, seen@[i]@, c),
                            ) implies (subs_has(
                            seen@.map_values(|x: Vec<bool>| x@),
                            move_mask(o, seen@[i]@, c),
                        ) || pending_has(queue@, qhead as int, move_mask(o, seen@[i]@, c))) by {
                            let mm = move_mask(o, seen@[i]@, c);
                            let sv = seen@.map_values(|x: Vec<bool>| x@);
                            if i < id {
                                assert(seen@[i] == seen_pre[i]);
                                let svp = seen_pre.map_values(|x: Vec<bool>| x@);
                                if subs_has(svp, mm) {
                                    let j = choose|j: int|
                                        0 <= j < svp.len() && (#[trigger] svp[j]) == mm;
                                    assert((#[trigger] sv[j]) == mm);
                                    assert(subs_has(sv, mm));
                                } else if pending_has(queue_pre, qhead_pre, mm) {
                                    let qi = choose|qi: int|
                                        qhead_pre <= qi < queue_pre.len() && (
                                        #[trigger] queue_pre[qi])@ == mm;
                                    if qi == qhead_pre {
                                        assert(m@ == mm);
                                        assert((#[trigger] sv[id]) == mm);
                                        assert(subs_has(sv, mm));
                                    } else {
                                        assert((#[trigger] queue@[qi])@ == mm);
                                        assert(pending_has(queue@, qhead as int, mm));
                                    }
                                }
                            } else {
                                assert(i == id);
                                assert(seen@[id]@ == m@);
                                // Every non-empty move of the new subset was
                                // enqueued above.
                                let v = choose|v: int| 0 <= v < mm.len() && #[trigger] mm[v];
                                assert(move_rel(id_moves@[id]@, c, v));
                                let t2 = choose|t2: int|
                                    0 <= t2 < id_moves@[id]@.len() && (
                                    #[trigger] id_moves@[id]@[t2]).0 == c && 0 <= v
                                        < id_moves@[id]@[t2].1@.len() && id_moves@[id]@[t2].1@[v];
                                assert(pending_has(queue@, qhead as int, id_moves@[id]@[t2].1@));
                                // That entry's mask is exactly the move.
                                assert(id_moves@[id]@[t2].1@ =~= mm) by {
                                    assert forall|v2: int|
                                        0 <= v2 < n implies id_moves@[id]@[t2].1@[v2] == mm[v2]
                                    by {
                                        if id_moves@[id]@[t2].1@[v2] {
                                            assert(move_rel(id_moves@[id]@, c, v2));
                                        }
                                        if mm[v2] {
                                            assert(move_rel(id_moves@[id]@, c, v2));
                                            let t3 = choose|t3: int|
                                                0 <= t3 < id_moves@[id]@.len() && (
                                                #[trigger] id_moves@[id]@[t3]).0 == c && 0 <= v2
                                                    < id_moves@[id]@[t3].1@.len()
                                                    && id_moves@[id]@[t3].1@[v2];
                                            assert(t3 == t2);
                                        }
                                    }
                                }
                            }
                        }
                        // Move relations of the new subset match its mask.
                        assert forall|i: int, c: char, v: int|
                            0 <= i < seen@.len() implies (#[trigger] move_rel(id_moves@[i]@, c, v)
                            <==> (0 <= v < n && move_mask(o, seen@[i]@, c)[v])) by {
                            if i < id {
                                assert(seen@[i] == seen_pre[i]);
                            }
                        }
                    }
                },
            }
        }

        // Materialize the deterministic graph: one row per discovered
        // subset, one edge per symbol move.
        let ghost subs = seen@.map_values(|x: Vec<bool>| x@);
        let total = seen.len();
        proof {
            assert forall|i: int, c: char|
                0 <= i < subs.len() && mask_nonempty(#[trigger] move_mask(o, subs[i], c)) implies
                subs_has(subs, move_mask(o, subs[i], c)) by {
                assert(!pending_has(queue@, qhead as int, move_mask(o, seen@[i]@, c)));
            }
        }
        let mut new_arcs: Vec<Vec<CharArc>> = Vec::new();
        let mut id: usize = 0;
        while id < total
            invariant
                id <= total,
                o.wf(),
                n == o.n(),
                total == seen@.len(),
                subs == seen@.map_values(|x: Vec<bool>| x@),
                forall|j: int| 0 <= j < seen@.len() ==> (#[trigger] seen@[j])@.len() == n,
                forall|i: int, j: int|
                    0 <= i < j < seen@.len() ==> (#[trigger] seen@[i])@ != (#[trigger] seen@[j])@,
                id_moves@.len() == total,
                forall|i: int|
                    0 <= i < total ==> moves_wf((#[trigger] id_moves@[i])@, n as int),
                forall|i: int, c: char, v: int|
                    0 <= i < total ==> (#[trigger] move_rel(id_moves@[i]@, c, v) <==> (0 <= v < n
                        && move_mask(o, seen@[i]@, c)[v])),
                forall|i: int, c: char|
                    0 <= i < subs.len() && mask_nonempty(#[trigger] move_mask(o, subs[i], c))
                        ==> subs_has(subs, move_mask(o, subs[i], c)),
                new_arcs@.len() == id,
                forall|i: int| 0 <= i < id ==> row_wf((#[trigger] new_arcs@[i])@, total as int),
                forall|i: int, j: int, c: char|
                    0 <= i < id ==> (#[trigger] row_arc_sym(new_arcs@[i]@, j, c) <==> (0 <= j
                        < subs.len() && mask_nonempty(move_mask(o, subs[i], c)) && subs[j]
                        == move_mask(o, subs[i], c))),
            decreases total - id,
        {
            let mut row: Vec<CharArc> = Vec::new();
            let mut t: usize = 0;
            let ml = id_moves[id].len();
            while t < ml
                invariant
                    t <= ml,
                    id < total,
                    o.wf(),
                    n == o.n(),
                    total == seen@.len(),
                    subs == seen@.map_values(|x: Vec<bool>| x@),
                    forall|j: int| 0 <= j < seen@.len() ==> (#[trigger] seen@[j])@.len() == n,
                    forall|i: int, j: int|
                        0 <= i < j < seen@.len() ==> (#[trigger] seen@[i])@ != (
                        #[trigger] seen@[j])@,
                    id_moves@.len() == total,
                    ml == id_moves@[id as int]@.len(),
                    moves_wf(id_moves@[id as int]@, n as int),
                    forall|c: char, v: int|
                        #[trigger] move_rel(id_moves@[id as int]@, c, v) <==> (0 <= v < n
                            && move_mask(o, seen@[id as int]@, c)[v]),
                    forall|i: int, c: char|
                        0 <= i < subs.len() && mask_nonempty(#[trigger] move_mask(o, subs[i], c))
                            ==> subs_has(subs, move_mask(o, subs[i], c)),
                    row_wf(row@, total as int),
                    forall|j: int, c: char|
                        #[trigger] row_arc_sym(row@, j, c) <==> exists|t2: int|
                            0 <= t2 < t && (#[trigger] id_moves@[id as int]@[t2]).0 == c && 0 <= j
                                < subs.len() && subs[j] == id_moves@[id as int]@[t2].1@,
                decreases ml - t,
            {
                let c = id_moves[id][t].0;
                let ghost mm = id_moves@[id as int]@[t as int].1@;
                proof {
                    // The entry's mask is a non-empty move of this subset,
                    // so it was discovered.
                    let v = choose|v: int| 0 <= v < mm.len() && #[trigger] mm[v];
                    assert(move_rel(id_moves@[id as int]@, c, v)) by {
                        assert((#[trigger] id_moves@[id as int]@[t as int]).0 == c
                            && id_moves@[id as int]@[t as int].1@[v]);
                    }
                    assert(mm =~= move_mask(o, seen@[id as int]@, c)) by {
                        assert forall|v2: int|
                            0 <= v2 < n implies mm[v2] == move_mask(o, seen@[id as int]@, c)[v2]
                        by {
                            if mm[v2] {
                                assert(move_rel(id_moves@[id as int]@, c, v2)) by {
                                    assert((#[trigger] id_moves@[id as int]@[t as int]).0 == c
                                        && id_moves@[id as int]@[t as int].1@[v2]);
                                }
                            }
                            if move_mask(o, seen@[id as int]@, c)[v2] {
                                assert(move_rel(id_moves@[id as int]@, c, v2));
                                let t3 = choose|t3: int|
                                    0 <= t3 < id_moves@[id as int]@.len() && (
                                    #[trigger] id_moves@[id as int]@[t3]).0 == c && 0 <= v2
                                        < id_moves@[id as int]@[t3].1@.len()
                                        && id_moves@[id as int]@[t3].1@[v2];
                                assert(t3 == t as int);
                            }
                        }
                    }
                    assert(mask_nonempty(move_mask(o, subs[id as int], c)));
                    assert(subs_has(subs, move_mask(o, subs[id as int], c)));
                }
                let j = match find_mask(&seen, &id_moves[id][t].1) {
                    Some(j) => j,
                    None => {
                        proof {
                            let j2 = choose|j2: int|
                                0 <= j2 < subs.len() && (#[trigger] subs[j2]) == move_mask(
                                    o,
                                    subs[id as int],
                                    c,
                                );
                            assert(seen@[j2]@ == mm);
                            assert(false);
                        }
                        0
                    },
                };
                let ghost row_pre = row@;
                merge_arc_sym(&mut row, j, c, Ghost(total as int));
                t += 1;
                proof {
                    assert(seen@[j as int]@ == mm);
                    assert forall|j2: int, c2: char|
                        #[trigger] row_arc_sym(row@, j2, c2) <==> exists|t2: int|
                            0 <= t2 < t && (#[trigger] id_moves@[id as int]@[t2]).0 == c2 && 0 <= j2
                                < subs.len() && subs[j2] == id_moves@[id as int]@[t2].1@ by {
                        if row_arc_sym(row@, j2, c2) && !row_arc_sym(row_pre, j2, c2) {
                            assert(j2 == j as int && c2 == c);
                            assert((#[trigger] id_moves@[id as int]@[t - 1]).0 == c2
                                && subs[j2] == id_moves@[id as int]@[t - 1].1@);
                        }
                        if exists|t2: int|
                            0 <= t2 < t && (#[trigger] id_moves@[id as int]@[t2]).0 == c2 && 0 <= j2
                                < subs.len() && subs[j2] == id_moves@[id as int]@[t2].1@ {
                            let t2 = choose|t2: int|
                                0 <= t2 < t && (#[trigger] id_moves@[id as int]@[t2]).0 == c2 && 0
                                    <= j2 < subs.len() && subs[j2] == id_moves@[id as int]@[t2].1@;
                            if t2 < t - 1 {
                                assert(exists|t3: int|
                                    0 <= t3 < t - 1 && (#[trigger] id_moves@[id as int]@[t3]).0
                                        == c2 && 0 <= j2 < subs.len() && subs[j2]
                                        == id_moves@[id as int]@[t3].1@);
                                assert(row_arc_sym(row_pre, j2, c2));
                            } else {
                                assert(c2 == c);
                                assert(subs[j2] == mm && subs[j as int] == mm);
                                assert(j2 == j as int);
                                assert(row_arc_sym(row@, j2, c2));
                            }
                        }
                    }
                }
            }
            new_arcs.push(row);
            id += 1;
            proof {
                assert forall|i: int, j: int, c: char|
                    0 <= i < id implies (#[trigger] row_arc_sym(new_arcs@[i]@, j, c) <==> (0 <= j
                        < subs.len() && mask_nonempty(move_mask(o, subs[i], c)) && subs[j]
                        == move_mask(o, subs[i], c))) by {
                    if i < id - 1 {
                        assert(new_arcs@[i] == new_arcs@.drop_last()[i]);
                    } else {
                        if row_arc_sym(new_arcs@[i]@, j, c) {
                            let t2 = choose|t2: int|
                                0 <= t2 < id_moves@[i]@.len() && (#[trigger] id_moves@[i]@[t2]).0
                                    == c && 0 <= j < subs.len() && subs[j] == id_moves@[i]@[t2].1@;
                            let mm2 = id_moves@[i]@[t2].1@;
                            assert(mask_nonempty(mm2));
                            let v = choose|v: int| 0 <= v < mm2.len() && #[trigger] mm2[v];
                            assert(move_rel(id_moves@[i]@, c, v)) by {
                                assert((#[trigger] id_moves@[i]@[t2]).0 == c
                                    && id_moves@[i]@[t2].1@[v]);
                            }
                            assert(mm2 =~= move_mask(o, subs[i], c)) by {
                                assert forall|v2: int|
                                    0 <= v2 < n implies mm2[v2] == move_mask(o, subs[i], c)[v2]
                                by {
                                    if mm2[v2] {
                                        assert(move_rel(id_moves@[i]@, c, v2)) by {
                                            assert((#[trigger] id_moves@[i]@[t2]).0 == c
                                                && id_moves@[i]@[t2].1@[v2]);
                                        }
                                    }
                                    if move_mask(o, subs[i], c)[v2] {
                                        assert(move_rel(id_moves@[i]@, c, v2));
                                        let t3 = choose|t3: int|
                                            0 <= t3 < id_moves@[i]@.len() && (
                                            #[trigger] id_moves@[i]@[t3]).0 == c && 0 <= v2
                                                < id_moves@[i]@[t3].1@.len()
                                                && id_moves@[i]@[t3].1@[v2];
                                        assert(t3 == t2);
                                    }
                                }
                            }
                        }
                        if 0 <= j < subs.len() && mask_nonempty(move_mask(o, subs[i], c))
                            && subs[j] == move_mask(o, subs[i], c) {
                            let mm2 = move_mask(o, subs[i], c);
                            let v = choose|v: int| 0 <= v < mm2.len() && #[trigger] mm2[v];
                            assert(move_rel(id_moves@[i]@, c, v));
                            let t2 = choose|t2: int|
                                0 <= t2 < id_moves@[i]@.len() && (#[trigger] id_moves@[i]@[t2]).0
                                    == c && 0 <= v < id_moves@[i]@[t2].1@.len()
                                    && id_moves@[i]@[t2].1@[v];
                            assert(id_moves@[i]@[t2].1@ =~= mm2) by {
                                assert forall|v2: int|
                                    0 <= v2 < n implies id_moves@[i]@[t2].1@[v2] == mm2[v2] by {
                                    if id_moves@[i]@[t2].1@[v2] {
                                        assert(move_rel(id_moves@[i]@, c, v2)) by {
                                            assert((#[trigger] id_moves@[i]@[t2]).0 == c
                                                && id_moves@[i]@[t2].1@[v2]);
                                        }
                                    }
                                    if mm2[v2] {
                                        assert(move_rel(id_moves@[i]@, c, v2));
                                        let t3 = choose|t3: int|
                                            0 <= t3 < id_moves@[i]@.len() && (
                                            #[trigger] id_moves@[i]@[t3]).0 == c && 0 <= v2
                                                < id_moves@[i]@[t3].1@.len()
                                                && id_moves@[i]@[t3].1@[v2];
                                        assert(t3 == t2);
                                    }
                                }
                            }
                            assert(exists|t3: int|
                                0 <= t3 < id_moves@[i]@.len() && (#[trigger] id_moves@[i]@[t3]).0
                                    == c && 0 <= j < subs.len() && subs[j]
                                    == id_moves@[i]@[t3].1@);
                            assert(row_arc_sym(new_arcs@[i]@, j, c));
                        }
                    }
                }
            }
        }

        let r = Nfa { arcs: new_arcs, start: 0, fin };
        proof {
            assert(r.n() == subs.len());
            assert(subs.len() >= 1);
            assert forall|i: int, j: int, c: char|
                #[trigger] r.char_edge(i, j, c) <==> 0 <= i < subs.len() && 0 <= j < subs.len()
                    && mask_nonempty(move_mask(o, subs[i], c)) && subs[j] == move_mask(
                    o,
                    subs[i],
                    c,
                ) by {}
            assert forall|i: int|
                #[trigger] r.is_fin(i) <==> 0 <= i < subs.len() && mask_hits_fin(o, subs[i])
            by {
                if r.is_fin(i) {
                    assert(seq_has(fin@, i));
                }
                if 0 <= i < subs.len() && mask_hits_fin(o, subs[i]) {
                    assert(seq_has(fin@, i));
                }
            }
            assert(r.wf()) by {
                assert forall|j: int| 0 <= j < r.fin@.len() implies ((#[trigger] r.fin@[j]) as int)
                    < r.n() by {}
            }
            assert(r.deterministic()) by {
                assert forall|u: int, v1: int, v2: int, c: char|
                    #[trigger] r.char_edge(u, v1, c) && #[trigger] r.char_edge(u, v2, c) implies v1
                    == v2 by {
                    assert(subs[v1] == subs[v2]);
                }
            }
            assert forall|i: int| 0 <= i < subs.len() implies mask_nonempty(
                #[trigger] subs[i],
            ) by {
                assert(subs[i] == seen@[i]@);
                assert(mask_nonempty(seen@[i]@));
            }
            assert forall|j: int| 1 <= j < subs.len() implies #[trigger] parent_of(
                o,
                subs,
                j,
            ) by {
                assert(parent_linked(o, seen@, j));
                let (i, c) = choose|i: int, c: char|
                    0 <= i < j && seen@[j]@ == #[trigger] move_mask(o, seen@[i]@, c);
                assert(subs[j] == seen@[j]@ && subs[i] == seen@[i]@);
                assert(subs[j] == move_mask(o, subs[i], c));
                assert(parent_of(o, subs, j));
            }
            assert(powerset_of(o, r, subs));
            assert forall|v: int| 0 <= v < r.n() implies r.nfa_reaches(r.start as int, v) by {
                lemma_powerset_reach(o, r, subs, v);
            }
            // If some accepting node is reachable, some discovered subset
            // holds an accepting node.
            if exists|f: int| o.is_fin(f) && o.nfa_reaches(o.start as int, f) {
                let f = choose|f: int| o.is_fin(f) && o.nfa_reaches(o.start as int, f);
                assert(0 <= f < n) by {
                    let kf = choose|kf: int|
                        0 <= kf < o.fin@.len() && (((#[trigger] o.fin@[kf]) as int) == f);
                }
                let covered = Set::new(
                    |v: int| exists|i: int| 0 <= i < subs.len() && 0 <= v < n && (#[trigger] subs[i])[v],
                );
                assert(covered.contains(o.start as int)) by {
                    assert((#[trigger] subs[0])[o.start as int]);
                }
                assert forall|a2: int, b2: int|
                    covered.contains(a2) && #[trigger] o.edge_rel()(a2, b2) implies covered.contains(
                    b2,
                ) by {
                    let i = choose|i: int|
                        0 <= i < subs.len() && 0 <= a2 < n && (#[trigger] subs[i])[a2];
                    assert(o.has_arc(a2, b2));
                    let s = choose|s: int|
                        0 <= s < o.arcs@[a2]@.len() && (((#[trigger] o.arcs@[a2]@[s]).to as int)
                            == b2);
                    let c = o.arcs@[a2]@[s].syms@[0];
                    assert(o.arcs@[a2]@[s].syms@.contains(c)) by {
                        assert(row_wf(o.arcs@[a2]@, n as int));
                    }
                    assert(o.char_edge(a2, b2, c)) by {
                        assert(((#[trigger] o.arcs@[a2]@[s]).to as int) == b2
                            && o.arcs@[a2]@[s].syms@.contains(c));
                    }
                    assert(0 <= b2 < n) by {
                        assert(row_wf(o.arcs@[a2]@, n as int));
                    }
                    let mm = move_mask(o, subs[i], c);
                    assert(mm[b2]) by {
                        assert(0 <= a2 < subs[i].len() && (#[trigger] subs[i][a2])
                            && o.char_edge(a2, b2, c));
                    }
                    assert(mask_nonempty(mm)) by {
                        assert(0 <= b2 < mm.len() && mm[b2]);
                    }
                    assert(subs_has(subs, mm));
                    let j = choose|j: int| 0 <= j < subs.len() && (#[trigger] subs[j]) == mm;
                    assert((#[trigger] subs[j])[b2]);
                }
                crate::reach::lemma_reach_closed(o.edge_rel(), covered, o.start as int, f);
                let i = choose|i: int|
                    0 <= i < subs.len() && 0 <= f < n && (#[trigger] subs[i])[f];
                assert(mask_hits_fin(o, subs[i])) by {
                    assert(0 <= f < subs[i].len() && subs[i][f] && o.is_fin(f));
                }
                assert(r.is_fin(i));
                assert(seq_has(r.fin@, i));
                assert(r.fin@.len() >= 1);
            }
        }
        r
    }
}

/// In the reversal of a pruned automaton that accepts somewhere, some
/// accepting node is reachable from the new start, so the determinization
/// that follows keeps an accept state.
proof fn lemma_reverse_accept_reach(o: Nfa, a: Nfa)
    requires
        o.wf(),
        o.fin@.len() >= 1,
        o.all_reachable(),
        o.fin@.len() == 1 ==> reverse_shape_single(o, a),
        o.fin@.len() > 1 ==> reverse_shape_multi(o, a),
    ensures
        exists|f: int| a.is_fin(f) && a.nfa_reaches(a.start as int, f),
{
    if o.fin@.len() == 1 {
        let f0 = (o.fin@[0]) as int;
        assert(0 <= f0 < o.n()) by {
            assert(((#[trigger] o.fin@[0]) as int) == f0);
        }
        assert(o.nfa_reaches(o.start as int, f0));
        crate::reach::lemma_reach_flip(o.edge_rel(), a.edge_rel(), o.start as int, f0);
        assert(a.is_fin(o.start as int)) by {
            assert(((#[trigger] a.fin@[0]) as int) == o.start as int);
        }
        assert(a.nfa_reaches(a.start as int, o.start as int));
    } else {
        if o.is_fin(o.start as int) {
            let f = (a.fin@[1]) as int;
            assert(f == o.n());
            crate::reach::lemma_reach_refl(a.edge_rel(), a.start as int);
            assert(a.is_fin(f)) by {
                assert(((#[trigger] a.fin@[1]) as int) == f);
            }
            assert(a.nfa_reaches(a.start as int, f));
        } else {
            let f0 = (o.fin@[0]) as int;
            assert(0 <= f0 < o.n()) by {
                assert(((#[trigger] o.fin@[0]) as int) == f0);
            }
            assert(o.is_fin(f0)) by {
                assert(((#[trigger] o.fin@[0]) as int) == f0);
            }
            assert(o.nfa_reaches(o.start as int, f0));
            assert(f0 != o.start as int);
            crate::reach::lemma_reach_last(o.edge_rel(), o.start as int, f0);
            let x = choose|x: int|
                reaches(o.edge_rel(), o.start as int, x) && #[trigger] o.edge_rel()(x, f0);
            assert(o.has_arc(x, f0));
            assert(a.has_arc(o.n(), x)) by {
                assert(exists|f: int| #[trigger] o.is_fin(f) && o.has_arc(x, f));
            }
            crate::reach::lemma_reach_flip(o.edge_rel(), a.edge_rel(), o.start as int, x);
            crate::reach::lemma_reach_prepend(a.edge_rel(), a.start as int, x, o.start as int);
            assert(a.is_fin(o.start as int)) by {
                assert(((#[trigger] a.fin@[0]) as int) == o.start as int);
            }
            assert(a.nfa_reaches(a.start as int, o.start as int));
        }
    }
}

impl Nfa {
    /// Brzozowski minimization: reverse, determinize, reverse, determinize.
    /// The input must already be pruned (every node reachable from the
    /// start) and must accept somewhere; the result is a DFA.
    pub fn minimized_dfa(self) -> (r: Self)
        requires
            self.wf(),
            self.fin@.len() >= 1,
            self.all_reachable(),
        ensures
            r.wf(),
            r.deterministic(),
            r.start == 0usize,
            r.n() >= 1,
            r.all_reachable(),
            r.fin@.len() >= 1,
            exists|a: Nfa, b: Nfa, c2: Nfa, subs1: Seq<Seq<bool>>, subs2: Seq<Seq<bool>>|
                #[trigger] brzozowski_chain(self, a, b, c2, r, subs1, subs2),
    {
        let ghost o = self;
        let a = self.reverse();
        proof {
            lemma_reverse_accept_reach(o, a);
        }
        let b = a.subset_construction();
        let c2 = b.reverse();
        proof {
            lemma_reverse_accept_reach(b, c2);
        }
        let r = c2.subset_construction();
        proof {
            let subs1 = choose|subs1: Seq<Seq<bool>>| #[trigger] powerset_of(a, b, subs1);
            let subs2 = choose|subs2: Seq<Seq<bool>>| #[trigger] powerset_of(c2, r, subs2);
            assert(brzozowski_chain(o, a, b, c2, r, subs1, subs2));
        }
        r
    }

    /// Minimizes a pruned automaton without consuming it.
    pub fn get_minimized_dfa(&self) -> (r: Nfa)
        requires
            self.wf(),
            self.fin@.len() >= 1,
            self.all_reachable(),
        ensures
            r.wf(),
            r.deterministic(),
            r.start == 0usize,
            r.n() >= 1,
            r.all_reachable(),
            r.fin@.len() >= 1,
            exists|a: Nfa, b: Nfa, c2: Nfa, subs1: Seq<Seq<bool>>, subs2: Seq<Seq<bool>>|
                #[trigger] brzozowski_chain(*self, a, b, c2, r, subs1, subs2),
    {
        let copy = self.clone();
        proof {
            assert(copy.all_reachable()) by {
                assert forall|v: int|
                    0 <= v < copy.n() implies copy.nfa_reaches(copy.start as int, v) by {
                    assert(self.nfa_reaches(self.start as int, v));
                    assert forall|x: int, y: int| #[trigger] self.edge_rel()(x, y) implies (
                    |q: int| q)(x) == (|q: int| q)(y) || copy.edge_rel()((|q: int| q)(x), (
                    |q: int| q)(y)) by {
                        assert(copy.has_arc(x, y));
                    }
                    crate::reach::lemma_reach_condense(
                        self.edge_rel(),
                        copy.edge_rel(),
                        |q: int| q,
                        self.start as int,
                        v,
                    );
                }
            }
        }
        let r = copy.minimized_dfa();
        proof {
            let (a, b, c2, subs1, subs2) = choose|
                a: Nfa,
                b: Nfa,
                c2: Nfa,
                subs1: Seq<Seq<bool>>,
                subs2: Seq<Seq<bool>>,
            | #[trigger] brzozowski_chain(copy, a, b, c2, r, subs1, subs2);
            assert(copy.fin@ == self.fin@);
            assert(brzozowski_chain(*self, a, b, c2, r, subs1, subs2)) by {
                if self.fin@.len() == 1 {
                    assert(reverse_shape_single(copy, a));
                    assert(reverse_shape_single(*self, a)) by {
                        assert forall|u: int, v: int, c: char|
                            #[trigger] a.char_edge(u, v, c) <==> self.char_edge(v, u, c) by {
                            assert(a.char_edge(u, v, c) <==> copy.char_edge(v, u, c));
                        }
                        assert forall|u: int, v: int|
                            #[trigger] a.has_arc(u, v) <==> self.has_arc(v, u) by {
                            assert(a.has_arc(u, v) <==> copy.has_arc(v, u));
                        }
                    }
                } else {
                    assert(reverse_shape_multi(copy, a));
                    assert(reverse_shape_multi(*self, a)) by {
                        assert(copy.is_fin(copy.start as int) <==> self.is_fin(self.start as int));
                        assert forall|u: int, v: int, c: char|
                            #[trigger] a.char_edge(u, v, c) <==> ((u < self.n() && self.char_edge(
                                v,
                                u,
                                c,
                            )) || (u == self.n() && exists|f: int|
                                #[trigger] self.is_fin(f) && self.char_edge(v, f, c))) by {
                            assert(a.char_edge(u, v, c) <==> ((u < copy.n() && copy.char_edge(
                                v,
                                u,
                                c,
                            )) || (u == copy.n() && exists|f: int|
                                #[trigger] copy.is_fin(f) && copy.char_edge(v, f, c))));
                            if u == self.n() {
                                if exists|f: int| #[trigger] copy.is_fin(f) && copy.char_edge(v, f, c) {
                                    let f = choose|f: int|
                                        #[trigger] copy.is_fin(f) && copy.char_edge(v, f, c);
                                    assert(self.is_fin(f) && self.char_edge(v, f, c));
                                }
                                if exists|f: int| #[trigger] self.is_fin(f) && self.char_edge(v, f, c) {
                                    let f = choose|f: int|
                                        #[trigger] self.is_fin(f) && self.char_edge(v, f, c);
                                    assert(copy.is_fin(f) && copy.char_edge(v, f, c));
                                }
                            }
                        }
                        assert forall|u: int, v: int|
                            #[trigger] a.has_arc(u, v) <==> ((u < self.n() && self.has_arc(v, u))
                                || (u == self.n() && exists|f: int|
                                #[trigger] self.is_fin(f) && self.has_arc(v, f))) by {
                            assert(a.has_arc(u, v) <==> ((u < copy.n() && copy.has_arc(v, u)) || (u
                                == copy.n() && exists|f: int|
                                #[trigger] copy.is_fin(f) && copy.has_arc(v, f))));
                            if u == self.n() {
                                if exists|f: int| #[trigger] copy.is_fin(f) && copy.has_arc(v, f) {
                                    let f = choose|f: int|
                                        #[trigger] copy.is_fin(f) && copy.has_arc(v, f);
                                    assert(self.is_fin(f) && self.has_arc(v, f));
                                }
                                if exists|f: int| #[trigger] self.is_fin(f) && self.has_arc(v, f) {
                                    let f = choose|f: int|
                                        #[trigger] self.is_fin(f) && self.has_arc(v, f);
                                    assert(copy.is_fin(f) && copy.has_arc(v, f));
                                }
                            }
                        }
                    }
                }
            }
        }
        r
    }
}

} // verus!
