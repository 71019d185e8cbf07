//! The representation exporter: rendering an automaton into a textual
//! graph description with its start and accept ids.

use crate::enfa::{ENfa, ENfaNode};
use crate::graph::{clone_ids, CharArc};
use crate::nfa::Nfa;
use vstd::prelude::*;
use vstd::string::StrSliceExecFns;

verus! {

/// The decimal digits of `v`, most significant first.
pub open spec fn dec(v: nat) -> Seq<char>
    decreases v,
{
    if v < 10 {
        seq![((48 + v) as u8) as char]
    } else {
        dec(v / 10) + seq![((48 + v % 10) as u8) as char]
    }
}

/// One node statement of the graph description.
pub open spec fn node_line(u: int) -> Seq<char> {
    "    "@ + dec(u as nat) + ";\n"@
}

/// One epsilon edge statement.
pub open spec fn eps_line(u: int, v: int) -> Seq<char> {
    "    "@ + dec(u as nat) + " -> "@ + dec(v as nat) + " [ label = \"ε\" ]\n"@
}

/// One symbol edge statement; the label shows the edge's symbols.
pub open spec fn arc_line(u: int, to: int, syms: Seq<char>) -> Seq<char> {
    "    "@ + dec(u as nat) + " -> "@ + dec(to as nat) + " [ label = \""@ + syms + "\" ]\n"@
}

/// The epsilon edge statements of one node, in stored order.
pub open spec fn eps_lines(u: int, row: Seq<usize>) -> Seq<char>
    decreases row.len(),
{
    if row.len() == 0 {
        Seq::empty()
    } else {
        eps_lines(u, row.drop_last()) + eps_line(u, row.last() as int)
    }
}

/// The symbol edge statements of one node, in stored order.
pub open spec fn arc_lines(u: int, row: Seq<CharArc>) -> Seq<char>
    decreases row.len(),
{
    if row.len() == 0 {
        Seq::empty()
    } else {
        arc_lines(u, row.drop_last()) + arc_line(u, row.last().to as int, row.last().syms@)
    }
}

/// The statements of the first `u` nodes of an ε-NFA.
pub open spec fn enfa_sections(nodes: Seq<ENfaNode>, u: int) -> Seq<char>
    decreases u,
{
    if u <= 0 {
        Seq::empty()
    } else {
        enfa_sections(nodes, u - 1) + node_line(u - 1) + eps_lines(u - 1, nodes[u - 1].eps@)
            + arc_lines(u - 1, nodes[u - 1].arcs@)
    }
}

/// The statements of the first `u` nodes of an NFA.
pub open spec fn nfa_sections(arcs: Seq<Vec<CharArc>>, u: int) -> Seq<char>
    decreases u,
{
    if u <= 0 {
        Seq::empty()
    } else {
        nfa_sections(arcs, u - 1) + node_line(u - 1) + arc_lines(u - 1, arcs[u - 1]@)
    }
}

/// The whole graph description of an ε-NFA.
pub open spec fn spec_enfa_dot(e: ENfa) -> Seq<char> {
    "digraph {\n"@ + enfa_sections(e.nodes@, e.n()) + "}\n"@
}

/// The whole graph description of an NFA.
pub open spec fn spec_nfa_dot(o: Nfa) -> Seq<char> {
    "digraph {\n"@ + nfa_sections(o.arcs@, o.n()) + "}\n"@
}

/// Relies on `String::from_iter` over `std::vec::Vec::into_iter`: collecting
/// the characters yields the string with exactly those characters.
#[verifier::external_body]
pub(crate) fn chars_to_string(v: Vec<char>) -> (r: String)
    ensures
        r@ == v@,
{
    v.into_iter().collect()
}

/// Appends the characters of `s`.
pub(crate) fn append_str(out: &mut Vec<char>, s: &str)
    ensures
        final(out)@ == old(out)@ + s@,
{
    let l = s.unicode_len();
    let mut i: usize = 0;
    while i < l
        invariant
            i <= l,
            l == s@.len(),
            out@ == old(out)@ + s@.subrange(0, i as int),
        decreases l - i,
    {
        out.push(s.get_char(i));
        i += 1;
        proof {
            assert(out@ =~= old(out)@ + s@.subrange(0, i as int));
        }
    }
    proof {
        assert(out@ =~= old(out)@ + s@);
    }
}

/// Appends the decimal digits of `x`.
fn push_dec(out: &mut Vec<char>, x: usize)
    ensures
        final(out)@ == old(out)@ + dec(x as nat),
    decreases x,
{
    if x < 10 {
        out.push((48 + x as u8) as char);
        proof {
            assert(out@ =~= old(out)@ + dec(x as nat));
        }
    } else {
        push_dec(out, x / 10);
        out.push((48 + (x % 10) as u8) as char);
        proof {
            assert(out@ =~= old(out)@ + dec(x as nat));
        }
    }
}

/// Appends one node statement.
fn push_node_line(out: &mut Vec<char>, u: usize)
    ensures
        final(out)@ == old(out)@ + node_line(u as int),
{
    append_str(out, "    ");
    push_dec(out, u);
    append_str(out, ";\n");
    proof {
        assert(out@ =~= old(out)@ + node_line(u as int));
    }
}

/// Appends one epsilon edge statement.
fn push_eps_line(out: &mut Vec<char>, u: usize, v: usize)
    ensures
        final(out)@ == old(out)@ + eps_line(u as int, v as int),
{
    append_str(out, "    ");
    push_dec(out, u);
    append_str(out, " -> ");
    push_dec(out, v);
    append_str(out, " [ label = \"ε\" ]\n");
    proof {
        assert(out@ =~= old(out)@ + eps_line(u as int, v as int));
    }
}

/// Appends one symbol edge statement.
fn push_arc_line(out: &mut Vec<char>, u: usize, arc: &CharArc)
    ensures
        final(out)@ == old(out)@ + arc_line(u as int, arc.to as int, arc.syms@),
{
    append_str(out, "    ");
    push_dec(out, u);
    append_str(out, " -> ");
    push_dec(out, arc.to);
    append_str(out, " [ label = \"");
    let mut s: usize = 0;
    let sl = arc.syms.len();
    let ghost mid = out@;
    while s < sl
        invariant
            s <= sl,
            sl == arc.syms@.len(),
            out@ == mid + arc.syms@.subrange(0, s as int),
        decreases sl - s,
    {
        out.push(arc.syms[s]);
        s += 1;
        proof {
            assert(out@ =~= mid + arc.syms@.subrange(0, s as int));
        }
    }
    proof {
        assert(arc.syms@.subrange(0, sl as int) =~= arc.syms@);
    }
    append_str(out, "\" ]\n");
    proof {
        assert(out@ =~= old(out)@ + arc_line(u as int, arc.to as int, arc.syms@));
    }
}

/// An exported, read-only snapshot of an automaton: the textual graph
/// description, the start node id and the accepting node ids.
pub struct FaRep {
    dot_str: String,
    start: usize,
    fin: Vec<usize>,
}

impl FaRep {
    /// The textual graph description.
    pub fn get_dot_str(&self) -> (r: String)
        ensures
            r@ == self.spec_dot(),
    {
        self.dot_str.clone()
    }

    /// The start node id.
    pub fn get_start(&self) -> (r: usize)
        ensures
            r as int == self.spec_start(),
    {
        self.start
    }

    /// The accepting node ids.
    pub fn get_fin(&self) -> (r: Vec<usize>)
        ensures
            r@ == self.spec_fin(),
    {
        clone_ids(&self.fin)
    }

    /// The view of the held description, for contracts of the producers.
    pub closed spec fn spec_dot(self) -> Seq<char> {
        self.dot_str@
    }

    /// The held start id.
    pub closed spec fn spec_start(self) -> int {
        self.start as int
    }

    /// The held accept ids.
    pub closed spec fn spec_fin(self) -> Seq<usize> {
        self.fin@
    }
}

impl ENfa {
    /// Renders the ε-NFA into its exportable representation.
    pub fn to_fa_rep(&self) -> (r: FaRep)
        ensures
            r.spec_dot() == spec_enfa_dot(*self),
            r.spec_start() == self.start as int,
            r.spec_fin() == self.fin@,
    {
        let mut out: Vec<char> = Vec::new();
        append_str(&mut out, "digraph {\n");
        let ghost head = out@;
        let n = self.nodes.len();
        let mut u: usize = 0;
        while u < n
            invariant
                u <= n,
                n == self.n(),
                out@ == head + enfa_sections(self.nodes@, u as int),
            decreases n - u,
        {
            push_node_line(&mut out, u);
            let ghost at_node = out@;
            let el = self.nodes[u].eps.len();
            let mut t: usize = 0;
            while t < el
                invariant
                    t <= el,
                    u < n,
                    n == self.n(),
                    el == self.nodes@[u as int].eps@.len(),
                    out@ == at_node + eps_lines(u as int, self.nodes@[u as int].eps@.subrange(0, t as int)),
                decreases el - t,
            {
                push_eps_line(&mut out, u, self.nodes[u].eps[t]);
                t += 1;
                proof {
                    let s2 = self.nodes@[u as int].eps@.subrange(0, t as int);
                    assert(s2.drop_last() =~= self.nodes@[u as int].eps@.subrange(0, t as int - 1));
                    assert(out@ =~= at_node + eps_lines(u as int, s2));
                }
            }
            proof {
                assert(self.nodes@[u as int].eps@.subrange(0, el as int) =~= self.nodes@[u as int].eps@);
            }
            let ghost at_eps = out@;
            let al = self.nodes[u].arcs.len();
            let mut t: usize = 0;
            while t < al
                invariant
                    t <= al,
                    u < n,
                    n == self.n(),
                    al == self.nodes@[u as int].arcs@.len(),
                    out@ == at_eps + arc_lines(u as int, self.nodes@[u as int].arcs@.subrange(0, t as int)),
                decreases al - t,
            {
                push_arc_line(&mut out, u, &self.nodes[u].arcs[t]);
                t += 1;
                proof {
                    let s2 = self.nodes@[u as int].arcs@.subrange(0, t as int);
                    assert(s2.drop_last() =~= self.nodes@[u as int].arcs@.subrange(0, t as int - 1));
                    assert(s2.last() == self.nodes@[u as int].arcs@[t - 1]);
                    assert(out@ =~= at_eps + arc_lines(u as int, s2));
                }
            }
            proof {
                assert(self.nodes@[u as int].arcs@.subrange(0, al as int) =~= self.nodes@[u as int].arcs@);
            }
            u += 1;
            proof {
                assert(out@ =~= head + enfa_sections(self.nodes@, u as int));
            }
        }
        append_str(&mut out, "}\n");
        let dot_str = chars_to_string(out);
        let r = FaRep { dot_str, start: self.start, fin: clone_ids(&self.fin) };
        proof {
            assert(r.spec_dot() =~= spec_enfa_dot(*self));
        }
        r
    }
}

impl Nfa {
    /// Renders the NFA (or DFA) into its exportable representation.
    pub fn to_fa_rep(&self) -> (r: FaRep)
        ensures
            r.spec_dot() == spec_nfa_dot(*self),
            r.spec_start() == self.start as int,
            r.spec_fin() == self.fin@,
    {
        let mut out: Vec<char> = Vec::new();
        append_str(&mut out, "digraph {\n");
        let ghost head = out@;
        let n = self.arcs.len();
        let mut u: usize = 0;
        while u < n
            invariant
                u <= n,
                n == self.n(),
                out@ == head + nfa_sections(self.arcs@, u as int),
            decreases n - u,
        {
            push_node_line(&mut out, u);
            let ghost at_node = out@;
            let al = self.arcs[u].len();
            let mut t: usize = 0;
            while t < al
                invariant
                    t <= al,
                    u < n,
                    n == self.n(),
                    al == self.arcs@[u as int]@.len(),
                    out@ == at_node + arc_lines(u as int, self.arcs@[u as int]@.subrange(0, t as int)),
                decreases al - t,
            {
                push_arc_line(&mut out, u, &self.arcs[u][t]);
                t += 1;
                proof {
                    let s2 = self.arcs@[u as int]@.subrange(0, t as int);
                    assert(s2.drop_last() =~= self.arcs@[u as int]@.subrange(0, t as int - 1));
                    assert(s2.last() == self.arcs@[u as int]@[t - 1]);
                    assert(out@ =~= at_node + arc_lines(u as int, s2));
                }
            }
            proof {
                assert(self.arcs@[u as int]@.subrange(0, al as int) =~= self.arcs@[u as int]@);
            }
            u += 1;
            proof {
                assert(out@ =~= head + nfa_sections(self.arcs@, u as int));
            }
        }
        append_str(&mut out, "}\n");
        let dot_str = chars_to_string(out);
        let r = FaRep { dot_str, start: self.start, fin: clone_ids(&self.fin) };
        proof {
            assert(r.spec_dot() =~= spec_nfa_dot(*self));
        }
        r
    }
}

} // verus!
