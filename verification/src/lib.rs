//! Compiles a regular expression into a minimal deterministic finite
//! automaton, by way of an epsilon-NFA and an NFA, and exports each stage
//! for visualization.

use vstd::prelude::*;

pub mod counting;
pub mod elim;
pub mod enfa;
pub mod graph;
pub mod graph_algo;
pub mod nfa;
pub mod parsing;
pub mod reach;
pub mod rep;
pub mod tokens;

use crate::elim::{condensation_of, lemma_condensation_keeps_acceptance};
use crate::enfa::{gen_epsilon_nfa_from_expr, spec_build_outcome, trace_ok, ENfa};
use crate::nfa::{brzozowski_chain, pruned_of, Nfa};
use crate::parsing::{spec_parse, tokens_to_postfix, ExprUnit, RegexOp};
use crate::rep::{append_str, chars_to_string, spec_nfa_dot, FaRep};
use crate::tokens::RegexTokenizer;
use vstd::string::StringExecFns;

verus! {

/// The text of one postfix element in the debug rendering.
pub open spec fn spec_unit_text(u: ExprUnit) -> Seq<char> {
    match u {
        ExprUnit::Char(c) => "Char('"@ + seq![c] + "')"@,
        ExprUnit::Op(RegexOp::Union) => "Op(Union)"@,
        ExprUnit::Op(RegexOp::Concat) => "Op(Concat)"@,
        ExprUnit::Op(RegexOp::Star) => "Op(Star)"@,
    }
}

/// The comma-separated text of a postfix expression.
pub open spec fn spec_units_text(units: Seq<ExprUnit>) -> Seq<char>
    decreases units.len(),
{
    if units.len() == 0 {
        Seq::empty()
    } else if units.len() == 1 {
        spec_unit_text(units[0])
    } else {
        spec_units_text(units.drop_last()) + ", "@ + spec_unit_text(units.last())
    }
}

/// The debug rendering of the parse of `chars`: the postfix expression on
/// success, the failure reason otherwise.
pub open spec fn spec_postexpr_text(chars: Seq<char>) -> Seq<char> {
    match spec_parse(chars).0 {
        Ok(p) => "Ok(["@ + spec_units_text(p) + "])"@,
        Err(e) => "Err("@ + e.spec_message() + ")"@,
    }
}

/// Appends the text of one postfix element.
fn push_unit_text(out: &mut Vec<char>, u: &ExprUnit)
    ensures
        final(out)@ == old(out)@ + spec_unit_text(*u),
{
    match u {
        ExprUnit::Char(c) => {
            append_str(out, "Char('");
            out.push(*c);
            append_str(out, "')");
            proof {
                assert(out@ =~= old(out)@ + spec_unit_text(*u));
            }
        },
        ExprUnit::Op(RegexOp::Union) => {
            append_str(out, "Op(Union)");
        },
        ExprUnit::Op(RegexOp::Concat) => {
            append_str(out, "Op(Concat)");
        },
        ExprUnit::Op(RegexOp::Star) => {
            append_str(out, "Op(Star)");
        },
    }
}

/// Debug-formats the postfix form of `expr` (or the reason it does not
/// parse) as text; never fails.
pub fn get_debug_postexpr_string(expr: &str) -> (r: String)
    ensures
        r@ == spec_postexpr_text(expr@),
{
    let mut tokens = RegexTokenizer::from_string(expr);
    let res = tokens_to_postfix(&mut tokens);
    let mut out: Vec<char> = Vec::new();
    match res {
        Ok(units) => {
            append_str(&mut out, "Ok([");
            let ghost head = out@;
            let mut i: usize = 0;
            let l = units.len();
            while i < l
                invariant
                    i <= l,
                    l == units@.len(),
                    out@ == head + spec_units_text(units@.subrange(0, i as int)),
                decreases l - i,
            {
                if i > 0 {
                    append_str(&mut out, ", ");
                }
                push_unit_text(&mut out, &units[i]);
                i += 1;
                proof {
                    let s2 = units@.subrange(0, i as int);
                    assert(s2.drop_last() =~= units@.subrange(0, i as int - 1));
                    assert(s2.last() == units@[i - 1]);
                    assert(out@ =~= head + spec_units_text(s2));
                }
            }
            proof {
                assert(units@.subrange(0, l as int) =~= units@);
            }
            append_str(&mut out, "])");
        },
        Err(e) => {
            append_str(&mut out, "Err(");
            append_str(&mut out, e.message());
            append_str(&mut out, ")");
        },
    }
    proof {
        assert(out@ =~= spec_postexpr_text(expr@));
    }
    chars_to_string(out)
}

/// The automaton `enfa` is the Thompson evaluation of the postfix
/// expression `p`: some evaluation trace of `p` ends with exactly it on
/// the stack.
pub open spec fn builds_enfa(p: Seq<ExprUnit>, enfa: ENfa) -> bool {
    exists|tr: Seq<Seq<ENfa>>| #[trigger] trace_ok(p, tr) && tr.last() == seq![enfa]
}

/// `nfa` is `enfa` after epsilon elimination and unreachable-node pruning.
pub open spec fn eliminated_and_pruned(enfa: ENfa, nfa: Nfa) -> bool {
    exists|m: Nfa, idc: Seq<usize>|
        #[trigger] condensation_of(enfa, m, idc) && m.wf() && pruned_of(m, nfa)
}

/// `dfa` is `nfa` after Brzozowski minimization.
pub open spec fn minimization_of(nfa: Nfa, dfa: Nfa) -> bool {
    exists|a: Nfa, b: Nfa, c2: Nfa, subs1: Seq<Seq<bool>>, subs2: Seq<Seq<bool>>|
        #[trigger] brzozowski_chain(nfa, a, b, c2, dfa, subs1, subs2)
}

/// `rep` exports the DFA that the whole pipeline derives from the postfix
/// expression `p`: Thompson construction, epsilon elimination, pruning and
/// Brzozowski minimization, stage by stage.
pub open spec fn pipeline_rep_of(p: Seq<ExprUnit>, rep: FaRep) -> bool {
    exists|enfa: ENfa, nfa: Nfa, dfa: Nfa|
        #![trigger builds_enfa(p, enfa), eliminated_and_pruned(enfa, nfa), minimization_of(nfa, dfa)]
        {
            &&& builds_enfa(p, enfa)
            &&& eliminated_and_pruned(enfa, nfa)
            &&& minimization_of(nfa, dfa)
            &&& dfa.wf()
            &&& dfa.deterministic()
            &&& rep.spec_dot() == spec_nfa_dot(dfa)
            &&& rep.spec_start() == dfa.start as int
            &&& rep.spec_fin() == dfa.fin@
        }
}

/// Runs tokenizer, postfix parser and Thompson builder over `expr` and
/// returns the resulting ε-NFA, or the first error's text.
pub fn get_enfa_from_regex(expr: &str) -> (r: Result<ENfa, String>)
    requires
        expr@.len() <= usize::MAX as int / 16,
    ensures
        (match r {
            Ok(nfa) => {
                &&& (match spec_parse(expr@).0 {
                    Ok(p) => spec_build_outcome(p) is Ok && builds_enfa(p, nfa),
                    Err(_) => false,
                })
                &&& nfa.wf()
                &&& nfa.fin@.len() == 1
                &&& nfa.mixed_reaches(nfa.start as int, nfa.fin@[0] as int)
            },
            Err(msg) => match spec_parse(expr@).0 {
                Ok(p) => spec_build_outcome(p) matches Err(e) && msg@ == e.spec_message(),
                Err(e) => msg@ == e.spec_message(),
            },
        }),
{
    let mut tokens = RegexTokenizer::from_string(expr);
    let units = match tokens_to_postfix(&mut tokens) {
        Ok(u) => u,
        Err(e) => {
            return Err(String::from_str(e.message()));
        },
    };
    match gen_epsilon_nfa_from_expr(units.as_slice()) {
        Ok(enfa) => {
            proof {
                let tr = choose|tr: Seq<Seq<ENfa>>|
                    #[trigger] trace_ok(units@, tr) && tr.last() == seq![enfa];
                if spec_parse(expr@).0 is Ok {
                    let p = spec_parse(expr@).0->Ok_0;
                    assert(units@ == p);
                    assert(trace_ok(p, tr) && tr.last() == seq![enfa]);
                    assert(builds_enfa(p, enfa));
                }
            }
            Ok(enfa)
        },
        Err(e) => Err(String::from_str(e.message())),
    }
}

impl ENfa {
    /// Epsilon elimination followed by unreachable-node pruning.
    pub fn convert_to_nfa(&self) -> (r: Nfa)
        requires
            self.wf(),
        ensures
            r.wf(),
            r.all_reachable(),
            exists|m: Nfa, idc: Seq<usize>|
                #[trigger] condensation_of(*self, m, idc) && m.wf() && pruned_of(m, r),
            (exists|f: int| self.is_fin(f) && self.mixed_reaches(self.start as int, f))
                ==> r.fin@.len() >= 1,
    {
        let mut nfa = self.to_nfa();
        let ghost mid = nfa;
        nfa.remove_unreachable_nodes();
        proof {
            let idc = choose|idc: Seq<usize>| #[trigger] condensation_of(*self, mid, idc);
            assert(condensation_of(*self, mid, idc) && mid.wf() && pruned_of(mid, nfa));
            if exists|f: int| self.is_fin(f) && self.mixed_reaches(self.start as int, f) {
                lemma_condensation_keeps_acceptance(*self, mid, idc);
                let a2 = choose|a2: int|
                    mid.is_fin(a2) && mid.nfa_reaches(mid.start as int, a2);
                assert(0 <= a2 < mid.n()) by {
                    let k = choose|k: int|
                        0 <= k < mid.fin@.len() && (((#[trigger] mid.fin@[k]) as int) == a2);
                }
                assert(nfa.is_fin(crate::nfa::reach_count(mid, a2)));
                assert(crate::graph::seq_has(nfa.fin@, crate::nfa::reach_count(mid, a2)));
                let k = choose|k: int|
                    0 <= k < nfa.fin@.len() && (((#[trigger] nfa.fin@[k]) as int)
                        == crate::nfa::reach_count(mid, a2));
                assert(nfa.fin@.len() >= 1);
            }
        }
        nfa
    }
}

/// Compiles `expr` all the way to the exported representation of its
/// minimal DFA: tokenizer, postfix parser, Thompson construction, epsilon
/// elimination, pruning, Brzozowski minimization, and rendering.
pub fn get_debug_graph_json(expr: &str) -> (r: Result<FaRep, String>)
    requires
        expr@.len() <= usize::MAX as int / 16,
    ensures
        (match r {
            Ok(rep) => match spec_parse(expr@).0 {
                Ok(p) => spec_build_outcome(p) is Ok && pipeline_rep_of(p, rep),
                Err(_) => false,
            },
            Err(msg) => match spec_parse(expr@).0 {
                Ok(p) => spec_build_outcome(p) matches Err(e) && msg@ == e.spec_message(),
                Err(e) => msg@ == e.spec_message(),
            },
        }),
{
    let mut tokens = RegexTokenizer::from_string(expr);
    let units = match tokens_to_postfix(&mut tokens) {
        Ok(u) => u,
        Err(e) => {
            return Err(String::from_str(e.message()));
        },
    };
    let enfa = match gen_epsilon_nfa_from_expr(units.as_slice()) {
        Ok(enfa) => enfa,
        Err(e) => {
            return Err(String::from_str(e.message()));
        },
    };
    proof {
        assert(enfa.is_fin(enfa.fin@[0] as int)) by {
            assert(((#[trigger] enfa.fin@[0]) as int) == enfa.fin@[0] as int);
        }
    }
    let nfa = enfa.convert_to_nfa();
    let dfa = nfa.minimized_dfa();
    let rep = dfa.to_fa_rep();
    proof {
        if spec_parse(expr@).0 is Ok {
            let p = spec_parse(expr@).0->Ok_0;
            assert(units@ == p);
            assert(builds_enfa(p, enfa)) by {
                let tr = choose|tr: Seq<Seq<ENfa>>|
                    #[trigger] trace_ok(units@, tr) && tr.last() == seq![enfa];
                assert(trace_ok(p, tr) && tr.last() == seq![enfa]);
            }
            assert(eliminated_and_pruned(enfa, nfa)) by {
                let (m, idc) = choose|m: Nfa, idc: Seq<usize>|
                    #[trigger] condensation_of(enfa, m, idc) && m.wf() && pruned_of(m, nfa);
                assert(condensation_of(enfa, m, idc) && m.wf() && pruned_of(m, nfa));
            }
            assert(minimization_of(nfa, dfa)) by {
                let (a, b, c2, subs1, subs2) = choose|
                    a: Nfa,
                    b: Nfa,
                    c2: Nfa,
                    subs1: Seq<Seq<bool>>,
                    subs2: Seq<Seq<bool>>,
                | #[trigger] brzozowski_chain(nfa, a, b, c2, dfa, subs1, subs2);
                assert(brzozowski_chain(nfa, a, b, c2, dfa, subs1, subs2));
            }
            assert(pipeline_rep_of(p, rep));
        }
    }
    Ok(rep)
}

} // verus!
