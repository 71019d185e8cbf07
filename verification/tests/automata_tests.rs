use regex_fa::enfa::{gen_epsilon_nfa_from_expr, BuildError, ENfa};
use regex_fa::graph::CharArc;
use regex_fa::nfa::Nfa;
use regex_fa::parsing::{ExprUnit, RegexOp};
use regex_fa::get_enfa_from_regex;

fn enfa_of(expr: &str) -> ENfa {
    get_enfa_from_regex(expr).unwrap()
}

/// Epsilon closure of a set of ε-NFA states.
fn eps_close(e: &ENfa, states: &mut Vec<bool>) {
    let mut changed = true;
    while changed {
        changed = false;
        for u in 0..e.nodes.len() {
            if states[u] {
                for &v in &e.nodes[u].eps {
                    if !states[v] {
                        states[v] = true;
                        changed = true;
                    }
                }
            }
        }
    }
}

/// Acceptance of a string by an ε-NFA, by direct closure simulation.
fn enfa_accepts(e: &ENfa, input: &str) -> bool {
    let n = e.nodes.len();
    let mut cur = vec![false; n];
    cur[e.start] = true;
    eps_close(e, &mut cur);
    for c in input.chars() {
        let mut next = vec![false; n];
        for u in 0..n {
            if cur[u] {
                for arc in &e.nodes[u].arcs {
                    if arc.syms.contains(&c) {
                        next[arc.to] = true;
                    }
                }
            }
        }
        eps_close(e, &mut next);
        cur = next;
    }
    e.fin.iter().any(|&f| cur[f])
}

/// Acceptance of a string by an epsilon-free automaton.
fn nfa_accepts(a: &Nfa, input: &str) -> bool {
    let n = a.arcs.len();
    let mut cur = vec![false; n];
    cur[a.start] = true;
    for c in input.chars() {
        let mut next = vec![false; n];
        for u in 0..n {
            if cur[u] {
                for arc in &a.arcs[u] {
                    if arc.syms.contains(&c) {
                        next[arc.to] = true;
                    }
                }
            }
        }
        cur = next;
    }
    a.fin.iter().any(|&f| cur[f])
}

fn is_deterministic(a: &Nfa) -> bool {
    for row in &a.arcs {
        let mut seen: Vec<char> = Vec::new();
        for arc in row {
            for &c in &arc.syms {
                if seen.contains(&c) {
                    return false;
                }
                seen.push(c);
            }
        }
    }
    true
}

/// All strings over {a, b} of length at most 4.
fn short_strings() -> Vec<String> {
    let mut all = vec![String::new()];
    let mut frontier = vec![String::new()];
    for _ in 0..4 {
        let mut next = Vec::new();
        for s in &frontier {
            for c in ['a', 'b'] {
                let mut t = s.clone();
                t.push(c);
                next.push(t.clone());
                all.push(t);
            }
        }
        frontier = next;
    }
    all
}

#[test]
fn build_rejects_empty_postfix() {
    assert_eq!(
        gen_epsilon_nfa_from_expr(&[]).err(),
        Some(BuildError::EmptyExpression)
    );
}

#[test]
fn build_rejects_missing_operands() {
    assert_eq!(
        gen_epsilon_nfa_from_expr(&[ExprUnit::Op(RegexOp::Union)]).err(),
        Some(BuildError::NotEnoughOperandsUnion)
    );
    assert_eq!(
        gen_epsilon_nfa_from_expr(&[ExprUnit::Char('a'), ExprUnit::Op(RegexOp::Concat)]).err(),
        Some(BuildError::NotEnoughOperandsConcat)
    );
    assert_eq!(
        gen_epsilon_nfa_from_expr(&[ExprUnit::Op(RegexOp::Star)]).err(),
        Some(BuildError::NotEnoughOperandsStar)
    );
}

#[test]
fn build_rejects_leftover_operands() {
    assert_eq!(
        gen_epsilon_nfa_from_expr(&[ExprUnit::Char('a'), ExprUnit::Char('b')]).err(),
        Some(BuildError::LeftoverOperands)
    );
}

#[test]
fn union_enfa_has_expected_shape() {
    // "a|b": two 2-node literal chains, epsilon-joined at a fresh start and
    // a fresh accept node.
    let e = enfa_of("a|b");
    assert_eq!(e.nodes.len(), 6);
    assert_eq!(e.start, 4);
    assert_eq!(e.fin, vec![5]);
    assert_eq!(e.nodes[0].arcs.len(), 1);
    assert_eq!(e.nodes[0].arcs[0].to, 1);
    assert_eq!(e.nodes[0].arcs[0].syms, vec!['a']);
    assert_eq!(e.nodes[2].arcs.len(), 1);
    assert_eq!(e.nodes[2].arcs[0].to, 3);
    assert_eq!(e.nodes[2].arcs[0].syms, vec!['b']);
    assert_eq!(e.nodes[4].eps, vec![0, 2]);
    assert_eq!(e.nodes[1].eps, vec![5]);
    assert_eq!(e.nodes[3].eps, vec![5]);
}

#[test]
fn epsilon_elimination_removes_all_epsilon_edges() {
    // The Nfa representation has no epsilon storage at all; check the
    // conversion runs and accepts the same short strings.
    for expr in ["a", "a|b", "ab*", "(a|b)*ab", "a**", "(ab)*"] {
        let e = enfa_of(expr);
        let nfa = e.convert_to_nfa();
        for s in short_strings() {
            assert_eq!(
                enfa_accepts(&e, &s),
                nfa_accepts(&nfa, &s),
                "language changed for {expr} on {s:?}"
            );
        }
    }
}

#[test]
fn epsilon_cycles_are_collapsed() {
    // "a**" builds epsilon cycles; the condensation must merge the
    // mutually epsilon-reachable nodes, so it has fewer nodes than the
    // ε-NFA.
    let e = enfa_of("a**");
    let nfa = e.to_nfa();
    assert!(nfa.arcs.len() < e.nodes.len());
}

#[test]
fn pruning_removes_unreachable_nodes_and_keeps_ids_valid() {
    // A hand-made automaton whose node 1 cannot be reached from node 0.
    let mut a = Nfa {
        arcs: vec![
            vec![],
            vec![CharArc { to: 0, syms: vec!['a'] }],
        ],
        start: 0,
        fin: vec![0, 1],
    };
    a.remove_unreachable_nodes();
    assert_eq!(a.arcs.len(), 1);
    assert_eq!(a.start, 0);
    assert_eq!(a.fin, vec![0]);
    assert!(a.arcs[0].is_empty());
}

#[test]
fn reverse_flips_every_edge() {
    let e = enfa_of("ab");
    let nfa = e.convert_to_nfa();
    let rev = nfa.clone().reverse();
    for u in 0..nfa.arcs.len() {
        for arc in &nfa.arcs[u] {
            assert!(rev.arcs[arc.to].iter().any(|back| back.to == u && back.syms == arc.syms));
        }
    }
}

#[test]
fn subset_construction_yields_deterministic_automaton() {
    let e = enfa_of("(a|b)*ab");
    let nfa = e.convert_to_nfa();
    let dfa = nfa.subset_construction();
    assert!(is_deterministic(&dfa));
    assert_eq!(dfa.start, 0);
}

#[test]
fn star_enfa_has_expected_shape() {
    // "a*": the literal chain 0 --a--> 1 wrapped by a fresh start 2 and a
    // fresh accept 3; accepts loop back to the old start and forward to
    // the new accept.
    let e = enfa_of("a*");
    assert_eq!(e.nodes.len(), 4);
    assert_eq!(e.start, 2);
    assert_eq!(e.fin, vec![3]);
    assert_eq!(e.nodes[2].eps, vec![0, 3]);
    assert_eq!(e.nodes[1].eps, vec![0, 3]);
    assert!(e.nodes[0].eps.is_empty());
    assert_eq!(e.nodes[0].arcs[0].to, 1);
    assert_eq!(e.nodes[0].arcs[0].syms, vec!['a']);
}

#[test]
fn smaller_operand_is_reindexed_into_the_larger() {
    // In "c|(ab)" the left operand is the smaller graph, so the union
    // re-indexes it into the right operand's id space; the language must
    // not change either way.
    let e1 = enfa_of("c|(ab)");
    let e2 = enfa_of("(ab)|c");
    assert_eq!(e1.nodes.len(), e2.nodes.len());
    for s in ["c", "ab", "", "a", "cab"] {
        assert_eq!(enfa_accepts(&e1, s), enfa_accepts(&e2, s), "diverged on {s:?}");
    }
}

#[test]
fn concat_bridges_left_accepts_to_right_start() {
    // For "ab" the merge cost favors re-indexing the left operand into the
    // right one's id space: literal 'b' keeps nodes 0 -> 1, literal 'a'
    // becomes 2 -> 3, and the left accept gains an epsilon bridge to the
    // right start.
    let e = enfa_of("ab");
    assert_eq!(e.nodes.len(), 4);
    assert_eq!(e.start, 2);
    assert_eq!(e.fin, vec![1]);
    assert_eq!(e.nodes[3].eps, vec![0]);
    assert_eq!(e.nodes[2].arcs[0].to, 3);
    assert_eq!(e.nodes[2].arcs[0].syms, vec!['a']);
    assert_eq!(e.nodes[0].arcs[0].to, 1);
    assert_eq!(e.nodes[0].arcs[0].syms, vec!['b']);
}
