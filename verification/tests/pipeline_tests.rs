use regex_fa::get_debug_graph_json;
use regex_fa::get_enfa_from_regex;
use regex_fa::nfa::Nfa;

fn min_dfa_of(expr: &str) -> Nfa {
    let nfa = get_enfa_from_regex(expr).unwrap().convert_to_nfa();
    nfa.get_minimized_dfa()
}

fn nfa_accepts(a: &Nfa, input: &str) -> bool {
    let n = a.arcs.len();
    let mut cur = vec![false; n];
    cur[a.start] = true;
    for c in input.chars() {
        let mut next = vec![false; n];
        for u in 0..n {
            if cur[u] {
                for arc in &a.arcs[u] {
                    if arc.syms.contains(&c) {
                        next[arc.to] = true;
                    }
                }
            }
        }
        cur = next;
    }
    a.fin.iter().any(|&f| cur[f])
}

fn is_deterministic(a: &Nfa) -> bool {
    for row in &a.arcs {
        let mut seen: Vec<char> = Vec::new();
        for arc in row {
            for &c in &arc.syms {
                if seen.contains(&c) {
                    return false;
                }
                seen.push(c);
            }
        }
    }
    true
}

#[test]
fn round_trip_yields_a_dfa_for_valid_expressions() {
    for expr in ["a", "a|b", "ab*", "(ab)*c", "a**", "ab|cd*", "(a|b)(a|b)"] {
        let dfa = min_dfa_of(expr);
        assert!(is_deterministic(&dfa), "not deterministic for {expr}");
        assert_eq!(dfa.start, 0);
    }
}

#[test]
fn minimal_dfa_of_a_then_b_star_has_two_states() {
    // "ab*" accepts the language a(b)*; its minimal DFA has exactly two
    // states: the initial one and the accepting one with a b self-loop.
    let dfa = min_dfa_of("ab*");
    assert_eq!(dfa.arcs.len(), 2);
    assert_eq!(dfa.fin.len(), 1);
    assert!(nfa_accepts(&dfa, "a"));
    assert!(nfa_accepts(&dfa, "abbb"));
    assert!(!nfa_accepts(&dfa, ""));
    assert!(!nfa_accepts(&dfa, "b"));
    assert!(!nfa_accepts(&dfa, "aab"));
}

#[test]
fn minimization_is_idempotent_on_node_count() {
    for expr in ["a", "a|b", "ab*", "(a|b)*ab"] {
        let dfa = min_dfa_of(expr);
        let again = dfa.get_minimized_dfa();
        assert_eq!(dfa.arcs.len(), again.arcs.len(), "node count changed for {expr}");
    }
}

#[test]
fn equivalent_expressions_minimize_to_isomorphic_dfas() {
    // "a|a" and "a" denote the same language; their minimal DFAs have the
    // same node count and the same edge structure up to relabeling. Both
    // start at 0 and have one accepting state reached by 'a'.
    let m1 = min_dfa_of("a|a");
    let m2 = min_dfa_of("a");
    assert_eq!(m1.arcs.len(), m2.arcs.len());
    assert_eq!(m1.fin.len(), m2.fin.len());
    let edges = |m: &Nfa| -> usize { m.arcs.iter().map(|row| row.len()).sum() };
    assert_eq!(edges(&m1), edges(&m2));
    assert!(nfa_accepts(&m1, "a") && nfa_accepts(&m2, "a"));
    assert!(!nfa_accepts(&m1, "aa") && !nfa_accepts(&m2, "aa"));
    assert!(!nfa_accepts(&m1, "") && !nfa_accepts(&m2, ""));
}

#[test]
fn whole_pipeline_exports_a_representation() {
    let rep = get_debug_graph_json("ab*").unwrap();
    assert_eq!(rep.get_start(), 0);
    assert_eq!(rep.get_fin().len(), 1);
    let dot = rep.get_dot_str();
    assert!(dot.starts_with("digraph {\n"));
    assert!(dot.ends_with("}\n"));
}

#[test]
fn whole_pipeline_reports_parse_errors() {
    assert_eq!(
        get_debug_graph_json("*ab").err().unwrap(),
        "Invalid expression: star after operator"
    );
    assert_eq!(
        get_debug_graph_json("").err().unwrap(),
        "Invalid postfix expression: empty expression"
    );
}

#[test]
fn exported_representation_of_a_literal_is_exact() {
    let e = get_enfa_from_regex("a").unwrap();
    let rep = e.to_fa_rep();
    assert_eq!(
        rep.get_dot_str(),
        "digraph {\n    0;\n    0 -> 1 [ label = \"a\" ]\n    1;\n}\n"
    );
    assert_eq!(rep.get_start(), 0);
    assert_eq!(rep.get_fin(), vec![1]);
}

#[test]
fn exported_representation_shows_epsilon_labels() {
    let e = get_enfa_from_regex("a|b").unwrap();
    let rep = e.to_fa_rep();
    let dot = rep.get_dot_str();
    assert!(dot.contains(" [ label = \"\u{03b5}\" ]"));
    assert!(dot.contains("4 -> 0"));
    assert!(dot.contains("4 -> 2"));
}

#[test]
fn nfa_representation_reports_start_and_fin() {
    let nfa = get_enfa_from_regex("ab").unwrap().convert_to_nfa();
    let rep = nfa.to_fa_rep();
    assert_eq!(rep.get_start() as usize, nfa.start);
    assert_eq!(rep.get_fin(), nfa.fin);
}
