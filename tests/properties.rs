use regex_dfa::automaton::{Automaton, AutomatonKind};
use regex_dfa::determinize::nfa_to_dfa;
use regex_dfa::minimize::dfa_to_minimized_dfa;
use regex_dfa::parse_tree::{build_empty, build_literal, from_ast, ParseTree};

fn word(s: &str) -> ParseTree {
    ParseTree::Concatenation(s.chars().map(ParseTree::Atom).collect())
}

fn star(t: ParseTree) -> ParseTree {
    ParseTree::ZeroOrMore(Box::new(t))
}

fn plus(t: ParseTree) -> ParseTree {
    ParseTree::OneOrMore(Box::new(t))
}

fn samples() -> Vec<&'static str> {
    vec!["", "a", "b", "ab", "ba", "aa", "abb", "aabb", "abab", "babb", "aaabb", "c"]
}

/// `(a|b)*abb`
fn abb_tree() -> ParseTree {
    ParseTree::Concatenation(vec![
        star(ParseTree::Group(Box::new(ParseTree::Alternation(vec![
            ParseTree::Atom('a'),
            ParseTree::Atom('b'),
        ])))),
        ParseTree::Atom('a'),
        ParseTree::Atom('b'),
        ParseTree::Atom('b'),
    ])
}

#[test]
fn determinization_agrees_with_minimization() {
    let dfa = from_ast(&abb_tree()).into_dfa();
    let min = from_ast(&abb_tree()).into_min_dfa();
    for s in samples() {
        assert_eq!(dfa.match_whole(s), min.match_whole(s), "{}", s);
        assert_eq!(dfa.match_whole(s), s.ends_with("abb") && !s.contains('c'), "{}", s);
    }
}

#[test]
fn determinized_kind_and_start() {
    let dfa = nfa_to_dfa(&from_ast(&abb_tree()));
    assert_eq!(dfa.kind, AutomatonKind::Dfa);
    assert_eq!(dfa.start_state, Some(0));
    let min = dfa_to_minimized_dfa(&dfa);
    assert_eq!(min.kind, AutomatonKind::MinDfa);
}

#[test]
fn minimization_twice_keeps_language_and_size() {
    let dfa = nfa_to_dfa(&from_ast(&abb_tree()));
    let m1 = dfa_to_minimized_dfa(&dfa);
    let m2 = dfa_to_minimized_dfa(&m1);
    assert!(m1.states.len() <= dfa.states.len());
    assert_eq!(m2.states.len(), m1.states.len());
    assert_eq!(m1.states.len(), 4);
    for s in samples() {
        assert_eq!(m1.match_whole(s), m2.match_whole(s), "{}", s);
    }
}

#[test]
fn minimal_automaton_is_returned_unchanged() {
    let m1 = from_ast(&word("ab")).into_min_dfa();
    let n = m1.states.len();
    let m2 = m1.into_min_dfa();
    assert_eq!(m2.states.len(), n);
    assert_eq!(m2.kind, AutomatonKind::MinDfa);
}

#[test]
fn intersection_allocates_every_pair() {
    let a = from_ast(&star(ParseTree::Atom('a'))).into_min_dfa();
    let b = from_ast(&word("aa")).into_min_dfa();
    let product = a.intersection(&b);
    assert_eq!(product.states.len(), a.states.len() * b.states.len());
    for s in ["", "a", "aa", "aaa", "b"] {
        assert_eq!(product.match_whole(s), a.match_whole(s) && b.match_whole(s), "{}", s);
    }
    assert!(product.match_whole("aa"));
    assert!(!product.match_whole("a"));
}

#[test]
fn substrings_are_shifted_prefixes() {
    let automaton = from_ast(&plus(ParseTree::Atom('a'))).into_min_dfa();
    let input = "aaba";
    let mut expected = Vec::new();
    for i in 0..input.len() {
        for r in automaton.match_all_prefixes(&input[i..]) {
            expected.push(r.start + i..r.end + i);
        }
    }
    assert_eq!(automaton.match_substrings(input), expected);
    assert_eq!(expected, vec![0..1, 0..2, 1..2, 3..4]);
}

#[test]
fn all_prefixes_stop_at_missing_transition() {
    let automaton = from_ast(&star(ParseTree::Atom('a'))).into_min_dfa();
    assert_eq!(automaton.match_all_prefixes("aaba"), vec![0..0, 0..1, 0..2]);
    assert_eq!(automaton.match_all_prefixes(""), vec![0..0]);
}

#[test]
fn first_prefix_found_before_reading_on() {
    let automaton = from_ast(&ParseTree::Atom('a')).into_min_dfa();
    assert_eq!(automaton.match_first_prefix("ab"), Some("a"));
    assert_eq!(automaton.match_first_prefix("b"), None);
}

#[test]
fn first_prefix_whole_input_when_read_to_the_end() {
    let automaton = from_ast(&word("ab")).into_min_dfa();
    assert!(!automaton.match_whole("a"));
    assert_eq!(automaton.match_first_prefix("a"), Some("a"));
    assert_eq!(automaton.match_first_prefix(""), Some(""));
}

#[test]
fn longest_prefix_cases() {
    let automaton = from_ast(&star(ParseTree::Atom('a'))).into_min_dfa();
    assert_eq!(automaton.match_longest_prefix("aab"), Some(0..2));
    assert_eq!(automaton.match_longest_prefix("aa"), Some(0..2));
    assert_eq!(automaton.match_longest_prefix("b"), Some(0..0));
    let ab = from_ast(&word("ab")).into_min_dfa();
    assert_eq!(ab.match_longest_prefix("x"), None);
}

#[test]
fn longest_substring_prefers_earliest_and_skips_empty() {
    let automaton = from_ast(&word("ab")).into_min_dfa();
    assert_eq!(automaton.match_longest_substring("xabyab"), Some(1..3));
    let star_a = from_ast(&star(ParseTree::Atom('a'))).into_min_dfa();
    assert_eq!(star_a.match_longest_substring("b"), None);
    assert_eq!(star_a.match_longest_substring("baab"), Some(1..3));
    assert_eq!(star_a.match_longest_substring(""), None);
}

#[test]
fn empty_tree_matches_empty_string_only() {
    let automaton = from_ast(&ParseTree::Empty).into_min_dfa();
    assert!(automaton.match_whole(""));
    assert!(!automaton.match_whole("a"));
    let empty_concat = from_ast(&ParseTree::Concatenation(vec![])).into_min_dfa();
    assert!(empty_concat.match_whole(""));
    assert!(!empty_concat.match_whole("a"));
}

#[test]
fn class_literal_has_one_edge_per_member() {
    let literal = build_literal(&vec!['x', 'y', 'z']);
    assert_eq!(literal.states.len(), 2);
    assert_eq!(literal.states[0].from_transitions.len(), 3);
    assert_eq!(literal.states[1].to_transitions.len(), 3);
    assert_eq!(literal.start_state, Some(0));
    assert!(literal.states[1].accepting);
    let empty = build_empty();
    assert_eq!(empty.states[0].from_transitions[0].atom, None);
}

#[test]
fn out_of_range_mutations_are_ignored() {
    let mut automaton = Automaton::new();
    let s = automaton.add_state();
    automaton.set_accepting(5, true);
    automaton.set_start_state(5);
    assert_eq!(automaton.start_state, None);
    assert!(!automaton.is_accepting(5));
    automaton.set_start_state(s);
    assert_eq!(automaton.start_state, Some(0));
}

#[test]
fn mutations_reset_the_kind() {
    let mut automaton = from_ast(&word("ab")).into_min_dfa();
    assert_eq!(automaton.kind, AutomatonKind::MinDfa);
    automaton.set_accepting(0, true);
    assert_eq!(automaton.kind, AutomatonKind::Nfa);
    let mut dfa = from_ast(&word("ab")).into_dfa();
    let t = dfa.add_state();
    assert_eq!(t, dfa.states.len() - 1);
    assert_eq!(dfa.kind, AutomatonKind::Nfa);
}

#[test]
fn add_transition_keeps_indexes_in_step() {
    let mut automaton = Automaton::new();
    let a = automaton.add_state();
    let b = automaton.add_state();
    automaton.add_transition(a, b, Some('x'));
    automaton.add_transition(a, b, Some('x'));
    automaton.add_transition(b, a, None);
    assert_eq!(automaton.states[a].from_transitions.len(), 1);
    assert_eq!(automaton.states[b].to_transitions.len(), 1);
    assert_eq!(automaton.alphabet, vec!['x']);
    assert_eq!(automaton.traverse_from(a, 'x'), Some(b));
    assert_eq!(automaton.traverse_from(b, 'x'), None);
    assert_eq!(automaton.traverse_from(7, 'x'), None);
}

#[test]
fn merging_moves_indices() {
    let mut automaton = build_literal(&vec!['a']);
    automaton.add_states_and_transitions(build_literal(&vec!['b']));
    assert_eq!(automaton.states.len(), 4);
    assert_eq!(automaton.traverse_from(2, 'b'), Some(3));
    assert!(!automaton.is_accepting(3));
    assert!(automaton.is_accepting(1));
    assert_eq!(automaton.start_state, Some(0));
}

#[test]
fn closures() {
    let nfa = from_ast(&star(ParseTree::Atom('a')));
    let start = nfa.start_state.unwrap();
    let closure = nfa.epsilon_closure(start);
    assert!(closure[start]);
    assert!(nfa.states.iter().enumerate().any(|(i, s)| s.accepting && closure[i]));
    let after_a = nfa.atom_closure(&closure, 'a');
    assert!(after_a.iter().any(|&b| b));
    let after_b = nfa.atom_closure(&closure, 'b');
    assert!(after_b.iter().all(|&b| !b));
}

#[test]
fn default_is_empty() {
    let automaton = Automaton::default();
    assert_eq!(automaton.states.len(), 0);
    assert_eq!(automaton.start_state, None);
    assert_eq!(automaton.kind, AutomatonKind::Nfa);
}

#[test]
fn intersection_is_deterministic() {
    let a = from_ast(&star(ParseTree::Atom('a'))).into_min_dfa();
    let b = from_ast(&plus(ParseTree::Class(vec!['a', 'b']))).into_min_dfa();
    let product = a.intersection(&b);
    for state in &product.states {
        let mut labels = Vec::new();
        for t in &state.from_transitions {
            assert!(t.atom.is_some());
            assert!(!labels.contains(&t.atom));
            labels.push(t.atom);
        }
    }
}

#[test]
fn determinized_states_are_reachable_and_labels_kept() {
    let nfa = from_ast(&abb_tree());
    let dfa = nfa_to_dfa(&nfa);
    for c in &dfa.alphabet {
        assert!(nfa.alphabet.contains(c));
    }
    let mut seen = vec![false; dfa.states.len()];
    let mut queue = vec![0usize];
    seen[0] = true;
    while let Some(p) = queue.pop() {
        for t in &dfa.states[p].from_transitions {
            if !seen[t.to_state] {
                seen[t.to_state] = true;
                queue.push(t.to_state);
            }
        }
    }
    assert!(seen.iter().all(|&s| s));
    assert!(dfa.states.len() <= 1 << nfa.states.len().min(20));
}

#[test]
fn into_dfa_keeps_a_deterministic_automaton() {
    let dfa = from_ast(&word("ab")).into_dfa();
    let n = dfa.states.len();
    let again = dfa.into_dfa();
    assert_eq!(again.states.len(), n);
    assert_eq!(again.kind, AutomatonKind::Dfa);
    assert!(again.start_state.is_some());
}
