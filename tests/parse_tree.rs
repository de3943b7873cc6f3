use regex_dfa::parse_tree::{from_ast, ParseTree};

fn word(s: &str) -> ParseTree {
    ParseTree::Concatenation(s.chars().map(ParseTree::Atom).collect())
}

#[test]
fn test_from_atom() {
    let atom_tree = ParseTree::Atom('a');
    let atom_dfa = from_ast(&atom_tree);
    println!("{:#?}", atom_tree);
    println!("{:#?}", atom_dfa);
}

#[test]
fn alternation() {
    let alternation_ast = ParseTree::Alternation(vec![
        ParseTree::Atom('a'),
        ParseTree::Atom('b'),
        ParseTree::Atom('c'),
    ]);
    let automaton = from_ast(&alternation_ast).into_dfa().into_min_dfa();
    assert!(automaton.match_whole("a"));
    assert!(automaton.match_whole("b"));
    assert!(automaton.match_whole("c"));
    assert!(!automaton.match_whole("abc"));
    assert!(!automaton.match_whole("d"));
}

#[test]
fn concat() {
    let concat_ast = word("abc");
    let automaton = from_ast(&concat_ast).into_dfa().into_min_dfa();
    assert!(automaton.match_whole("abc"));
    assert!(!automaton.match_whole("a"));
    assert!(!automaton.match_whole("b"));
    assert!(!automaton.match_whole("c"));
    assert!(!automaton.match_whole("abcd"));
}

#[test]
fn repetition_zero_or_more() {
    let repetition_ast = ParseTree::ZeroOrMore(Box::new(ParseTree::Atom('a')));
    let repetition_nfa = from_ast(&repetition_ast);
    let repetition_dfa = repetition_nfa.into_dfa();
    let repetition_minimized_dfa = repetition_dfa.into_min_dfa();
    assert!(repetition_minimized_dfa.match_whole("a"));
    assert!(repetition_minimized_dfa.match_whole("aa"));
    assert!(repetition_minimized_dfa.match_whole("aaa"));
    assert!(repetition_minimized_dfa.match_whole(""));
    assert!(!repetition_minimized_dfa.match_whole("b"));
}

#[test]
fn repetition_zero_or_one() {
    let repetition_ast = ParseTree::ZeroOrOne(Box::new(ParseTree::Atom('a')));
    let repetition_nfa = from_ast(&repetition_ast);
    let repetition_dfa = repetition_nfa.into_dfa();
    let repetition_minimized_dfa = repetition_dfa.into_min_dfa();
    assert!(repetition_minimized_dfa.match_whole(""));
    assert!(repetition_minimized_dfa.match_whole("a"));
    assert!(!repetition_minimized_dfa.match_whole("aa"));
    assert!(!repetition_minimized_dfa.match_whole("b"));
}

#[test]
fn repetition_one_or_more() {
    let repetition_ast = ParseTree::OneOrMore(Box::new(ParseTree::Atom('a')));
    let repetition_nfa = from_ast(&repetition_ast);
    let repetition_dfa = repetition_nfa.into_dfa();
    let repetition_minimized_dfa = repetition_dfa.into_min_dfa();
    assert!(repetition_minimized_dfa.match_whole("a"));
    assert!(repetition_minimized_dfa.match_whole("aa"));
    assert!(repetition_minimized_dfa.match_whole("aaa"));
    assert!(!repetition_minimized_dfa.match_whole(""));
    assert!(!repetition_minimized_dfa.match_whole("b"));
}

#[test]
fn group() {
    let group_ast = ParseTree::ZeroOrMore(Box::new(ParseTree::Group(Box::new(word("ab")))));
    println!("group_ast: {:#?}", group_ast);
    let group_nfa = from_ast(&group_ast);
    println!("group_nfa: {:#?}", group_nfa);
    let group_dfa = group_nfa.into_dfa();
    println!("group_dfa: {:#?}", group_dfa);
    let group_minimized_dfa = group_dfa.into_min_dfa();
    println!("group_minimized_dfa: {:#?}", group_minimized_dfa);
    assert!(group_minimized_dfa.match_whole("ab"));
    assert!(group_minimized_dfa.match_whole("abab"));
    assert!(group_minimized_dfa.match_whole(""));
    assert!(!group_minimized_dfa.match_whole("b"));
    assert!(!group_minimized_dfa.match_whole("aba"));
}
