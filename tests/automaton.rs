use regex_dfa::automaton::Automaton;
use regex_dfa::parse_tree::{from_ast, ParseTree};

fn word(s: &str) -> ParseTree {
    ParseTree::Concatenation(s.chars().map(ParseTree::Atom).collect())
}

fn plus(t: ParseTree) -> ParseTree {
    ParseTree::OneOrMore(Box::new(t))
}

fn star(t: ParseTree) -> ParseTree {
    ParseTree::ZeroOrMore(Box::new(t))
}

fn compile(t: &ParseTree) -> Automaton {
    from_ast(t).into_min_dfa()
}

#[test]
fn test_concatenation_whole_1() {
    let automaton = compile(&word("abc"));
    assert!(automaton.match_whole("abc"));
    assert!(!automaton.match_whole("abcc"));
    assert!(!automaton.match_whole("ab"));
}

#[test]
fn test_concatenation_whole_2() {
    let automaton = compile(&word("aaabc"));
    assert!(automaton.match_whole("aaabc"));
    assert!(!automaton.match_whole("abcc"));
    assert!(!automaton.match_whole("ab"));
}

#[test]
fn test_concatenation_substrings_1() {
    let automaton = compile(&plus(ParseTree::Atom('a')));
    let input_str = "aaa";
    assert_eq!(
        automaton.match_substrings(input_str),
        vec![(0..1), (0..2), (0..3), (1..2), (1..3), (2..3)]
    );
    assert_eq!(
        automaton.match_longest_substring(input_str),
        Some(0..input_str.len())
    );
}

#[test]
fn test_concatenation_substrings_2() {
    let automaton = compile(&star(ParseTree::Atom('a')));
    let input_str = "aaa";
    assert_eq!(
        automaton.match_substrings(input_str),
        vec![
            (0..0),
            (0..1),
            (0..2),
            (0..3),
            (1..1),
            (1..2),
            (1..3),
            (2..2),
            (2..3)
        ]
    );
}

#[test]
fn test_alternation_1() {
    let automaton = compile(&ParseTree::Alternation(vec![
        ParseTree::Atom('a'),
        ParseTree::Atom('b'),
    ]));
    assert!(automaton.match_whole("a"));
    assert!(automaton.match_whole("b"));
    assert!(!automaton.match_whole("ab"));
}

#[test]
fn test_grouping_1() {
    let tree = ParseTree::Concatenation(vec![
        ParseTree::Atom('a'),
        ParseTree::Group(Box::new(ParseTree::Alternation(vec![word("bcd"), word("efg")]))),
    ]);
    let automaton = compile(&tree);
    assert!(automaton.match_whole("abcd"));
    assert!(automaton.match_whole("aefg"));
    assert!(!automaton.match_whole("abcdefg"));
    assert!(!automaton.match_whole("a"));
    assert!(!automaton.match_whole("abcde"));
}

#[test]
fn test_star_1() {
    let automaton = compile(&star(ParseTree::Atom('a')));
    assert!(automaton.match_whole(""));
    assert!(automaton.match_whole("a"));
    assert!(automaton.match_whole("aa"));
    assert!(automaton.match_whole("aaa"));
    assert!(!automaton.match_whole("aaab"));
}

#[test]
fn test_plus_1() {
    let automaton = compile(&plus(ParseTree::Atom('a')));
    assert!(!automaton.match_whole(""));
    assert!(automaton.match_whole("a"));
    assert!(automaton.match_whole("aa"));
    assert!(automaton.match_whole("aaa"));
    assert!(!automaton.match_whole("aaab"));
}

#[test]
fn test_question_1() {
    let automaton = compile(&ParseTree::ZeroOrOne(Box::new(ParseTree::Atom('a'))));
    assert!(automaton.match_whole(""));
    assert!(automaton.match_whole("a"));
    assert!(!automaton.match_whole("aa"));
}

#[test]
fn test_literal_range_1() {
    let letters: Vec<char> = ('a'..='z').collect();
    let automaton = compile(&plus(ParseTree::Class(letters)));
    for atom in (b'a'..=b'z').map(char::from) {
        assert!(automaton.match_whole(&atom.to_string()));
    }
    assert!(automaton.match_whole("abcdefghijk"));
    assert!(!automaton.match_whole("1"));
}

#[test]
fn test_intersection_1() {
    let tree1 = ParseTree::Concatenation(vec![
        ParseTree::Atom('a'),
        ParseTree::Atom('a'),
        ParseTree::Atom('a'),
        star(ParseTree::Atom('b')),
    ]);
    let automaton1 = compile(&tree1);
    assert!(automaton1.match_whole("aaa"));
    assert!(automaton1.match_whole("aaab"));
    assert!(!automaton1.match_whole("aaac"));
    let tree2 = ParseTree::Concatenation(vec![plus(ParseTree::Atom('a')), star(ParseTree::Atom('c'))]);
    let automaton2 = compile(&tree2);
    assert!(automaton2.match_whole("aaa"));
    assert!(!automaton2.match_whole("aaab"));
    assert!(automaton2.match_whole("aaac"));
    let intersection = automaton1.intersection(&automaton2).into_min_dfa();
    assert!(intersection.match_whole("aaa"));
    assert!(!intersection.match_whole("aaab"));
    assert!(!intersection.match_whole("aaac"));
}
