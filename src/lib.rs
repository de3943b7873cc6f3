pub mod automaton;
pub mod closure;
pub mod determinize;
pub mod language;
pub mod laws;
pub mod lemmas;
pub mod matching;
pub mod minimize;
pub mod parse_tree;
pub mod product;
