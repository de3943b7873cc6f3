use vstd::prelude::*;
use std::ops::Range;
use crate::automaton::Automaton;
use crate::determinize::nfa_to_dfa;
use crate::matching::shift_ranges;
use crate::language::lang;
use crate::minimize::dfa_to_minimized_dfa;
use crate::parse_tree::{from_ast, ParseTree};

verus! {

/// Determinization preserves the language: for any `dfa` that
/// `nfa_to_dfa` may return for `nfa`, and any `result` that `match_whole`
/// may return on `dfa` and `input`, `result` agrees with the
/// epsilon-closure simulation of `nfa`.
pub proof fn law_determinization_preserves_language(
    nfa: &Automaton,
    dfa: Automaton,
    input: &str,
    result: bool,
)
    requires
        call_ensures(nfa_to_dfa, (nfa,), dfa),
        call_ensures(Automaton::match_whole, (&dfa, input), result),
    ensures
        dfa.start_state is Some,
        result == nfa.nfa_accepts(input@),
{
}

/// Compiling a pattern and matching: for any `nfa` that `from_ast` may
/// build for `tree`, any `min` that `into_min_dfa` may return for it, and
/// any `result` of `match_whole` on `min` and `input`, `result` says whether
/// `input` is a word of `tree`.
pub proof fn law_pattern_matching(
    tree: &ParseTree,
    nfa: Automaton,
    min: Automaton,
    input: &str,
    result: bool,
)
    requires
        call_ensures(from_ast, (tree,), nfa),
        call_ensures(Automaton::into_min_dfa, (nfa,), min),
        call_ensures(Automaton::match_whole, (&min, input), result),
    ensures
        min.wf(),
        min.start_state is Some,
        result == lang(*tree, input@),
{
}

/// Minimizing twice: for any `m1` that `dfa_to_minimized_dfa` may return
/// for `d` and any `m2` it may return for `m1`, `m2` recognizes the language
/// of `m1` (and of `d`) and has no more states.
pub proof fn law_minimization_idempotent(d: &Automaton, m1: Automaton, m2: Automaton)
    requires
        call_ensures(dfa_to_minimized_dfa, (d,), m1),
        call_ensures(dfa_to_minimized_dfa, (&m1,), m2),
    ensures
        forall|u: Seq<char>| #[trigger] m2.accepts(u) == m1.accepts(u),
        forall|u: Seq<char>| #[trigger] m2.accepts(u) == d.accepts(u),
        m2.num_states() <= m1.num_states(),
{
    assert forall|u: Seq<char>| #[trigger] m2.accepts(u) == d.accepts(u) by {
        assert(m2.accepts(u) == m1.accepts(u));
        assert(m1.accepts(u) == d.accepts(u));
    }
}

/// Asking a minimal automaton for its minimal automaton returns it as it
/// is.
pub proof fn law_into_min_dfa_idempotent(m1: Automaton, m2: Automaton)
    requires
        m1.kind == crate::automaton::AutomatonKind::MinDfa,
        call_ensures(Automaton::into_min_dfa, (m1,), m2),
    ensures
        m2 == m1,
{
}

/// Intersection: for any `r` that `intersection` may return for `a` and
/// `b`, `match_whole` on `r` is true exactly when both `a` and `b` accept.
pub proof fn law_intersection(a: &Automaton, b: &Automaton, r: Automaton, input: &str, result: bool)
    requires
        call_ensures(Automaton::intersection, (a, b), r),
        call_ensures(Automaton::match_whole, (&r, input), result),
    ensures
        result == (a.accepts(input@) && b.accepts(input@)),
{
}

/// Substrings are composed of prefixes: a range is among those that
/// `match_substrings` returns on `input` exactly when, for a start offset
/// `i`, it is an accepted prefix of the suffix from `i` (as
/// `match_all_prefixes` reports them) moved right by `i`.
pub proof fn law_substrings_from_prefixes(a: &Automaton, input: &str, subs: Vec<Range<usize>>, r: Range<usize>)
    requires
        call_ensures(Automaton::match_substrings, (a, input), subs),
    ensures
        subs@.contains(r) <==> exists|i: int, k: int|
            0 <= i < input@.len() && 0 <= k < a.all_prefixes(input@.skip(i)).len() && r
                == #[trigger] shift_ranges(a.all_prefixes(input@.skip(i)), i)[k],
{
    lemma_substrings_from_prefixes(a, input@, input@.len(), r);
}

/// The ranges of `substrings_upto` are the shifted prefixes of the suffixes
/// starting before `n`.
pub proof fn lemma_substrings_from_prefixes(a: &Automaton, s: Seq<char>, n: nat, r: Range<usize>)
    requires
        n <= s.len(),
    ensures
        a.substrings_upto(s, n).contains(r) <==> exists|i: int, k: int|
            0 <= i < n && 0 <= k < a.all_prefixes(s.skip(i)).len() && r == #[trigger] shift_ranges(
                a.all_prefixes(s.skip(i)),
                i,
            )[k],
    decreases n,
{
    if n > 0 {
        lemma_substrings_from_prefixes(a, s, (n - 1) as nat, r);
        let prev = a.substrings_upto(s, (n - 1) as nat);
        let last = shift_ranges(a.all_prefixes(s.skip(n - 1)), n - 1);
        let all = a.substrings_upto(s, n);
        assert(all == prev + last);
        if all.contains(r) {
            let j = choose|j: int| 0 <= j < all.len() && all[j] == r;
            if j >= prev.len() {
                assert(last[j - prev.len()] == r);
                assert(r == shift_ranges(a.all_prefixes(s.skip(n - 1)), n - 1)[j - prev.len()]);
            } else {
                assert(prev[j] == r);
            }
        }
        if exists|i: int, k: int|
            0 <= i < n && 0 <= k < a.all_prefixes(s.skip(i)).len() && r == #[trigger] shift_ranges(
                a.all_prefixes(s.skip(i)),
                i,
            )[k] {
            let (i, k) = choose|i: int, k: int|
                0 <= i < n && 0 <= k < a.all_prefixes(s.skip(i)).len() && r == #[trigger] shift_ranges(
                    a.all_prefixes(s.skip(i)),
                    i,
                )[k];
            if i == n - 1 {
                assert(all[prev.len() + k] == r);
            } else {
                assert(prev.contains(r));
                let j = choose|j: int| 0 <= j < prev.len() && prev[j] == r;
                assert(all[j] == r);
            }
        }
    }
}

} // verus!
