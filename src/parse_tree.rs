use vstd::prelude::*;
use crate::automaton::{Automaton, AutomatonKind, Transition};
use crate::language::{
    lab, lang, lang_all, lang_any, lang_star, lemma_fragment_accepts, lemma_reads_append,
    lemma_reads_embed, lemma_reads_exit, lemma_reads_first, lemma_reads_no_entry, lemma_reads_no_exit,
    lemma_lang_all, lemma_lang_plus, lemma_lang_star, lemma_reads_step,
};

verus! {

/// A regular expression as a tree.
#[derive(Debug)]
pub enum ParseTree {
    /// The operands one after the other.
    Concatenation(Vec<ParseTree>),
    /// Any one of the alternatives.
    Alternation(Vec<ParseTree>),
    /// Any number of repetitions, none included.
    ZeroOrMore(Box<ParseTree>),
    /// At least one repetition.
    OneOrMore(Box<ParseTree>),
    /// The operand or nothing.
    ZeroOrOne(Box<ParseTree>),
    /// One character.
    Atom(char),
    /// Any one character of a class, listed member by member.
    Class(Vec<char>),
    /// A parenthesised operand.
    Group(Box<ParseTree>),
    /// The empty string.
    Empty,
}

impl Automaton {
    /// `f` is the one accepting state.
    pub open spec fn accepts_only(&self, f: int) -> bool {
        forall|q: int| #[trigger] self.accepting_at(q) <==> q == f
    }

    /// A construction fragment: well formed, with a start state and exactly
    /// one accepting state.
    pub open spec fn is_fragment(&self) -> bool {
        &&& self.wf()
        &&& self.start_state is Some
        &&& exists|f: int| 0 <= f < self.num_states() && #[trigger] self.accepts_only(f)
    }

    /// Start and accepting state of a fragment.
    fn fragment_ends(&self) -> (r: (usize, usize))
        requires
            self.is_fragment(),
        ensures
            self.start_state == Some(r.0),
            r.1 < self.num_states(),
            forall|q: int| #[trigger] self.accepting_at(q) <==> q == r.1,
    {
        let s = match self.start_state {
            Some(s) => s,
            None => 0,
        };
        let f = match self.accepting_state() {
            Some(f) => f,
            None => 0,
        };
        proof {
            let f0 = choose|f0: int| 0 <= f0 < self.num_states() && #[trigger] self.accepts_only(f0);
            assert(self.accepting_at(f0));
        }
        (s, f)
    }
}

/// Appends the fragment `frag` to `r` and returns where its start and
/// accepting states landed.
fn merge_fragment(r: &mut Automaton, frag: Automaton) -> (res: (usize, usize))
    requires
        old(r).wf(),
        frag.is_fragment(),
    ensures
        final(r).wf(),
        final(r).num_states() == old(r).num_states() + frag.num_states(),
        final(r).start_state == old(r).start_state,
        old(r).num_states() <= res.0 < final(r).num_states(),
        old(r).num_states() <= res.1 < final(r).num_states(),
        frag.start_state == Some((res.0 - old(r).num_states()) as usize),
        frag.accepts_only(res.1 - old(r).num_states()),
        forall|p: int, q: int, l: Option<char>|
            p < old(r).num_states() ==> #[trigger] final(r).has_edge(p, q, l) == old(r).has_edge(p, q, l),
        forall|p: int, q: int, l: Option<char>|
            old(r).num_states() <= p ==> (#[trigger] final(r).has_edge(p, q, l) <==> (old(r).num_states()
                <= q && frag.has_edge(p - old(r).num_states(), q - old(r).num_states(), l))),
{
    let (fs, fe) = frag.fragment_ends();
    let off = r.states.len();
    r.add_states_and_transitions(frag);
    // The merged length, a `usize`, bounds both sums.
    let merged = r.states.len();
    assert(frag.accepts_only(fe as int));
    (fs + off, fe + off)
}

/// Makes `end` the one accepting state and `start` the start state.
fn finish_fragment(r: &mut Automaton, start: usize, end: usize)
    requires
        old(r).wf(),
        start < old(r).num_states(),
        end < old(r).num_states(),
    ensures
        final(r).is_fragment(),
        final(r).kind == AutomatonKind::Nfa,
        final(r).num_states() == old(r).num_states(),
        final(r).start_state == Some(start),
        final(r).accepts_only(end as int),
        forall|p: int, q: int, l: Option<char>| #[trigger] final(r).has_edge(p, q, l) == old(r).has_edge(p, q, l),
{
    r.set_start_state(start);
    r.clear_accepting();
    r.set_accepting(end, true);
    assert(r.accepts_only(end as int));
    assert forall|p: int, q: int, l: Option<char>| #[trigger] r.has_edge(p, q, l) == old(r).has_edge(p, q, l) by {
        if 0 <= p < r.num_states() {
            assert(r.out(p) == old(r).out(p));
        }
    }
}

/// Automata with the same edges have the same walks.
proof fn lemma_same_edges_walks(a: &Automaton, b: &Automaton, p: int, w: Seq<char>, q: int)
    requires
        a.num_states() == b.num_states(),
        forall|p1: int, q1: int, l: Option<char>| #[trigger] a.has_edge(p1, q1, l) == b.has_edge(p1, q1, l),
    ensures
        a.walks(p, w, q) == b.walks(p, w, q),
{
    if a.walks(p, w, q) {
        let n = choose|n: nat| #[trigger] a.reads(p, w, q, n);
        lemma_reads_embed(a, b, 0, p, w, q, n);
        assert(b.reads(p, w, q, n));
    }
    if b.walks(p, w, q) {
        let n = choose|n: nat| #[trigger] b.reads(p, w, q, n);
        lemma_reads_embed(b, a, 0, p, w, q, n);
        assert(a.reads(p, w, q, n));
    }
}

/// The language of a fragment, read as walks from its start to its
/// accepting state.
proof fn lemma_fragment_walks(f: &Automaton, s: int, e: int, t: ParseTree)
    requires
        f.wf(),
        f.start_state == Some(s as usize),
        0 <= s <= usize::MAX,
        f.accepts_only(e),
        forall|w: Seq<char>| #[trigger] f.nfa_accepts(w) == lang(t, w),
    ensures
        forall|w: Seq<char>| #[trigger] f.walks(s, w, e) == lang(t, w),
{
    assert forall|w: Seq<char>| #[trigger] f.walks(s, w, e) == lang(t, w) by {
        lemma_fragment_accepts(f, e, w);
        assert(f.nfa_accepts(w) == lang(t, w));
    }
}

/// The fragment of `tree`, by Thompson's construction: it accepts, read
/// nondeterministically, exactly the words of `tree`.
pub fn from_ast(tree: &ParseTree) -> (r: Automaton)
    ensures
        r.is_fragment(),
        r.kind == AutomatonKind::Nfa,
        forall|w: Seq<char>| #[trigger] r.nfa_accepts(w) == lang(*tree, w),
    decreases tree, 1nat,
{
    match tree {
        ParseTree::Concatenation(_) => build_concatenation(tree),
        ParseTree::Alternation(_) => build_alternation(tree),
        ParseTree::ZeroOrMore(_) => build_repetition(tree),
        ParseTree::OneOrMore(_) => build_repetition(tree),
        ParseTree::ZeroOrOne(_) => build_repetition(tree),
        ParseTree::Atom(c) => {
            let mut atoms: Vec<char> = Vec::new();
            atoms.push(*c);
            let r = build_literal(&atoms);
            assert forall|w: Seq<char>| #[trigger] r.nfa_accepts(w) == lang(*tree, w) by {
                if w.len() == 1 && atoms@.contains(w[0]) {
                    assert(w == seq![*c]);
                }
                if w == seq![*c] {
                    assert(atoms@[0] == w[0]);
                }
            }
            r
        },
        ParseTree::Class(atoms) => build_literal(atoms),
        ParseTree::Group(inner) => {
            from_ast(inner)
        },
        ParseTree::Empty => build_empty(),
    }
}

/// The operands' fragments chained by epsilon edges, each accepting state
/// to the next start state; no operand gives the empty fragment. It accepts
/// the concatenations of words of the operands.
fn build_concatenation(tree: &ParseTree) -> (r: Automaton)
    requires
        tree is Concatenation,
    ensures
        r.is_fragment(),
        r.kind == AutomatonKind::Nfa,
        forall|w: Seq<char>| #[trigger] r.nfa_accepts(w) == lang(*tree, w),
    decreases tree, 0nat,
{
    let asts = match tree {
        ParseTree::Concatenation(asts) => asts,
        _ => {
            proof {
                assert(false);
            }
            return build_empty();
        },
    };
    if asts.len() == 0 {
        let r = build_empty();
        assert forall|w: Seq<char>| #[trigger] r.nfa_accepts(w) == lang(*tree, w) by {
            assert(*tree == ParseTree::Concatenation(*asts));
            assert(asts@.len() == 0);
            assert(lang(*tree, w) == lang_all(asts@, w));
        }
        return r;
    }
    let mut concat_automaton = Automaton::new();
    let concat_start_state = concat_automaton.add_state();
    concat_automaton.set_start_state(concat_start_state);
    let mut concat_end_state = concat_start_state;
    proof {
        assert forall|w: Seq<char>| #[trigger] concat_automaton.walks(0, w, 0) == lang_all(asts@.take(0), w) by {
            if concat_automaton.walks(0, w, 0) {
                let n = choose|n: nat| #[trigger] concat_automaton.reads(0, w, 0, n);
                assert forall|q1: int, l: Option<char>| !#[trigger] concat_automaton.has_edge(0, q1, l) by {
                    assert(concat_automaton.out(0).len() == 0);
                }
                lemma_reads_no_exit(&concat_automaton, 0, w, 0, n);
            }
            if w.len() == 0 {
                assert(concat_automaton.reads(0, w, 0, 0));
            }
        }
    }
    let mut i: usize = 0;
    while i < asts.len()
        invariant
            concat_automaton.wf(),
            concat_automaton.start_state == Some(concat_start_state),
            concat_start_state == 0,
            concat_end_state < concat_automaton.num_states(),
            concat_automaton.kind == AutomatonKind::Nfa,
            i <= asts@.len(),
            i > 0 ==> concat_automaton.accepts_only(concat_end_state as int),
            forall|k: int| 0 <= k < asts@.len() ==> decreases_to!(*tree => #[trigger] asts@[k]),
            *tree == ParseTree::Concatenation(*asts),
            forall|w: Seq<char>| #[trigger] concat_automaton.walks(0, w, concat_end_state as int)
                == lang_all(asts@.take(i as int), w),
        decreases asts@.len() - i,
    {
        assert(decreases_to!(*tree => asts@[i as int]));
        let append_automaton = from_ast(&asts[i]);
        let ghost b = append_automaton;
        let ghost r0 = concat_automaton;
        let ghost off = r0.num_states() as int;
        let (append_start, append_end) = merge_fragment(&mut concat_automaton, append_automaton);
        let ghost r1 = concat_automaton;
        concat_automaton.add_transition(concat_end_state, append_start, None);
        let ghost r2 = concat_automaton;
        let ghost old_end = concat_end_state as int;
        concat_end_state = append_end;
        finish_fragment(&mut concat_automaton, concat_start_state, concat_end_state);
        proof {
            let bs = append_start - off;
            let be = append_end - off;
            lemma_fragment_walks(&b, bs, be, asts@[i as int]);
            let ts1 = asts@.take(i + 1);
            assert(ts1.drop_last() == asts@.take(i as int));
            assert(ts1.last() == asts@[i as int]);
            assert forall|w: Seq<char>| #[trigger] concat_automaton.walks(0, w, append_end as int)
                == lang_all(ts1, w) by {
                lemma_same_edges_walks(&concat_automaton, &r2, 0, w, append_end as int);
                lemma_lang_all(ts1, w);
                if r2.walks(0, w, append_end as int) {
                    let n = choose|n: nat| #[trigger] r2.reads(0, w, append_end as int, n);
                    assert(r2.reads(0int + 0int, w, append_end as int, n));
                    let ex = lemma_reads_exit(&r2, &r0, 0, old_end, 0, w, append_end as int, n);
                    assert(!ex.0);
                    assert(ex.3 == append_start as int);
                    assert(r2.reads(bs + off, ex.5, be + off, ex.6));
                    let ex2 = lemma_reads_exit(&r2, &b, off, be, bs, ex.5, be + off, ex.6);
                    if !ex2.0 {
                        assert(r2.has_edge(be + off, ex2.3, ex2.4));
                    }
                    assert(b.walks(bs, ex.5, be));
                    assert(r0.walks(0, ex.1, old_end));
                    let j = ex.1.len() as int;
                    assert(w.take(j) == ex.1);
                    assert(w.skip(j) == ex.5);
                    assert(lang(ts1.last(), w.skip(j)));
                    assert(lang_all(ts1.drop_last(), w.take(j)));
                }
                if lang_all(ts1, w) {
                    let j = choose|j: int| 0 <= j <= w.len() && #[trigger] lang_all(ts1.drop_last(), w.take(j))
                        && lang(ts1.last(), w.skip(j));
                    assert(r0.walks(0, w.take(j), old_end));
                    let n1 = choose|n1: nat| #[trigger] r0.reads(0, w.take(j), old_end, n1);
                    lemma_reads_embed(&r0, &r2, 0, 0, w.take(j), old_end, n1);
                    assert(b.walks(bs, w.skip(j), be));
                    let n2 = choose|n2: nat| #[trigger] b.reads(bs, w.skip(j), be, n2);
                    lemma_reads_embed(&b, &r2, off, bs, w.skip(j), be, n2);
                    lemma_reads_step(&r2, old_end, bs + off, None, w.skip(j), be + off, n2);
                    lemma_reads_append(&r2, 0, w.take(j), old_end, n1, lab(None) + w.skip(j), be + off, n2 + 1);
                    assert(w.take(j) + (lab(None) + w.skip(j)) == w);
                    assert(r2.reads(0, w, append_end as int, n1 + n2 + 1));
                }
            }
        }
        i += 1;
    }
    assert(asts@.take(asts@.len() as int) == asts@);
    assert forall|w: Seq<char>| #[trigger] concat_automaton.nfa_accepts(w) == lang(*tree, w) by {
        lemma_fragment_accepts(&concat_automaton, concat_end_state as int, w);
    }
    concat_automaton
}

/// A new start and accepting state, joined by epsilon edges to and from
/// each alternative's fragment. It accepts the words of any alternative.
fn build_alternation(tree: &ParseTree) -> (r: Automaton)
    requires
        tree is Alternation,
    ensures
        r.is_fragment(),
        r.kind == AutomatonKind::Nfa,
        forall|w: Seq<char>| #[trigger] r.nfa_accepts(w) == lang(*tree, w),
    decreases tree, 0nat,
{
    let asts = match tree {
        ParseTree::Alternation(asts) => asts,
        _ => {
            proof {
                assert(false);
            }
            return build_empty();
        },
    };
    let mut alternation_automaton = Automaton::new();
    let start_state = alternation_automaton.add_state();
    let end_state = alternation_automaton.add_state();
    proof {
        assert forall|p: int, q: int, l: Option<char>| !#[trigger] alternation_automaton.has_edge(p, q, l) by {
            if 0 <= p < 2 {
                assert(alternation_automaton.out(p).len() == 0);
            }
        }
        assert forall|w: Seq<char>| !#[trigger] alternation_automaton.walks(0, w, 1) by {
            if alternation_automaton.walks(0, w, 1) {
                let n = choose|n: nat| #[trigger] alternation_automaton.reads(0, w, 1, n);
                lemma_reads_no_exit(&alternation_automaton, 0, w, 1, n);
            }
        }
    }
    let mut i: usize = 0;
    while i < asts.len()
        invariant
            alternation_automaton.wf(),
            start_state == 0,
            end_state == 1,
            alternation_automaton.num_states() >= 2,
            i <= asts@.len(),
            forall|k: int| 0 <= k < asts@.len() ==> decreases_to!(*tree => #[trigger] asts@[k]),
            *tree == ParseTree::Alternation(*asts),
            forall|p: int, l: Option<char>| !#[trigger] alternation_automaton.has_edge(p, 0, l),
            forall|q: int, l: Option<char>| !#[trigger] alternation_automaton.has_edge(1, q, l),
            forall|w: Seq<char>| #[trigger] alternation_automaton.walks(0, w, 1) == lang_any(asts@.take(i as int), w),
        decreases asts@.len() - i,
    {
        assert(decreases_to!(*tree => asts@[i as int]));
        let alternative = from_ast(&asts[i]);
        let ghost b = alternative;
        let ghost r0 = alternation_automaton;
        let ghost off = r0.num_states() as int;
        let (alt_start, alt_end) = merge_fragment(&mut alternation_automaton, alternative);
        let ghost r1 = alternation_automaton;
        alternation_automaton.add_transition(start_state, alt_start, None);
        let ghost r2 = alternation_automaton;
        alternation_automaton.add_transition(alt_end, end_state, None);
        proof {
            let c = alternation_automaton;
            let bs = alt_start - off;
            let be = alt_end - off;
            lemma_fragment_walks(&b, bs, be, asts@[i as int]);
            assert forall|p: int, q: int, l: Option<char>| p < off implies (#[trigger] c.has_edge(p, q, l)
                <==> (r0.has_edge(p, q, l) || (p == 0 && q == alt_start && l == None::<char>))) by {
                assert(r1.has_edge(p, q, l) == r0.has_edge(p, q, l));
            }
            assert forall|p: int, q: int, l: Option<char>| off <= p implies (#[trigger] c.has_edge(p, q, l)
                <==> ((off <= q && b.has_edge(p - off, q - off, l)) || (p == alt_end && q == 1 && l == None::<char>))) by {
                assert(r1.has_edge(p, q, l) == (off <= q && b.has_edge(p - off, q - off, l)));
            }
            assert forall|p: int, l: Option<char>| !#[trigger] c.has_edge(p, 0, l) by {
                if p < off {
                    assert(!r0.has_edge(p, 0, l));
                } else {
                    assert(c.has_edge(p, 0, l) <==> ((off <= 0 && b.has_edge(p - off, 0 - off, l)) || (p == alt_end && 0 == 1 && l == None::<char>)));
                }
            }
            assert forall|q: int, l: Option<char>| !#[trigger] c.has_edge(1, q, l) by {
                assert(!r0.has_edge(1, q, l));
            }
            let ts1 = asts@.take(i + 1);
            assert(ts1.drop_last() == asts@.take(i as int));
            assert(ts1.last() == asts@[i as int]);
            assert forall|w: Seq<char>| #[trigger] c.walks(0, w, 1) == lang_any(ts1, w) by {
                if c.walks(0, w, 1) {
                    let n = choose|n: nat| #[trigger] c.reads(0, w, 1, n);
                    assert(c.reads(0int + 0int, w, 1, n));
                    let ex = lemma_reads_exit(&c, &r0, 0, 0, 0, w, 1, n);
                    if ex.0 {
                        assert(r0.walks(0, w, 1));
                    } else {
                        lemma_reads_no_entry(&r0, 0, 0, ex.1, ex.2);
                        assert(ex.3 == alt_start as int);
                        assert(c.reads(bs + off, ex.5, 1, ex.6));
                        let ex2 = lemma_reads_exit(&c, &b, off, be, bs, ex.5, 1, ex.6);
                        assert(!ex2.0);
                        assert(ex2.3 == 1);
                        lemma_reads_no_exit(&c, 1, ex2.5, 1, ex2.6);
                        assert(w == ex2.1);
                        assert(b.walks(bs, w, be));
                        assert(lang(asts@[i as int], w));
                    }
                }
                if lang_any(ts1, w) {
                    if lang_any(asts@.take(i as int), w) {
                        assert(r0.walks(0, w, 1));
                        let n = choose|n: nat| #[trigger] r0.reads(0, w, 1, n);
                        lemma_reads_embed(&r0, &c, 0, 0, w, 1, n);
                        assert(c.reads(0, w, 1, n));
                    } else {
                        assert(b.walks(bs, w, be));
                        let n = choose|n: nat| #[trigger] b.reads(bs, w, be, n);
                        lemma_reads_embed(&b, &c, off, bs, w, be, n);
                        assert(c.reads(1, seq![], 1, 0));
                        lemma_reads_step(&c, be + off, 1, None, seq![], 1, 0);
                        lemma_reads_append(&c, bs + off, w, be + off, n, lab(None) + seq![], 1, 1);
                        assert(w + (lab(None) + seq![]) == w);
                        lemma_reads_step(&c, 0, bs + off, None, w, 1, n + 1);
                        assert(lab(None) + w == w);
                        assert(c.reads(0, w, 1, n + 2));
                    }
                }
            }
        }
        i += 1;
    }
    let ghost before = alternation_automaton;
    finish_fragment(&mut alternation_automaton, start_state, end_state);
    assert(asts@.take(asts@.len() as int) == asts@);
    assert forall|w: Seq<char>| #[trigger] alternation_automaton.nfa_accepts(w) == lang(*tree, w) by {
        lemma_same_edges_walks(&alternation_automaton, &before, 0, w, 1);
        lemma_fragment_accepts(&alternation_automaton, 1, w);
    }
    alternation_automaton
}

/// The edges of a repetition fragment around `b` moved by two: into and out
/// of `b`, a loop back when `loops`, a bypass when `bypass`.
pub open spec fn repetition_edges(c: &Automaton, b: &Automaton, bs: int, be: int, loops: bool, bypass: bool) -> bool {
    &&& c.num_states() == b.num_states() + 2
    &&& 0 <= bs < b.num_states()
    &&& 0 <= be < b.num_states()
    &&& forall|q: int, l: Option<char>| #[trigger] c.has_edge(0, q, l) <==> ((q == bs + 2 && l
        == None::<char>) || (bypass && q == 1 && l == None::<char>))
    &&& forall|q: int, l: Option<char>| #[trigger] c.has_edge(1, q, l) <==> (loops && q == 0 && l
        == None::<char>)
    &&& forall|p: int, q: int, l: Option<char>|
        2 <= p ==> (#[trigger] c.has_edge(p, q, l) <==> ((2 <= q && b.has_edge(p - 2, q - 2, l)) || (
        p == be + 2 && q == 1 && l == None::<char>)))
}

/// A walk from the start of a repetition fragment to its end: the bypass,
/// then a walk from the end to itself; or a word of `b`, then such a walk.
proof fn lemma_repetition_sound_step(c: &Automaton, b: &Automaton, bs: int, be: int, loops: bool, bypass: bool, w: Seq<char>, n: nat)
    -> (res: (Seq<char>, Seq<char>, nat))
    requires
        repetition_edges(c, b, bs, be, loops, bypass),
        c.reads(0, w, 1, n),
    ensures
        w == res.0 + res.1,
        b.walks(bs, res.0, be) || (bypass && res.0.len() == 0),
        res.2 < n,
        (res.1.len() == 0) || (loops && c.reads(0, res.1, 1, res.2)),
{
    let (r, l, w1) = lemma_reads_first(c, 0, w, 1, n);
    assert(c.has_edge(0, r, l));
    let (u, rest, m): (Seq<char>, Seq<char>, nat) = if r == 1 {
        assert(w == w1);
        (seq![], w1, (n - 1) as nat)
    } else {
        assert(r == bs + 2);
        assert(c.reads(bs + 2, w1, 1, (n - 1) as nat));
        let ex = lemma_reads_exit(c, b, 2, be, bs, w1, 1, (n - 1) as nat);
        assert(!ex.0);
        assert(c.has_edge(be + 2, ex.3, ex.4));
        assert(ex.3 == 1);
        assert(b.reads(bs, ex.1, be, ex.2));
        assert(w1 == ex.1 + ex.5);
        assert(w == ex.1 + ex.5);
        (ex.1, ex.5, ex.6)
    };
    if m == 0 {
        assert(rest.len() == 0);
        (u, rest, 0)
    } else {
        let (r2, l2, rest2) = lemma_reads_first(c, 1, rest, 1, m);
        assert(c.has_edge(1, r2, l2));
        assert(rest == rest2);
        (u, rest, (m - 1) as nat)
    }
}

/// A walk from the end of a repetition fragment with a loop back to itself
/// reading each word of `lang_star`.
proof fn lemma_repetition_loop(c: &Automaton, b: &Automaton, bs: int, be: int, bypass: bool, inner: ParseTree, w: Seq<char>)
    requires
        repetition_edges(c, b, bs, be, true, bypass),
        forall|u: Seq<char>| #[trigger] b.walks(bs, u, be) == lang(inner, u),
        lang_star(inner, w),
    ensures
        c.walks(1, w, 1),
    decreases w.len(),
{
    lemma_lang_star(inner, w);
    if w.len() == 0 {
        assert(c.reads(1, w, 1, 0));
    } else {
        let i = choose|i: int| 0 < i <= w.len() && #[trigger] lang(inner, w.take(i)) && lang_star(inner, w.skip(i));
        lemma_repetition_loop(c, b, bs, be, bypass, inner, w.skip(i));
        let m = choose|m: nat| #[trigger] c.reads(1, w.skip(i), 1, m);
        lemma_repetition_inner(c, b, bs, be, true, bypass, w.take(i));
        let k = choose|k: nat| #[trigger] c.reads(0, w.take(i), 1, k);
        lemma_reads_append(c, 0, w.take(i), 1, k, w.skip(i), 1, m);
        assert(w.take(i) + w.skip(i) == w);
        assert(c.has_edge(1, 0, None));
        lemma_reads_step(c, 1, 0, None, w, 1, k + m);
        assert(lab(None) + w == w);
        assert(c.reads(1, w, 1, k + m + 1));
    }
}

/// A word of `b` leads from the start of a repetition fragment to its end.
proof fn lemma_repetition_inner(c: &Automaton, b: &Automaton, bs: int, be: int, loops: bool, bypass: bool, u: Seq<char>)
    requires
        repetition_edges(c, b, bs, be, loops, bypass),
        b.walks(bs, u, be),
    ensures
        c.walks(0, u, 1),
{
    let n = choose|n: nat| #[trigger] b.reads(bs, u, be, n);
    assert forall|p1: int, q1: int, l: Option<char>| #[trigger] b.has_edge(p1, q1, l) implies c.has_edge(p1 + 2, q1 + 2, l) by {
        assert(c.has_edge(p1 + 2, q1 + 2, l) <==> ((2 <= q1 + 2 && b.has_edge(p1 + 2 - 2, q1 + 2 - 2, l)) || (
            p1 + 2 == be + 2 && q1 + 2 == 1 && l == None::<char>)));
    }
    lemma_reads_embed(b, c, 2, bs, u, be, n);
    assert(c.has_edge(be + 2, 1, None));
    assert(c.reads(1, seq![], 1, 0));
    lemma_reads_step(c, be + 2, 1, None, seq![], 1, 0);
    lemma_reads_append(c, bs + 2, u, be + 2, n, lab(None) + seq![], 1, 1);
    assert(u + (lab(None) + seq![]) == u);
    assert(c.has_edge(0, bs + 2, None));
    lemma_reads_step(c, 0, bs + 2, None, u, 1, n + 1);
    assert(lab(None) + u == u);
    assert(c.reads(0, u, 1, n + 2));
}

/// A repetition of a word of the operand and then repetitions is a
/// repetition.
proof fn lemma_plus_is_star(inner: ParseTree, w: Seq<char>)
    requires
        exists|i: int| 0 <= i <= w.len() && #[trigger] lang(inner, w.take(i)) && lang_star(inner, w.skip(i)),
    ensures
        lang_star(inner, w),
{
    lemma_lang_star(inner, w);
    let i = choose|i: int| 0 <= i <= w.len() && #[trigger] lang(inner, w.take(i)) && lang_star(inner, w.skip(i));
    if i == 0 {
        assert(w.skip(0) == w);
    } else {
        assert(0 < i <= w.len() && lang(inner, w.take(i)) && lang_star(inner, w.skip(i)));
    }
}

/// Walks from start to end of a repetition fragment read the words of the
/// repetition.
proof fn lemma_repetition_sound(c: &Automaton, b: &Automaton, bs: int, be: int, loops: bool, bypass: bool, inner: ParseTree, w: Seq<char>, n: nat)
    requires
        repetition_edges(c, b, bs, be, loops, bypass),
        loops || bypass,
        forall|u: Seq<char>| #[trigger] b.walks(bs, u, be) == lang(inner, u),
        c.reads(0, w, 1, n),
    ensures
        loops && bypass ==> lang_star(inner, w),
        loops && !bypass ==> exists|i: int| 0 <= i <= w.len() && #[trigger] lang(inner, w.take(i)) && lang_star(inner, w.skip(i)),
        !loops ==> w.len() == 0 || lang(inner, w),
    decreases n,
{
    let (u, v, m) = lemma_repetition_sound_step(c, b, bs, be, loops, bypass, w, n);
    lemma_lang_star(inner, w);
    lemma_lang_star(inner, v);
    let vs = v.len() == 0 || lang_star(inner, v);
    if v.len() > 0 {
        lemma_repetition_sound(c, b, bs, be, loops, bypass, inner, v, m);
        if loops && !bypass {
            lemma_plus_is_star(inner, v);
        }
    }
    assert(w.take(u.len() as int) == u);
    assert(w.skip(u.len() as int) == v);
    if loops && bypass {
        if u.len() == 0 {
            assert(w == v);
        } else {
            assert(lang(inner, w.take(u.len() as int)));
        }
    }
    if loops && !bypass {
        assert(lang(inner, w.take(u.len() as int)) && lang_star(inner, w.skip(u.len() as int)));
    }
    if !loops {
        assert(w == u);
    }
}

/// A new start and accepting state around the operand's fragment: epsilon
/// edges into and out of it, a loop back for `*` and `+`, a bypass for `*`
/// and `?`. It accepts the repetitions that the operator allows.
fn build_repetition(tree: &ParseTree) -> (r: Automaton)
    requires
        tree is ZeroOrMore || tree is OneOrMore || tree is ZeroOrOne,
    ensures
        r.is_fragment(),
        r.kind == AutomatonKind::Nfa,
        forall|w: Seq<char>| #[trigger] r.nfa_accepts(w) == lang(*tree, w),
    decreases tree, 0nat,
{
    let (inner, loops, bypass) = match tree {
        ParseTree::ZeroOrMore(inner) => (inner, true, true),
        ParseTree::OneOrMore(inner) => (inner, true, false),
        ParseTree::ZeroOrOne(inner) => (inner, false, true),
        _ => {
            proof {
                assert(false);
            }
            return build_empty();
        },
    };
    let mut repetition_automaton = Automaton::new();
    let start_state = repetition_automaton.add_state();
    let end_state = repetition_automaton.add_state();
    let ghost r0 = repetition_automaton;
    proof {
        assert forall|p: int, q: int, l: Option<char>| !#[trigger] r0.has_edge(p, q, l) by {
            if 0 <= p < 2 {
                assert(r0.out(p).len() == 0);
            }
        }
    }
    let inner_automaton = from_ast(inner);
    let ghost b = inner_automaton;
    let (inner_start, inner_end) = merge_fragment(&mut repetition_automaton, inner_automaton);
    let ghost r1 = repetition_automaton;
    repetition_automaton.add_transition(start_state, inner_start, None);
    let ghost r2 = repetition_automaton;
    repetition_automaton.add_transition(inner_end, end_state, None);
    let ghost r3 = repetition_automaton;
    if loops {
        repetition_automaton.add_transition(end_state, start_state, None);
    }
    let ghost r4 = repetition_automaton;
    if bypass {
        repetition_automaton.add_transition(start_state, end_state, None);
    }
    let ghost r5 = repetition_automaton;
    finish_fragment(&mut repetition_automaton, start_state, end_state);
    proof {
        let c = repetition_automaton;
        let bs = inner_start - 2;
        let be = inner_end - 2;
        assert forall|p: int, q: int, l: Option<char>| #[trigger] c.has_edge(p, q, l) == (
            (p < 2 && r1.has_edge(p, q, l)) || (2 <= p && 2 <= q && b.has_edge(p - 2, q - 2, l))
            || (p == 0 && q == inner_start && l == None::<char>)
            || (p == inner_end && q == 1 && l == None::<char>)
            || (loops && p == 1 && q == 0 && l == None::<char>)
            || (bypass && p == 0 && q == 1 && l == None::<char>)) by {
            assert(c.has_edge(p, q, l) == r5.has_edge(p, q, l));
            if !loops {
                assert(r4 == r3);
            }
            if !bypass {
                assert(r5 == r4);
            }
            if 2 <= p {
                assert(r1.has_edge(p, q, l) == (2 <= q && b.has_edge(p - 2, q - 2, l)));
            }
        }
        assert forall|p: int, q: int, l: Option<char>| p < 2 implies !#[trigger] r1.has_edge(p, q, l) by {
            assert(r1.has_edge(p, q, l) == r0.has_edge(p, q, l));
        }
        assert(repetition_edges(&c, &b, bs, be, loops, bypass)) by {
            assert forall|q: int, l: Option<char>| #[trigger] c.has_edge(0, q, l) <==> ((q == bs + 2 && l
                == None::<char>) || (bypass && q == 1 && l == None::<char>)) by {
                assert(!r1.has_edge(0, q, l));
            }
            assert forall|q: int, l: Option<char>| #[trigger] c.has_edge(1, q, l) <==> (loops && q == 0 && l
                == None::<char>) by {
                assert(!r1.has_edge(1, q, l));
            }
        }
        lemma_fragment_walks(&b, bs, be, **inner);

        assert forall|w: Seq<char>| #[trigger] c.nfa_accepts(w) == lang(*tree, w) by {
            lemma_fragment_accepts(&c, 1, w);
            if loops && !bypass {
                lemma_lang_plus(*tree, **inner, w);
            }
            if c.walks(0, w, 1) {
                let n = choose|n: nat| #[trigger] c.reads(0, w, 1, n);
                lemma_repetition_sound(&c, &b, bs, be, loops, bypass, **inner, w, n);
            }
            if lang(*tree, w) {
                if loops && bypass {
                    lemma_repetition_loop(&c, &b, bs, be, bypass, **inner, w);
                    let m = choose|m: nat| #[trigger] c.reads(1, w, 1, m);
                    assert(c.has_edge(0, 1, None));
                    lemma_reads_step(&c, 0, 1, None, w, 1, m);
                    assert(lab(None) + w == w);
                    assert(c.reads(0, w, 1, m + 1));
                } else if loops {
                    let i = choose|i: int| 0 <= i <= w.len() && #[trigger] lang(**inner, w.take(i)) && lang_star(**inner, w.skip(i));
                    lemma_repetition_inner(&c, &b, bs, be, loops, bypass, w.take(i));
                    let k = choose|k: nat| #[trigger] c.reads(0, w.take(i), 1, k);
                    lemma_repetition_loop(&c, &b, bs, be, bypass, **inner, w.skip(i));
                    let m = choose|m: nat| #[trigger] c.reads(1, w.skip(i), 1, m);
                    lemma_reads_append(&c, 0, w.take(i), 1, k, w.skip(i), 1, m);
                    assert(w.take(i) + w.skip(i) == w);
                    assert(c.reads(0, w, 1, k + m));
                } else if w.len() == 0 {
                    assert(c.has_edge(0, 1, None));
                    assert(c.reads(1, w, 1, 0));
                    lemma_reads_step(&c, 0, 1, None, w, 1, 0);
                    assert(lab(None) + w == w);
                    assert(c.reads(0, w, 1, 1));
                } else {
                    lemma_repetition_inner(&c, &b, bs, be, loops, bypass, w);
                }
            }
        }
    }
    repetition_automaton
}


/// Two states joined by one edge for each of `atoms`.
pub fn build_literal(atoms: &Vec<char>) -> (r: Automaton)
    ensures
        r.is_fragment(),
        r.kind == AutomatonKind::Nfa,
        forall|w: Seq<char>| #[trigger] r.nfa_accepts(w) == (w.len() == 1 && atoms@.contains(w[0])),
        r.num_states() == 2,
        r.start_state == Some(0usize),
        forall|q: int| #[trigger] r.accepting_at(q) <==> q == 1,
        forall|p: int, q: int, l: Option<char>|
            #[trigger] r.has_edge(p, q, l) <==> (p == 0 && q == 1 && (l matches Some(c)
                && atoms@.contains(c))),
{
    let mut r = Automaton::new();
    let start_state = r.add_state();
    let end_state = r.add_state();
    r.set_accepting(end_state, true);
    r.set_start_state(start_state);
    assert forall|p: int, q: int, l: Option<char>| !#[trigger] r.has_edge(p, q, l) by {
        if 0 <= p < 2 {
            assert(r.out(p).len() == 0);
        }
    }
    let mut i: usize = 0;
    while i < atoms.len()
        invariant
            r.wf(),
            r.num_states() == 2,
            r.start_state == Some(0usize),
            r.kind == AutomatonKind::Nfa,
            i <= atoms@.len(),
            forall|q: int| #[trigger] r.accepting_at(q) <==> q == 1,
            forall|p: int, q: int, l: Option<char>|
                #[trigger] r.has_edge(p, q, l) <==> (p == 0 && q == 1 && (l matches Some(c)
                    && atoms@.take(i as int).contains(c))),
        decreases atoms@.len() - i,
    {
        let ghost before = r;
        r.add_transition(0, 1, Some(atoms[i]));
        assert forall|p: int, q: int, l: Option<char>|
            #[trigger] r.has_edge(p, q, l) <==> (p == 0 && q == 1 && (l matches Some(c)
                && atoms@.take(i + 1).contains(c))) by {
            if let Some(c) = l {
                crate::lemmas::lemma_take_succ_contains(atoms@, i as int, c);
            }
            if 0 <= p < 2 && 0 <= q < 2 {
                let e = Transition { atom: l, from_state: p as usize, to_state: q as usize };
                let x = Transition { atom: Some(atoms@[i as int]), from_state: 0, to_state: 1 };
                assert(before.has_edge(0, 1, Some(atoms@[i as int])) == before.out(0).contains(x));
                assert(before.has_edge(p, q, l) <==> (p == 0 && q == 1 && (l matches Some(c)
                    && atoms@.take(i as int).contains(c))));
                assert(before.has_edge(p, q, l) == before.out(p).contains(e));
                assert(r.has_edge(p, q, l) == r.out(p).contains(e));
                assert((e == x) <==> (p == 0 && q == 1 && l == Some(atoms@[i as int])));
                if p == 0 {
                    crate::lemmas::lemma_push_contains(before.out(0), x, e);
                    assert(r.out(0).contains(e) == (before.out(0).contains(e) || e == x));
                } else {
                    assert(r.out(p) == before.out(p));
                }
            }
        }
        i += 1;
    }
    assert(atoms@.take(atoms@.len() as int) == atoms@);
    assert(r.accepts_only(1));
    assert forall|w: Seq<char>| #[trigger] r.nfa_accepts(w) == (w.len() == 1 && atoms@.contains(w[0])) by {
        lemma_two_state_language(&r, w);
        if w.len() == 1 && atoms@.contains(w[0]) {
            assert(w == lab(Some(w[0])));
            assert(r.has_edge(0, 1, Some(w[0])));
        }
        if r.nfa_accepts(w) {
            let l = choose|l: Option<char>| #[trigger] r.has_edge(0, 1, l) && w == lab(l);
            assert(l matches Some(c) && atoms@.contains(c));
        }
    }
    r
}

/// Two states joined by one epsilon edge.
pub fn build_empty() -> (r: Automaton)
    ensures
        r.is_fragment(),
        r.kind == AutomatonKind::Nfa,
        forall|p: int, q: int, l: Option<char>| #[trigger] r.has_edge(p, q, l) <==> (p == 0 && q == 1 && l is None),
        forall|w: Seq<char>| #[trigger] r.nfa_accepts(w) == (w.len() == 0),
        r.num_states() == 2,
        r.start_state == Some(0usize),
        forall|q: int| #[trigger] r.accepting_at(q) <==> q == 1,
{
    let mut r = Automaton::new();
    let start_state = r.add_state();
    let end_state = r.add_state();
    r.set_accepting(end_state, true);
    r.set_start_state(start_state);
    let ghost r0 = r;
    assert forall|p: int, q: int, l: Option<char>| !#[trigger] r0.has_edge(p, q, l) by {
        if 0 <= p < 2 {
            assert(r0.out(p).len() == 0);
        }
    }
    r.add_transition(start_state, end_state, None);
    assert(r.accepts_only(1));
    assert forall|w: Seq<char>| #[trigger] r.nfa_accepts(w) == (w.len() == 0) by {
        lemma_two_state_language(&r, w);
        if w.len() == 0 {
            assert(w == lab(None));
            assert(r.has_edge(0, 1, None));
        }
        if r.nfa_accepts(w) {
            let l = choose|l: Option<char>| #[trigger] r.has_edge(0, 1, l) && w == lab(l);
            assert(l is None);
        }
    }
    r
}

/// A two-state fragment from `0` to `1` with edges only between them
/// accepts exactly the labels of those edges.
proof fn lemma_two_state_language(a: &Automaton, w: Seq<char>)
    requires
        a.wf(),
        a.num_states() == 2,
        a.start_state == Some(0usize),
        a.accepts_only(1),
        forall|p: int, q: int, l: Option<char>| #[trigger] a.has_edge(p, q, l) ==> p == 0 && q == 1,
    ensures
        a.nfa_accepts(w) <==> exists|l: Option<char>| #[trigger] a.has_edge(0, 1, l) && w == lab(l),
{
    lemma_fragment_accepts(a, 1, w);
    if a.walks(0, w, 1) {
        let n = choose|n: nat| #[trigger] a.reads(0, w, 1, n);
        if n == 0 {
            assert(false);
        }
        let (r, l, w1) = lemma_reads_first(a, 0, w, 1, n);
        assert forall|q1: int, l1: Option<char>| !#[trigger] a.has_edge(1, q1, l1) by {}
        lemma_reads_no_exit(a, 1, w1, 1, (n - 1) as nat);
        assert(w == lab(l));
    }
    if exists|l: Option<char>| #[trigger] a.has_edge(0, 1, l) && w == lab(l) {
        let l = choose|l: Option<char>| #[trigger] a.has_edge(0, 1, l) && w == lab(l);
        assert(a.reads(1, seq![], 1, 0));
        lemma_reads_step(a, 0, 1, l, seq![], 1, 0);
        assert(lab(l) + seq![] == w);
        assert(a.reads(0, w, 1, 1));
    }
}

} // verus!
