use vstd::prelude::*;
use crate::lemmas::lemma_push_no_duplicates;

verus! {

/// One labelled edge of the graph. `atom == None` marks an epsilon edge.
#[derive(Clone, Copy, Debug)]
pub struct Transition {
    pub atom: Option<char>,
    pub from_state: usize,
    pub to_state: usize,
}

impl Transition {
    pub fn new(atom: Option<char>, from_state: usize, to_state: usize) -> (r: Transition)
        ensures
            r == (Transition { atom, from_state, to_state }),
    {
        Transition { atom, from_state, to_state }
    }

    /// Field-wise equality of two edges.
    pub fn same_as(&self, other: &Transition) -> (r: bool)
        ensures
            r == (*self == *other),
    {
        let same_atom = match (self.atom, other.atom) {
            (None, None) => true,
            (Some(x), Some(y)) => x == y,
            _ => false,
        };
        same_atom && self.from_state == other.from_state && self.to_state == other.to_state
    }
}

/// A state of the arena: its acceptance flag, the edges leaving it and the
/// edges entering it.
#[derive(Debug)]
pub struct State {
    pub accepting: bool,
    pub from_transitions: Vec<Transition>,
    pub to_transitions: Vec<Transition>,
}

impl State {
    pub fn new(accepting: bool) -> (r: State)
        ensures
            r.accepting == accepting,
            r.from_transitions@.len() == 0,
            r.to_transitions@.len() == 0,
    {
        State { accepting, from_transitions: Vec::new(), to_transitions: Vec::new() }
    }

    pub fn add_from_transition(&mut self, from_transition: Transition)
        ensures
            final(self).accepting == old(self).accepting,
            final(self).from_transitions@ == old(self).from_transitions@.push(from_transition),
            final(self).to_transitions@ == old(self).to_transitions@,
    {
        self.from_transitions.push(from_transition);
    }

    pub fn add_to_transition(&mut self, to_transition: Transition)
        ensures
            final(self).accepting == old(self).accepting,
            final(self).from_transitions@ == old(self).from_transitions@,
            final(self).to_transitions@ == old(self).to_transitions@.push(to_transition),
    {
        self.to_transitions.push(to_transition);
    }
}

/// Conservative classification of an automaton. Only determinization and
/// minimization set anything but `Nfa`; every structural change resets it.
#[derive(Clone, Copy, Debug, PartialEq, Eq, Structural)]
pub enum AutomatonKind {
    Nfa,
    Dfa,
    MinDfa,
}

/// A finite automaton over `char`, its states being the dense indices
/// `0 .. states.len()`.
#[derive(Debug)]
pub struct Automaton {
    pub states: Vec<State>,
    pub start_state: Option<usize>,
    pub alphabet: Vec<char>,
    pub kind: AutomatonKind,
}

/// The target of the first edge labelled `c` in `edges`.
pub open spec fn first_target(edges: Seq<Transition>, c: char) -> Option<usize>
    decreases edges.len(),
{
    if edges.len() == 0 {
        None
    } else if edges[0].atom == Some(c) {
        Some(edges[0].to_state)
    } else {
        first_target(edges.drop_first(), c)
    }
}

impl Automaton {
    pub open spec fn num_states(&self) -> nat {
        self.states@.len()
    }

    /// Edges leaving `s`, in insertion order.
    pub open spec fn out(&self, s: int) -> Seq<Transition> {
        self.states@[s].from_transitions@
    }

    /// Edges entering `t`, in insertion order.
    pub open spec fn inc(&self, t: int) -> Seq<Transition> {
        self.states@[t].to_transitions@
    }

    pub open spec fn accepting_at(&self, s: int) -> bool {
        0 <= s < self.num_states() && self.states@[s].accepting
    }

    pub open spec fn has_edge(&self, p: int, q: int, l: Option<char>) -> bool {
        &&& 0 <= p < self.num_states()
        &&& 0 <= q < self.num_states()
        &&& self.out(p).contains(Transition { atom: l, from_state: p as usize, to_state: q as usize })
    }

    pub open spec fn in_alphabet(&self, c: char) -> bool {
        self.alphabet@.contains(c)
    }

    /// Every edge is concrete and no state has two edges with one label.
    pub open spec fn is_deterministic(&self) -> bool {
        &&& forall|s: int, i: int|
            0 <= s < self.num_states() && 0 <= i < self.out(s).len() ==> (#[trigger] self.out(
                s,
            )[i]).atom is Some
        &&& forall|s: int, i: int, j: int|
            0 <= s < self.num_states() && 0 <= i < self.out(s).len() && 0 <= j < self.out(s).len()
                && i != j ==> #[trigger] self.out(s)[i].atom != #[trigger] self.out(s)[j].atom
    }

    /// The forward and backward indexes describe one edge set between
    /// existing states, every concrete label is in the alphabet, and the
    /// kind never over-claims determinism.
    pub open spec fn wf(&self) -> bool {
        &&& self.start_state matches Some(s) ==> s < self.num_states()
        &&& forall|s: int, i: int|
            0 <= s < self.num_states() && 0 <= i < self.out(s).len() ==> {
                let e = #[trigger] self.out(s)[i];
                &&& e.from_state == s
                &&& e.to_state < self.num_states()
                &&& self.inc(e.to_state as int).contains(e)
                &&& (e.atom matches Some(c) ==> self.alphabet@.contains(c))
            }
        &&& forall|t: int, j: int|
            0 <= t < self.num_states() && 0 <= j < self.inc(t).len() ==> {
                let e = #[trigger] self.inc(t)[j];
                &&& e.to_state == t
                &&& e.from_state < self.num_states()
                &&& self.out(e.from_state as int).contains(e)
            }
        &&& forall|s: int| 0 <= s < self.num_states() ==> (#[trigger] self.out(s)).no_duplicates()
        &&& forall|t: int| 0 <= t < self.num_states() ==> (#[trigger] self.inc(t)).no_duplicates()
        &&& self.alphabet@.no_duplicates()
        &&& self.kind != AutomatonKind::Nfa ==> self.is_deterministic()
    }

    /// The state that the first edge labelled `c` out of `s` leads to.
    pub open spec fn successor(&self, s: int, c: char) -> Option<usize> {
        first_target(self.out(s), c)
    }

    /// The state reached from `s` by following `successor` along `w`, if
    /// no label is missing on the way.
    pub open spec fn run(&self, s: int, w: Seq<char>) -> Option<usize>
        decreases w.len(),
    {
        if w.len() == 0 {
            Some(s as usize)
        } else {
            match self.run(s, w.drop_last()) {
                None => None,
                Some(t) => self.successor(t as int, w.last()),
            }
        }
    }

    /// The deterministic reading: `w` leads from the start state to an
    /// accepting state.
    pub open spec fn accepts(&self, w: Seq<char>) -> bool {
        match self.start_state {
            None => false,
            Some(s) => match self.run(s as int, w) {
                None => false,
                Some(t) => self.accepting_at(t as int),
            },
        }
    }

    pub fn new() -> (r: Automaton)
        ensures
            r.wf(),
            r.num_states() == 0,
            r.start_state is None,
            r.alphabet@.len() == 0,
            r.kind == AutomatonKind::Nfa,
    {
        Automaton {
            states: Vec::new(),
            start_state: None,
            alphabet: Vec::new(),
            kind: AutomatonKind::Nfa,
        }
    }

    /// Appends one non-accepting state without edges and returns its index.
    pub fn add_state(&mut self) -> (r: usize)
        requires
            old(self).wf(),
        ensures
            final(self).wf(),
            r == old(self).num_states(),
            final(self).num_states() == old(self).num_states() + 1,
            final(self).states@ == old(self).states@.push(final(self).states@[r as int]),
            !final(self).accepting_at(r as int),
            forall|s: int| #[trigger] final(self).accepting_at(s) == old(self).accepting_at(s),
            forall|s: int| 0 <= s < old(self).num_states() ==> #[trigger] final(self).out(s) == old(self).out(s),
            forall|s: int| 0 <= s < old(self).num_states() ==> #[trigger] final(self).inc(s) == old(self).inc(s),
            final(self).out(r as int).len() == 0,
            final(self).inc(r as int).len() == 0,
            final(self).start_state == old(self).start_state,
            final(self).alphabet@ == old(self).alphabet@,
            final(self).kind == AutomatonKind::Nfa,
    {
        let r = self.states.len();
        self.states.push(State::new(false));
        self.kind = AutomatonKind::Nfa;
        assert forall|s: int| 0 <= s < old(self).num_states() implies #[trigger] self.out(s) == old(self).out(
            s,
        ) && self.inc(s) == old(self).inc(s) by {
            assert(self.states@[s] == old(self).states@[s]);
        }
        assert forall|s: int| 0 <= s < old(self).num_states() implies #[trigger] self.inc(s) == old(self).inc(s) by {
            assert(self.states@[s] == old(self).states@[s]);
        }
        assert forall|s: int| #[trigger] self.accepting_at(s) == old(self).accepting_at(s) by {
            if 0 <= s < old(self).num_states() {
                assert(self.states@[s] == old(self).states@[s]);
            }
        }
        r
    }

    /// Sets the acceptance flag of one existing state, touching nothing else.
    fn set_flag(&mut self, state: usize, accepting: bool)
        requires
            old(self).wf(),
            state < old(self).num_states(),
        ensures
            final(self).wf(),
            final(self).num_states() == old(self).num_states(),
            final(self).start_state == old(self).start_state,
            final(self).alphabet == old(self).alphabet,
            final(self).kind == old(self).kind,
            forall|s: int| 0 <= s < old(self).num_states() ==> #[trigger] final(self).out(s) == old(self).out(s),
            forall|t: int| 0 <= t < old(self).num_states() ==> #[trigger] final(self).inc(t) == old(self).inc(t),
            forall|s: int| #[trigger]
                final(self).accepting_at(s) == (if s == state {
                    accepting
                } else {
                    old(self).accepting_at(s)
                }),
    {
        let ghost before = *self;
        self.states[state].accepting = accepting;
        assert forall|s: int| 0 <= s < self.num_states() implies #[trigger] self.out(s) == before.out(s) && self.inc(s) == before.inc(s) by {
            if s != state {
                assert(self.states@[s] == before.states@[s]);
            }
        }
        assert forall|s: int| 0 <= s < self.num_states() implies (#[trigger] self.out(s)).no_duplicates() by {
            assert(before.out(s).no_duplicates());
        }
        assert forall|s: int| 0 <= s < self.num_states() implies (#[trigger] self.inc(s)).no_duplicates() by {
            assert(self.inc(s) == before.inc(s));
            assert(before.inc(s).no_duplicates());
        }
        assert forall|s: int, i: int|
            0 <= s < self.num_states() && 0 <= i < self.out(s).len() implies {
                let e = #[trigger] self.out(s)[i];
                &&& e.from_state == s
                &&& e.to_state < self.num_states()
                &&& self.inc(e.to_state as int).contains(e)
                &&& (e.atom matches Some(c) ==> self.alphabet@.contains(c))
            } by {
            assert(before.out(s)[i] == self.out(s)[i]);
            assert(self.inc(self.out(s)[i].to_state as int) == before.inc(self.out(s)[i].to_state as int));
        }
        assert forall|t: int, j: int|
            0 <= t < self.num_states() && 0 <= j < self.inc(t).len() implies {
                let e = #[trigger] self.inc(t)[j];
                &&& e.to_state == t
                &&& e.from_state < self.num_states()
                &&& self.out(e.from_state as int).contains(e)
            } by {
            assert(self.inc(t) == before.inc(t));
            assert(before.inc(t)[j] == self.inc(t)[j]);
        }
        assert(self.kind != AutomatonKind::Nfa ==> self.is_deterministic()) by {
            if self.kind != AutomatonKind::Nfa {
                assert forall|s: int, i: int|
                    0 <= s < self.num_states() && 0 <= i < self.out(s).len() implies (#[trigger] self.out(s)[i]).atom is Some by {
                    assert(before.out(s)[i] == self.out(s)[i]);
                }
                assert forall|s: int, i: int, j: int|
                    0 <= s < self.num_states() && 0 <= i < self.out(s).len() && 0 <= j < self.out(s).len()
                        && i != j implies #[trigger] self.out(s)[i].atom != #[trigger] self.out(s)[j].atom by {
                    assert(before.out(s)[i] == self.out(s)[i]);
                    assert(before.out(s)[j] == self.out(s)[j]);
                }
            }
        }
    }

    /// Marks `state` accepting or not; an index out of range changes nothing.
    pub fn set_accepting(&mut self, state: usize, accepting: bool)
        requires
            old(self).wf(),
        ensures
            final(self).wf(),
            state >= old(self).num_states() ==> *final(self) == *old(self),
            state < old(self).num_states() ==> {
                &&& final(self).num_states() == old(self).num_states()
                &&& final(self).start_state == old(self).start_state
                &&& final(self).alphabet == old(self).alphabet
                &&& final(self).kind == AutomatonKind::Nfa
                &&& forall|s: int| 0 <= s < old(self).num_states() ==> #[trigger] final(self).out(s) == old(self).out(s)
                &&& forall|t: int| 0 <= t < old(self).num_states() ==> #[trigger] final(self).inc(t) == old(self).inc(t)
                &&& forall|s: int| #[trigger]
                    final(self).accepting_at(s) == (if s == state {
                        accepting
                    } else {
                        old(self).accepting_at(s)
                    })
            },
    {
        if state < self.states.len() {
            let ghost before = *self;
            self.kind = AutomatonKind::Nfa;
            proof {
                lemma_wf_frame(before, *self);
            }
            self.set_flag(state, accepting);
        }
    }

    /// Makes every state non-accepting.
    pub fn clear_accepting(&mut self)
        requires
            old(self).wf(),
        ensures
            final(self).wf(),
            final(self).num_states() == old(self).num_states(),
            final(self).start_state == old(self).start_state,
            final(self).alphabet == old(self).alphabet,
            final(self).kind == AutomatonKind::Nfa,
            forall|s: int| 0 <= s < old(self).num_states() ==> #[trigger] final(self).out(s) == old(self).out(s),
            forall|t: int| 0 <= t < old(self).num_states() ==> #[trigger] final(self).inc(t) == old(self).inc(t),
            forall|s: int| !(#[trigger] final(self).accepting_at(s)),
    {
        self.kind = AutomatonKind::Nfa;
        proof {
            lemma_wf_frame(*old(self), *self);
        }
        let n = self.states.len();
        let mut i: usize = 0;
        while i < n
            invariant
                self.wf(),
                n == self.num_states(),
                i <= n,
                self.num_states() == old(self).num_states(),
                self.start_state == old(self).start_state,
                self.alphabet == old(self).alphabet,
                self.kind == AutomatonKind::Nfa,
                forall|s: int| 0 <= s < old(self).num_states() ==> #[trigger] self.out(s) == old(self).out(s),
                forall|t: int| 0 <= t < old(self).num_states() ==> #[trigger] self.inc(t) == old(self).inc(t),
                forall|s: int| s < i ==> !(#[trigger] self.accepting_at(s)),
            decreases n - i,
        {
            self.set_flag(i, false);
            i += 1;
        }
    }

    /// Makes `state` the start state; an index out of range changes nothing.
    pub fn set_start_state(&mut self, state: usize)
        requires
            old(self).wf(),
        ensures
            final(self).wf(),
            state >= old(self).num_states() ==> *final(self) == *old(self),
            state < old(self).num_states() ==> final(self).start_state == Some(state)
                && final(self).kind == AutomatonKind::Nfa && final(self).states == old(self).states
                && final(self).alphabet == old(self).alphabet,
            final(self).num_states() == old(self).num_states(),
            forall|s: int| #[trigger] final(self).accepting_at(s) == old(self).accepting_at(s),
            forall|s: int| #[trigger] final(self).out(s) == old(self).out(s),
            forall|s: int| #[trigger] final(self).inc(s) == old(self).inc(s),
    {
        if state < self.states.len() {
            self.start_state = Some(state);
            self.kind = AutomatonKind::Nfa;
            proof {
                lemma_wf_frame(*old(self), *self);
            }
        }
    }

    /// Whether `state` exists and is accepting.
    pub fn is_accepting(&self, state: usize) -> (r: bool)
        ensures
            r == self.accepting_at(state as int),
    {
        state < self.states.len() && self.states[state].accepting
    }

    /// The target of the first edge labelled `atom` out of `from_state`.
    pub fn traverse_from(&self, from_state: usize, atom: char) -> (r: Option<usize>)
        ensures
            from_state < self.num_states() ==> r == self.successor(from_state as int, atom),
            from_state >= self.num_states() ==> r is None,
    {
        if from_state >= self.states.len() {
            return None;
        }
        let edges = &self.states[from_state].from_transitions;
        let mut i: usize = 0;
        assert(edges@.subrange(0, edges@.len() as int) == edges@);
        while i < edges.len()
            invariant
                from_state < self.num_states(),
                i <= edges@.len(),
                edges@ == self.out(from_state as int),
                first_target(edges@, atom) == first_target(edges@.subrange(i as int, edges@.len() as int), atom),
            decreases edges@.len() - i,
        {
            let ghost rest = edges@.subrange(i as int, edges@.len() as int);
            assert(rest.drop_first() == edges@.subrange(i + 1, edges@.len() as int));
            if let Some(c) = edges[i].atom {
                if c == atom {
                    return Some(edges[i].to_state);
                }
            }
            i += 1;
        }
        None
    }

    /// The first accepting state.
    pub fn accepting_state(&self) -> (r: Option<usize>)
        ensures
            r matches Some(f) ==> f < self.num_states() && self.accepting_at(f as int),
            r matches Some(f) ==> forall|q: int| 0 <= q < f ==> !self.accepting_at(q),
            r is None ==> forall|q: int| !self.accepting_at(q),
    {
        let mut i: usize = 0;
        while i < self.states.len()
            invariant
                i <= self.num_states(),
                forall|q: int| 0 <= q < i ==> !self.accepting_at(q),
            decreases self.num_states() - i,
        {
            if self.states[i].accepting {
                return Some(i);
            }
            i += 1;
        }
        None
    }

    /// Disjoint union: appends the states of `other`, non-accepting, and its
    /// edges with every state index moved by the number of states `self`
    /// had. Start state and acceptance of the existing states stay.
    pub fn add_states_and_transitions(&mut self, other: Automaton)
        requires
            old(self).wf(),
            other.wf(),
        ensures
            final(self).wf(),
            final(self).num_states() == old(self).num_states() + other.num_states(),
            final(self).start_state == old(self).start_state,
            final(self).kind == AutomatonKind::Nfa,
            forall|s: int| 0 <= s < old(self).num_states() ==> #[trigger] final(self).out(s) == old(self).out(s),
            forall|s: int| #[trigger] final(self).accepting_at(s) == old(self).accepting_at(s),
            forall|p: int, q: int, l: Option<char>|
                p < old(self).num_states() ==> #[trigger] final(self).has_edge(p, q, l) == old(self).has_edge(p, q, l),
            forall|p: int, q: int, l: Option<char>|
                old(self).num_states() <= p ==> (#[trigger] final(self).has_edge(p, q, l) <==> (
                    old(self).num_states() <= q && other.has_edge(
                        p - old(self).num_states(),
                        q - old(self).num_states(),
                        l,
                    ))),
    {
        let off = self.states.len();
        let m = other.states.len();
        let ghost base = *self;
        self.kind = AutomatonKind::Nfa;
        proof {
            lemma_wf_frame(base, *self);
        }
        let mut i: usize = 0;
        while i < m
            invariant
                self.wf(),
                i <= m,
                m == other.num_states(),
                off == base.num_states(),
                self.num_states() == off + i,
                self.start_state == base.start_state,
                self.kind == AutomatonKind::Nfa,
                forall|s: int| 0 <= s < off ==> #[trigger] self.out(s) == base.out(s),
                forall|s: int| off <= s < off + i ==> (#[trigger] self.out(s)).len() == 0,
                forall|s: int| #[trigger] self.accepting_at(s) == base.accepting_at(s),
            decreases m - i,
        {
            let ghost before = *self;
            self.add_state();
            assert forall|s: int| 0 <= s < off + i implies #[trigger] self.out(s) == before.out(s) by {
                assert(self.states@[s] == before.states@[s]);
            }
            assert forall|s: int| #[trigger] self.accepting_at(s) == base.accepting_at(s) by {
                if 0 <= s < off + i {
                    assert(self.states@[s] == before.states@[s]);
                    assert(before.accepting_at(s) == base.accepting_at(s));
                }
            }
            i += 1;
        }
        let total = self.states.len();
        let mut p: usize = 0;
        while p < m
            invariant
                self.wf(),
                other.wf(),
                p <= m,
                m == other.num_states(),
                off == base.num_states(),
                total == off + m,
                self.num_states() == total,
                self.start_state == base.start_state,
                self.kind == AutomatonKind::Nfa,
                forall|s: int| 0 <= s < off ==> #[trigger] self.out(s) == base.out(s),
                forall|s: int| off + p <= s < total ==> (#[trigger] self.out(s)).len() == 0,
                forall|s: int| #[trigger] self.accepting_at(s) == base.accepting_at(s),
                forall|p1: int, q: int, l: Option<char>|
                    off <= p1 < off + p ==> (#[trigger] self.has_edge(p1, q, l) <==> (off <= q
                        && other.has_edge(p1 - off, q - off, l))),
            decreases m - p,
        {
            let edges = &other.states[p].from_transitions;
            let mut j: usize = 0;
            while j < edges.len()
                invariant
                    self.wf(),
                    other.wf(),
                    p < m,
                    m == other.num_states(),
                    off == base.num_states(),
                    total == off + m,
                    self.num_states() == total,
                    edges@ == other.out(p as int),
                    j <= edges@.len(),
                    self.start_state == base.start_state,
                    self.kind == AutomatonKind::Nfa,
                    forall|s: int| 0 <= s < off ==> #[trigger] self.out(s) == base.out(s),
                    forall|s: int| off + p < s < total ==> (#[trigger] self.out(s)).len() == 0,
                    forall|s: int| #[trigger] self.accepting_at(s) == base.accepting_at(s),
                    forall|p1: int, q: int, l: Option<char>|
                        off <= p1 < off + p ==> (#[trigger] self.has_edge(p1, q, l) <==> (off <= q
                            && other.has_edge(p1 - off, q - off, l))),
                    forall|q: int, l: Option<char>|
                        #[trigger] self.has_edge(off + p, q, l) <==> (off <= q < total && edges@.take(j as int).contains(
                            Transition { atom: l, from_state: p, to_state: (q - off) as usize },
                        )),
                decreases edges@.len() - j,
            {
                let e = edges[j];
                assert(e == other.out(p as int)[j as int]);
                let ghost before = *self;
                self.add_transition(p + off, e.to_state + off, e.atom);
                assert forall|s: int| 0 <= s < off implies #[trigger] self.out(s) == base.out(s) by {
                    assert(self.out(s) == before.out(s));
                }
                assert forall|s: int| off + p < s < total implies (#[trigger] self.out(s)).len() == 0 by {
                    assert(self.out(s) == before.out(s));
                }
                assert forall|p1: int, q: int, l: Option<char>|
                    off <= p1 < off + p implies (#[trigger] self.has_edge(p1, q, l) <==> (off <= q
                        && other.has_edge(p1 - off, q - off, l))) by {
                    assert(self.out(p1) == before.out(p1));
                    assert(self.has_edge(p1, q, l) == before.has_edge(p1, q, l));
                }
                assert forall|q: int, l: Option<char>|
                    #[trigger] self.has_edge(off + p, q, l) <==> (off <= q < total && edges@.take(j + 1).contains(
                        Transition { atom: l, from_state: p, to_state: (q - off) as usize },
                    )) by {
                    let t = Transition { atom: l, from_state: p, to_state: (q - off) as usize };
                    let shifted = Transition { atom: l, from_state: (p + off) as usize, to_state: q as usize };
                    crate::lemmas::lemma_take_succ_contains(edges@, j as int, t);
                    crate::lemmas::lemma_push_contains(before.out(off + p), Transition { atom: e.atom, from_state: (p + off) as usize, to_state: (e.to_state + off) as usize }, shifted);
                    assert(before.has_edge(off + p, q, l) <==> (off <= q < total && edges@.take(j as int).contains(t)));
                    assert(e.from_state == p);
                    if off <= q && q < total {
                        assert((edges@[j as int] == t) <==> (e.atom == l && e.to_state + off == q));
                    }
                    if edges@.take(j + 1).contains(t) {
                        let k = choose|k: int| 0 <= k < edges@.take(j + 1).len() && #[trigger] edges@.take(j + 1)[k] == t;
                        assert(other.out(p as int)[k] == t);
                    }
                }
                j += 1;
            }
            assert(edges@.take(j as int) == edges@);
            assert forall|p1: int, q: int, l: Option<char>|
                off <= p1 < off + p + 1 implies (#[trigger] self.has_edge(p1, q, l) <==> (off <= q
                    && other.has_edge(p1 - off, q - off, l))) by {
                if p1 == off + p {
                    let t = Transition { atom: l, from_state: p, to_state: (q - off) as usize };
                    assert(self.has_edge(off + p, q, l) <==> (off <= q < total && edges@.contains(t)));
                    if other.has_edge(p1 - off, q - off, l) {
                        assert(other.out(p as int).contains(t));
                    }
                }
            }
            p += 1;
        }
        assert forall|p1: int, q: int, l: Option<char>|
            off <= p1 implies (#[trigger] self.has_edge(p1, q, l) <==> (off <= q
                && other.has_edge(p1 - off, q - off, l))) by {
            if p1 >= off + m {
                assert(!self.has_edge(p1, q, l));
            }
        }
        assert forall|p1: int, q: int, l: Option<char>|
            p1 < off implies #[trigger] self.has_edge(p1, q, l) == base.has_edge(p1, q, l) by {
            if 0 <= p1 && self.has_edge(p1, q, l) {
                assert(self.out(p1) == base.out(p1));
                let t = Transition { atom: l, from_state: p1 as usize, to_state: q as usize };
                let k = choose|k: int| 0 <= k < self.out(p1).len() && self.out(p1)[k] == t;
                assert(base.out(p1)[k] == t);
                assert(self.states.len() == self.num_states());
            }
            if 0 <= p1 {
                assert(self.out(p1) == base.out(p1));
            }
        }
    }

    /// Appends `e` to the edges leaving its source and entering its target.
    fn push_edge(&mut self, e: Transition)
        requires
            e.from_state < old(self).num_states(),
            e.to_state < old(self).num_states(),
        ensures
            final(self).num_states() == old(self).num_states(),
            final(self).start_state == old(self).start_state,
            final(self).alphabet == old(self).alphabet,
            final(self).kind == old(self).kind,
            final(self).out(e.from_state as int) == old(self).out(e.from_state as int).push(e),
            final(self).inc(e.to_state as int) == old(self).inc(e.to_state as int).push(e),
            forall|s: int|
                0 <= s < old(self).num_states() && s != e.from_state ==> #[trigger] final(self).out(s)
                    == old(self).out(s),
            forall|t: int|
                0 <= t < old(self).num_states() && t != e.to_state ==> #[trigger] final(self).inc(t)
                    == old(self).inc(t),
            forall|s: int|
                0 <= s < old(self).num_states() ==> #[trigger] final(self).states@[s].accepting
                    == old(self).states@[s].accepting,
    {
        let ghost before = *self;
        self.states[e.from_state].add_from_transition(e);
        let ghost mid = *self;
        assert(forall|s: int|
            0 <= s < mid.num_states() && s != e.from_state ==> mid.states@[s] == before.states@[s]);
        self.states[e.to_state].add_to_transition(e);
        assert forall|s: int|
            0 <= s < self.num_states() && s != e.from_state implies #[trigger] self.out(s) == before.out(s) by {
            if s == e.to_state {
                assert(self.states@[s].from_transitions@ == mid.states@[s].from_transitions@);
            } else {
                assert(self.states@[s] == mid.states@[s]);
            }
        }
        assert forall|t: int|
            0 <= t < self.num_states() && t != e.to_state implies #[trigger] self.inc(t) == before.inc(t) by {
            if t == e.from_state {
                assert(mid.states@[t].to_transitions@ == before.states@[t].to_transitions@);
            } else {
                assert(self.states@[t] == mid.states@[t]);
            }
        }
        assert forall|s: int| 0 <= s < self.num_states() implies #[trigger] self.states@[s].accepting
            == before.states@[s].accepting by {
            if s != e.from_state && s != e.to_state {
                assert(self.states@[s] == mid.states@[s]);
            }
        }
    }

    /// Registers the edge `from_state -atom-> to_state` in both indexes; a
    /// concrete label joins the alphabet.
    pub fn add_transition(&mut self, from_state: usize, to_state: usize, atom: Option<char>)
        requires
            old(self).wf(),
            from_state < old(self).num_states(),
            to_state < old(self).num_states(),
        ensures
            final(self).wf(),
            final(self).num_states() == old(self).num_states(),
            final(self).start_state == old(self).start_state,
            final(self).kind == AutomatonKind::Nfa,
            forall|s: int| #[trigger]
                final(self).accepting_at(s) == old(self).accepting_at(s),
            forall|s: int|
                0 <= s < old(self).num_states() && s != from_state ==> #[trigger] final(self).out(s)
                    == old(self).out(s),
            final(self).out(from_state as int) == (if old(self).has_edge(
                from_state as int,
                to_state as int,
                atom,
            ) {
                old(self).out(from_state as int)
            } else {
                old(self).out(from_state as int).push(
                    Transition { atom, from_state, to_state },
                )
            }),
            forall|c: char| #[trigger]
                final(self).in_alphabet(c) == (old(self).in_alphabet(c) || atom == Some(c)),
            forall|p: int, q: int, l: Option<char>| #[trigger]
                final(self).has_edge(p, q, l) == (old(self).has_edge(p, q, l) || (p == from_state
                    && q == to_state && l == atom)),
    {
        let e = Transition::new(atom, from_state, to_state);
        self.kind = AutomatonKind::Nfa;
        if let Some(c) = atom {
            if !contains_char(&self.alphabet, c) {
                self.alphabet.push(c);
            }
        }
        assert forall|d: char| #[trigger]
            self.alphabet@.contains(d) == (old(self).alphabet@.contains(d) || atom == Some(d)) by {
            if old(self).alphabet@.contains(d) {
                let k = choose|k: int| 0 <= k < old(self).alphabet@.len() && old(self).alphabet@[k] == d;
                assert(self.alphabet@[k] == d);
            }
            if atom == Some(d) && !old(self).alphabet@.contains(d) {
                assert(self.alphabet@.last() == d);
            }
        }
        assert(self.states == old(self).states);
        assert forall|s: int| 0 <= s < self.num_states() implies (#[trigger] self.out(s)).no_duplicates() by {
            assert(old(self).out(s).no_duplicates());
        }
        assert forall|s: int| 0 <= s < self.num_states() implies (#[trigger] self.inc(s)).no_duplicates() by {
            assert(old(self).inc(s).no_duplicates());
        }
        assert forall|s: int, i: int|
            0 <= s < self.num_states() && 0 <= i < self.out(s).len() implies {
                let e = #[trigger] self.out(s)[i];
                &&& e.from_state == s
                &&& e.to_state < self.num_states()
                &&& self.inc(e.to_state as int).contains(e)
                &&& (e.atom matches Some(c) ==> self.alphabet@.contains(c))
            } by {
            assert(old(self).out(s)[i] == self.out(s)[i]);
        }
        assert forall|t: int, j: int|
            0 <= t < self.num_states() && 0 <= j < self.inc(t).len() implies {
                let e = #[trigger] self.inc(t)[j];
                &&& e.to_state == t
                &&& e.from_state < self.num_states()
                &&& self.out(e.from_state as int).contains(e)
            } by {
            assert(old(self).inc(t)[j] == self.inc(t)[j]);
        }
        if !contains_transition(&self.states[from_state].from_transitions, &e) {
            proof {
                if self.inc(to_state as int).contains(e) {
                    let k = choose|k: int| 0 <= k < self.inc(to_state as int).len() && self.inc(to_state as int)[k] == e;
                    assert(self.inc(to_state as int)[k] == e);
                }
            }
            let ghost before = *self;
            proof {
                lemma_push_no_duplicates(before.out(from_state as int), e);
                lemma_push_no_duplicates(before.inc(to_state as int), e);
            }
            self.push_edge(e);
            assert forall|s: int| 0 <= s < self.num_states() implies (#[trigger] self.out(s)).no_duplicates() by {
                if s != from_state {
                    assert(self.out(s) == before.out(s));
                }
            }
            assert forall|t: int| 0 <= t < self.num_states() implies (#[trigger] self.inc(t)).no_duplicates() by {
                if t != to_state {
                    assert(self.inc(t) == before.inc(t));
                }
            }
            assert forall|s: int, i: int|
                0 <= s < self.num_states() && 0 <= i < self.out(s).len() implies self.inc(
                #[trigger] self.out(s)[i].to_state as int,
            ).contains(self.out(s)[i]) by {
                let x = self.out(s)[i];
                if x != e {
                    assert(before.out(s)[i] == x);
                    let k = choose|k: int| 0 <= k < before.inc(x.to_state as int).len() && before.inc(x.to_state as int)[k] == x;
                    assert(self.inc(x.to_state as int)[k] == x);
                } else {
                    assert(self.inc(to_state as int).last() == e);
                }
            }
            assert forall|t: int, j: int|
                0 <= t < self.num_states() && 0 <= j < self.inc(t).len() implies self.out(
                #[trigger] self.inc(t)[j].from_state as int,
            ).contains(self.inc(t)[j]) by {
                let x = self.inc(t)[j];
                if x != e {
                    assert(before.inc(t)[j] == x);
                    let k = choose|k: int| 0 <= k < before.out(x.from_state as int).len() && before.out(x.from_state as int)[k] == x;
                    assert(self.out(x.from_state as int)[k] == x);
                } else {
                    assert(self.out(from_state as int).last() == e);
                }
            }
        }
        assert forall|p: int, q: int, l: Option<char>| #[trigger]
            self.has_edge(p, q, l) == (old(self).has_edge(p, q, l) || (p == from_state && q
                == to_state && l == atom)) by {
            assert(self.states.len() == self.num_states());
            if 0 <= p < self.num_states() && 0 <= q < self.num_states() {
                let t = Transition { atom: l, from_state: p as usize, to_state: q as usize };
                if p == from_state {
                    if old(self).has_edge(from_state as int, to_state as int, atom) {
                        assert(self.out(p) == old(self).out(p));
                    } else {
                        assert(self.out(p) == old(self).out(p).push(e));
                        crate::lemmas::lemma_push_contains(old(self).out(p), e, t);
                    }
                } else {
                    assert(self.out(p) == old(self).out(p));
                }
            }
        }
    }
}

impl Default for Automaton {
    fn default() -> (r: Automaton)
        ensures
            r.wf(),
            r.num_states() == 0,
            r.start_state is None,
            r.alphabet@.len() == 0,
            r.kind == AutomatonKind::Nfa,
    {
        Automaton::new()
    }
}

/// Well-formedness depends on the states and the alphabet alone, as long as
/// the start state stays in range and the kind claims no more.
pub proof fn lemma_wf_frame(a: Automaton, b: Automaton)
    requires
        a.wf(),
        a.states == b.states,
        a.alphabet == b.alphabet,
        b.start_state matches Some(s) ==> s < b.num_states(),
        b.kind == AutomatonKind::Nfa || b.kind == a.kind || a.is_deterministic(),
    ensures
        b.wf(),
{
    assert forall|s: int| 0 <= s < b.num_states() implies (#[trigger] b.out(s)).no_duplicates() by {
        assert(a.out(s).no_duplicates());
    }
    assert forall|s: int| 0 <= s < b.num_states() implies (#[trigger] b.inc(s)).no_duplicates() by {
        assert(a.inc(s).no_duplicates());
    }
    assert forall|s: int, i: int|
        0 <= s < b.num_states() && 0 <= i < b.out(s).len() implies {
            let e = #[trigger] b.out(s)[i];
            &&& e.from_state == s
            &&& e.to_state < b.num_states()
            &&& b.inc(e.to_state as int).contains(e)
            &&& (e.atom matches Some(c) ==> b.alphabet@.contains(c))
        } by {
        assert(a.out(s)[i] == b.out(s)[i]);
    }
    assert forall|t: int, j: int|
        0 <= t < b.num_states() && 0 <= j < b.inc(t).len() implies {
            let e = #[trigger] b.inc(t)[j];
            &&& e.to_state == t
            &&& e.from_state < b.num_states()
            &&& b.out(e.from_state as int).contains(e)
        } by {
        assert(a.inc(t)[j] == b.inc(t)[j]);
    }
    if b.kind != AutomatonKind::Nfa {
        assert forall|s: int, i: int|
            0 <= s < b.num_states() && 0 <= i < b.out(s).len() implies (#[trigger] b.out(s)[i]).atom is Some by {
            assert(a.out(s)[i] == b.out(s)[i]);
        }
        assert forall|s: int, i: int, j: int|
            0 <= s < b.num_states() && 0 <= i < b.out(s).len() && 0 <= j < b.out(s).len()
                && i != j implies #[trigger] b.out(s)[i].atom != #[trigger] b.out(s)[j].atom by {
            assert(a.out(s)[i] == b.out(s)[i]);
            assert(a.out(s)[j] == b.out(s)[j]);
        }
    }
}

/// Where `first_target` finds its edge.
pub proof fn lemma_first_target_index(edges: Seq<Transition>, c: char) -> (i: int)
    requires
        first_target(edges, c) is Some,
    ensures
        0 <= i < edges.len(),
        edges[i].atom == Some(c),
        Some(edges[i].to_state) == first_target(edges, c),
        forall|j: int| 0 <= j < i ==> edges[j].atom != Some(c),
    decreases edges.len(),
{
    if edges[0].atom == Some(c) {
        0
    } else {
        let k = lemma_first_target_index(edges.drop_first(), c);
        assert forall|j: int| 0 <= j < k + 1 implies edges[j].atom != Some(c) by {
            if j > 0 {
                assert(edges[j] == edges.drop_first()[j - 1]);
            }
        }
        k + 1
    }
}

/// An edge labelled `c` means `first_target` finds one.
pub proof fn lemma_first_target_none_contra(edges: Seq<Transition>, c: char, j: int)
    requires
        0 <= j < edges.len(),
        edges[j].atom == Some(c),
    ensures
        first_target(edges, c) is Some,
    decreases edges.len(),
{
    if j > 0 && edges[0].atom != Some(c) {
        assert(edges.drop_first()[j - 1] == edges[j]);
        lemma_first_target_none_contra(edges.drop_first(), c, j - 1);
    }
}

/// Successors of existing states exist.
pub proof fn lemma_successor_in_range(a: &Automaton, s: int, c: char)
    requires
        a.wf(),
        0 <= s < a.num_states(),
    ensures
        a.successor(s, c) matches Some(t) ==> t < a.num_states(),
{
    if a.successor(s, c) is Some {
        let i = lemma_first_target_index(a.out(s), c);
        assert(a.out(s)[i].to_state < a.num_states());
    }
}

/// Runs from existing states end in existing states.
pub proof fn lemma_run_in_range(a: &Automaton, s: int, w: Seq<char>)
    requires
        a.wf(),
        0 <= s < a.num_states(),
    ensures
        a.run(s, w) matches Some(t) ==> t < a.num_states(),
    decreases w.len(),
{
    if w.len() > 0 {
        lemma_run_in_range(a, s, w.drop_last());
        if let Some(t) = a.run(s, w.drop_last()) {
            lemma_successor_in_range(a, t as int, w.last());
        }
    }
}

/// One more character: the run on `w.take(i + 1)` steps from the run on
/// `w.take(i)`.
pub proof fn lemma_run_step(a: &Automaton, s: int, w: Seq<char>, i: int)
    requires
        0 <= i < w.len(),
    ensures
        a.run(s, w.take(i + 1)) == match a.run(s, w.take(i)) {
            None => None,
            Some(t) => a.successor(t as int, w[i]),
        },
{
    assert(w.take(i + 1).drop_last() == w.take(i));
}

/// Appending edges keeps a first target that was found.
pub proof fn lemma_first_target_extend(x: Seq<Transition>, y: Seq<Transition>, c: char)
    requires
        first_target(x, c) is Some,
    ensures
        first_target(x + y, c) == first_target(x, c),
    decreases x.len(),
{
    assert((x + y)[0] == x[0]);
    if x[0].atom != Some(c) {
        assert((x + y).drop_first() == x.drop_first() + y);
        lemma_first_target_extend(x.drop_first(), y, c);
    }
}

/// A run that succeeds in `a` succeeds alike in `b` when `b` has the
/// states of `a` and extends the edge lists of each of them.
pub proof fn lemma_run_grows(a: &Automaton, b: &Automaton, s: int, w: Seq<char>)
    requires
        a.wf(),
        0 <= s < a.num_states(),
        forall|p: int|
            #![trigger b.out(p)]
            0 <= p < a.num_states() ==> a.out(p).len() <= b.out(p).len() && b.out(p).take(
                a.out(p).len() as int,
            ) == a.out(p),
        a.run(s, w) is Some,
    ensures
        b.run(s, w) == a.run(s, w),
    decreases w.len(),
{
    if w.len() > 0 {
        let u = w.drop_last();
        lemma_run_grows(a, b, s, u);
        let t = a.run(s, u)->0 as int;
        lemma_run_in_range(a, s, u);
        let x = a.out(t);
        assert(b.out(t).take(x.len() as int) == x);
        assert(b.out(t) == x + b.out(t).skip(x.len() as int));
        lemma_first_target_extend(x, b.out(t).skip(x.len() as int), w.last());
    }
}

/// Once stuck, a run stays stuck.
pub proof fn lemma_run_stuck(a: &Automaton, s: int, w: Seq<char>, i: int, j: int)
    requires
        0 <= i <= j <= w.len(),
        a.run(s, w.take(i)) is None,
    ensures
        a.run(s, w.take(j)) is None,
    decreases j - i,
{
    if j > i {
        lemma_run_stuck(a, s, w, i, j - 1);
        lemma_run_step(a, s, w, j - 1);
    }
}

/// Whether `v` holds `e`.
pub fn contains_transition(v: &Vec<Transition>, e: &Transition) -> (r: bool)
    ensures
        r == v@.contains(*e),
{
    let mut i: usize = 0;
    while i < v.len()
        invariant
            i <= v@.len(),
            forall|k: int| 0 <= k < i ==> v@[k] != *e,
        decreases v@.len() - i,
    {
        if v[i].same_as(e) {
            return true;
        }
        i += 1;
    }
    false
}

/// Whether `v` holds `c`.
pub fn contains_char(v: &Vec<char>, c: char) -> (r: bool)
    ensures
        r == v@.contains(c),
{
    let mut i: usize = 0;
    while i < v.len()
        invariant
            i <= v@.len(),
            forall|k: int| 0 <= k < i ==> v@[k] != c,
        decreases v@.len() - i,
    {
        if v[i] == c {
            return true;
        }
        i += 1;
    }
    false
}

} // verus!
