use vstd::prelude::*;
use crate::automaton::{
    Automaton, AutomatonKind, Transition, first_target, lemma_first_target_index, lemma_wf_frame,
};
use crate::closure::bits_set;
use crate::lemmas::{bit_space, lemma_distinct_bitmaps_bound, lemma_take_succ_contains};
use crate::product::lemma_first_target_push;

verus! {

/// The views of a list of bitmaps.
pub open spec fn views_of(comps: Seq<Vec<bool>>) -> Seq<Seq<bool>> {
    comps.map_values(|v: Vec<bool>| v@)
}

/// `n` flags, `s` alone set.
fn singleton_bits(n: usize, s: usize) -> (r: Vec<bool>)
    requires
        s < n,
    ensures
        r@.len() == n,
        bits_set(r@) == set![s as int],
{
    let mut r: Vec<bool> = Vec::new();
    let mut i: usize = 0;
    while i < n
        invariant
            i <= n,
            r@.len() == i,
            forall|k: int| 0 <= k < i ==> r@[k] == (k == s),
        decreases n - i,
    {
        r.push(i == s);
        i += 1;
    }
    assert(bits_set(r@) =~= set![s as int]);
    r
}

/// Whether `a` and `b` hold the same flags.
fn same_bits(a: &Vec<bool>, b: &Vec<bool>) -> (r: bool)
    ensures
        r == (a@ == b@),
{
    if a.len() != b.len() {
        return false;
    }
    let mut i: usize = 0;
    while i < a.len()
        invariant
            a@.len() == b@.len(),
            i <= a@.len(),
            forall|k: int| 0 <= k < i ==> a@[k] == b@[k],
        decreases a@.len() - i,
    {
        if a[i] != b[i] {
            return false;
        }
        i += 1;
    }
    assert(a@ =~= b@);
    true
}

/// Whether `b` sets no flag.
fn no_bits(b: &Vec<bool>) -> (r: bool)
    ensures
        r == (bits_set(b@) == Set::<int>::empty()),
{
    let mut i: usize = 0;
    while i < b.len()
        invariant
            i <= b@.len(),
            forall|k: int| 0 <= k < i ==> !b@[k],
        decreases b@.len() - i,
    {
        if b[i] {
            assert(bits_set(b@).contains(i as int));
            return false;
        }
        i += 1;
    }
    assert(bits_set(b@) =~= Set::<int>::empty());
    true
}

/// The position of a bitmap equal to `b` in `comps`.
fn find_bits(comps: &Vec<Vec<bool>>, b: &Vec<bool>) -> (r: Option<usize>)
    ensures
        r matches Some(j) ==> j < comps@.len() && comps@[j as int]@ == b@,
        r is None ==> forall|j: int| 0 <= j < comps@.len() ==> comps@[j]@ != b@,
{
    let mut j: usize = 0;
    while j < comps.len()
        invariant
            j <= comps@.len(),
            forall|k: int| 0 <= k < j ==> comps@[k]@ != b@,
        decreases comps@.len() - j,
    {
        if same_bits(&comps[j], b) {
            return Some(j);
        }
        j += 1;
    }
    None
}

/// On `c`, state `i` of `dfa` goes to the state whose composite is the
/// closure of the `c`-successors of `comps[i]`, or nowhere when that closure
/// is empty.
pub open spec fn subset_edge_ok(
    nfa: &Automaton,
    dfa: &Automaton,
    comps: Seq<Seq<bool>>,
    i: int,
    c: char,
) -> bool {
    match dfa.successor(i, c) {
        Some(j) => j < comps.len() && bits_set(comps[j as int]) == nfa.closure(
            nfa.step(bits_set(comps[i]), c),
        ),
        None => nfa.closure(nfa.step(bits_set(comps[i]), c)) == Set::<int>::empty(),
    }
}

/// State `i` has concrete edges only, with distinct labels.
pub open spec fn deterministic_at(dfa: &Automaton, i: int) -> bool {
    &&& forall|j: int| 0 <= j < dfa.out(i).len() ==> (#[trigger] dfa.out(i)[j]).atom is Some
    &&& forall|j1: int, j2: int|
        0 <= j1 < dfa.out(i).len() && 0 <= j2 < dfa.out(i).len() && j1 != j2 ==> #[trigger] dfa.out(
            i,
        )[j1].atom != #[trigger] dfa.out(i)[j2].atom
}

/// Facts of the subset construction that hold throughout: `dfa` has one
/// state per composite, composites are distinct non-empty bitmaps over the
/// states of `nfa`, and a state accepts when its composite holds an
/// accepting state.
pub open spec fn subset_states_ok(nfa: &Automaton, dfa: &Automaton, comps: Seq<Seq<bool>>) -> bool {
    &&& dfa.num_states() == comps.len()
    &&& comps.len() >= 1
    &&& comps.no_duplicates()
    &&& forall|i: int| 0 <= i < comps.len() ==> (#[trigger] comps[i]).len() == nfa.num_states()
    &&& forall|i: int|
        0 <= i < comps.len() ==> bits_set(#[trigger] comps[i]) != Set::<int>::empty()
    &&& forall|i: int|
        0 <= i < comps.len() ==> #[trigger] dfa.accepting_at(i) == nfa.any_accepting(
            bits_set(comps[i]),
        )
}

/// Closing nothing gives nothing.
pub proof fn lemma_closure_of_empty(a: &Automaton, c: char)
    ensures
        a.step(Set::<int>::empty(), c) == Set::<int>::empty(),
        a.closure(Set::<int>::empty()) == Set::<int>::empty(),
{
    assert(a.step(Set::<int>::empty(), c) =~= Set::<int>::empty());
    assert(a.closure(Set::<int>::empty()) =~= Set::<int>::empty());
}

/// A label outside the alphabet leads nowhere.
pub proof fn lemma_step_outside_alphabet(a: &Automaton, s: Set<int>, c: char)
    requires
        a.wf(),
        !a.in_alphabet(c),
    ensures
        a.closure(a.step(s, c)) == Set::<int>::empty(),
{
    assert forall|q: int| !#[trigger] a.step(s, c).contains(q) by {
        if a.step(s, c).contains(q) {
            let p = choose|p: int| s.contains(p) && #[trigger] a.has_edge(p, q, Some(c));
            let e = Transition { atom: Some(c), from_state: p as usize, to_state: q as usize };
            let j = choose|j: int| 0 <= j < a.out(p).len() && a.out(p)[j] == e;
            assert(a.out(p)[j] == e);
        }
    }
    assert(a.step(s, c) =~= Set::<int>::empty());
    lemma_closure_of_empty(a, c);
}

/// The subset automaton reads `w` into the composite of the states that the
/// nondeterministic reading of `w` can be in.
pub proof fn lemma_subset_run(nfa: &Automaton, dfa: &Automaton, comps: Seq<Seq<bool>>, w: Seq<char>)
    requires
        nfa.wf(),
        nfa.start_state matches Some(s) && bits_set(comps[0]) == nfa.closure(set![s as int]),
        subset_states_ok(nfa, dfa, comps),
        forall|i: int, c: char|
            0 <= i < comps.len() ==> #[trigger] subset_edge_ok(nfa, dfa, comps, i, c),
    ensures
        dfa.run(0, w) matches Some(j) ==> j < comps.len() && bits_set(comps[j as int])
            == nfa.nfa_states(w),
        dfa.run(0, w) is None ==> nfa.nfa_states(w) == Set::<int>::empty(),
    decreases w.len(),
{
    if w.len() > 0 {
        let u = w.drop_last();
        let c = w.last();
        lemma_subset_run(nfa, dfa, comps, u);
        match dfa.run(0, u) {
            Some(j) => {
                assert(subset_edge_ok(nfa, dfa, comps, j as int, c));
            },
            None => {
                lemma_closure_of_empty(nfa, c);
            },
        }
    }
}

/// Edge facts of a state survive new states and edges elsewhere.
pub proof fn lemma_subset_edge_ok_grow(
    nfa: &Automaton,
    dfa: &Automaton,
    dfa2: &Automaton,
    comps: Seq<Seq<bool>>,
    comps2: Seq<Seq<bool>>,
    i: int,
    c: char,
)
    requires
        0 <= i < comps.len(),
        comps.len() <= comps2.len(),
        comps2.take(comps.len() as int) == comps,
        dfa2.out(i) == dfa.out(i),
        subset_edge_ok(nfa, dfa, comps, i, c),
    ensures
        subset_edge_ok(nfa, dfa2, comps2, i, c),
{
    assert(comps2[i] == comps[i]);
    if let Some(j) = dfa.successor(i, c) {
        assert(comps2[j as int] == comps[j as int]);
    }
}

/// Without epsilon edges a closure adds nothing.
pub proof fn lemma_closure_without_epsilon(a: &Automaton, st: Set<int>)
    requires
        a.is_deterministic(),
    ensures
        a.closure(st) == st,
{
    assert forall|q: int| #[trigger] a.closure(st).contains(q) == st.contains(q) by {
        if st.contains(q) {
            crate::closure::lemma_eps_reaches_self(a, q);
        }
        if a.closure(st).contains(q) {
            let p = choose|p: int| st.contains(p) && #[trigger] a.eps_reaches(p, q);
            let path = choose|path: Seq<int>| #[trigger] a.is_eps_path(path) && path[0] == p && path.last() == q;
            if path.len() > 1 {
                let z: int = 0;
                assert(a.has_edge(path[z], path[z + 1], None));
                let e = Transition { atom: None, from_state: path[0] as usize, to_state: path[1] as usize };
                let i = choose|i: int| 0 <= i < a.out(path[0]).len() && a.out(path[0])[i] == e;
                assert(a.out(path[0])[i].atom is Some);
            }
        }
    }
    assert(a.closure(st) =~= st);
}

/// In a deterministic automaton the only edge labelled `c` out of `p` is
/// the one to its successor.
pub proof fn lemma_deterministic_edge(a: &Automaton, p: int, q: int, c: char)
    requires
        a.wf(),
        a.is_deterministic(),
        0 <= p < a.num_states(),
        0 <= q < a.num_states(),
    ensures
        a.has_edge(p, q, Some(c)) <==> a.successor(p, c) == Some(q as usize),
{
    let x = Transition { atom: Some(c), from_state: p as usize, to_state: q as usize };
    if a.successor(p, c) is Some {
        let i = lemma_first_target_index(a.out(p), c);
        let e = a.out(p)[i];
        assert(e.from_state == p);
        if a.has_edge(p, q, Some(c)) {
            let j = choose|j: int| 0 <= j < a.out(p).len() && a.out(p)[j] == x;
            if j != i {
                assert(a.out(p)[i].atom != a.out(p)[j].atom);
            }
        }
        if a.successor(p, c) == Some(q as usize) {
            assert(a.out(p)[i] == x);
        }
    } else {
        if a.has_edge(p, q, Some(c)) {
            let j = choose|j: int| 0 <= j < a.out(p).len() && a.out(p)[j] == x;
            assert(a.out(p)[j].atom == Some(c));
            crate::automaton::lemma_first_target_none_contra(a.out(p), c, j);
        }
    }
}

/// In a deterministic automaton one state steps to its successor alone.
pub proof fn lemma_deterministic_step(a: &Automaton, t: int, c: char)
    requires
        a.wf(),
        a.is_deterministic(),
        a.num_states() <= usize::MAX,
        0 <= t < a.num_states(),
    ensures
        a.closure(a.step(set![t], c)) == match a.successor(t, c) {
            None => Set::<int>::empty(),
            Some(t2) => set![t2 as int],
        },
{
    let st = a.step(set![t], c);
    lemma_closure_without_epsilon(a, st);
    crate::automaton::lemma_successor_in_range(a, t, c);
    assert forall|q: int| #[trigger] st.contains(q) == (0 <= q < a.num_states() && a.successor(t, c) == Some(q as usize)) by {
        if 0 <= q < a.num_states() {
            lemma_deterministic_edge(a, t, q, c);
        }
        if st.contains(q) {
            let p = choose|p: int| set![t].contains(p) && #[trigger] a.has_edge(p, q, Some(c));
            assert(p == t);
        }
        if 0 <= q < a.num_states() && a.successor(t, c) == Some(q as usize) {
            assert(set![t].contains(t));
            assert(a.has_edge(t, q, Some(c)));
        }
    }
    if let Some(t2) = a.successor(t, c) {
        assert(st =~= set![t2 as int]);
    } else {
        assert(st =~= Set::<int>::empty());
    }
}

/// A deterministic automaton reads every word the same way both ways.
pub proof fn lemma_deterministic_nfa_states(a: &Automaton, w: Seq<char>)
    requires
        a.wf(),
        a.is_deterministic(),
        a.num_states() <= usize::MAX,
    ensures
        a.nfa_states(w) == match a.start_state {
            None => Set::<int>::empty(),
            Some(s) => match a.run(s as int, w) {
                None => Set::<int>::empty(),
                Some(t) => set![t as int],
            },
        },
        a.nfa_accepts(w) == a.accepts(w),
    decreases w.len(),
{
    if w.len() == 0 {
        if let Some(s) = a.start_state {
            lemma_closure_without_epsilon(a, set![s as int]);
        }
    } else {
        let u = w.drop_last();
        let c = w.last();
        lemma_deterministic_nfa_states(a, u);
        if let Some(s) = a.start_state {
            crate::automaton::lemma_run_in_range(a, s as int, u);
            if let Some(t) = a.run(s as int, u) {
                lemma_deterministic_step(a, t as int, c);
            } else {
                lemma_closure_of_empty(a, c);
            }
        } else {
            lemma_closure_of_empty(a, c);
        }
    }
    if let Some(s) = a.start_state {
        crate::automaton::lemma_run_in_range(a, s as int, w);
    }
    if a.nfa_accepts(w) {
        let q = choose|q: int| a.nfa_states(w).contains(q) && #[trigger] a.accepting_at(q);
    }
}

/// Some word leads from state `0` to state `i`.
pub open spec fn reaches_state(a: &Automaton, i: int) -> bool {
    exists|w: Seq<char>| #[trigger] a.run(0, w) == Some(i as usize)
}

/// Reachable states stay reachable when edges are appended.
pub proof fn lemma_reaches_grows(a: &Automaton, b: &Automaton, i: int)
    requires
        a.wf(),
        a.num_states() > 0,
        forall|p: int|
            #![trigger b.out(p)]
            0 <= p < a.num_states() ==> a.out(p).len() <= b.out(p).len() && b.out(p).take(
                a.out(p).len() as int,
            ) == a.out(p),
        reaches_state(a, i),
    ensures
        reaches_state(b, i),
{
    let w = choose|w: Seq<char>| #[trigger] a.run(0, w) == Some(i as usize);
    crate::automaton::lemma_run_grows(a, b, 0, w);
}

/// The subset construction: one deterministic state per set of states of
/// `automaton` that some input can lead to, discovered breadth first from
/// the closure of the start state; state `0` is that closure.
pub fn nfa_to_dfa(automaton: &Automaton) -> (r: Automaton)
    requires
        automaton.wf(),
        automaton.start_state is Some,
    ensures
        r.wf(),
        r.kind == AutomatonKind::Dfa,
        r.is_deterministic(),
        r.start_state == Some(0usize),
        r.num_states() <= bit_space(automaton.num_states()),
        forall|c: char| #[trigger] r.in_alphabet(c) ==> automaton.in_alphabet(c),
        forall|i: int| 0 <= i < r.num_states() ==> #[trigger] reaches_state(&r, i),
        forall|w: Seq<char>| #[trigger] r.accepts(w) == automaton.nfa_accepts(w),
{
    let a = automaton;
    let n = a.states.len();
    let start = match a.start_state {
        Some(s) => s,
        None => 0,
    };
    let start_comp = a.epsilon_closure(start);
    let mut dfa = Automaton::new();
    let id0 = dfa.add_state();
    let acc0 = a.bits_accepting(&start_comp);
    dfa.set_accepting(id0, acc0);
    proof {
        lemma_eps_reaches_self_in(a, start as int);
    }
    let mut comps: Vec<Vec<bool>> = Vec::new();
    comps.push(start_comp);
    proof {
        assert(views_of(comps@) =~= seq![start_comp@]);
        lemma_distinct_bitmaps_bound(views_of(comps@), n as nat);
    }
    proof {
        assert(dfa.run(0, Seq::<char>::empty()) == Some(0usize));
        assert(reaches_state(&dfa, 0));
    }
    let mut next: usize = 0;
    while next < comps.len()
        invariant
            a.wf(),
            dfa.wf(),
            n == a.num_states(),
            a.start_state == Some(start),
            bits_set(views_of(comps@)[0]) == a.closure(set![start as int]),
            subset_states_ok(a, &dfa, views_of(comps@)),
            comps@.len() <= bit_space(n as nat),
            dfa.start_state is None,
            forall|c: char| #[trigger] dfa.in_alphabet(c) ==> a.in_alphabet(c),
            next <= comps@.len(),
            forall|i: int, c: char|
                0 <= i < next ==> #[trigger] subset_edge_ok(a, &dfa, views_of(comps@), i, c),
            forall|i: int| 0 <= i < next ==> #[trigger] deterministic_at(&dfa, i),
            forall|i: int| next <= i < comps@.len() ==> (#[trigger] dfa.out(i)).len() == 0,
            forall|i: int| 0 <= i < comps@.len() ==> #[trigger] reaches_state(&dfa, i),
        decreases bit_space(n as nat) - next,
    {
        let mut k: usize = 0;
        while k < a.alphabet.len()
            invariant
                a.wf(),
                dfa.wf(),
                n == a.num_states(),
                a.start_state == Some(start),
                bits_set(views_of(comps@)[0]) == a.closure(set![start as int]),
                subset_states_ok(a, &dfa, views_of(comps@)),
                comps@.len() <= bit_space(n as nat),
                dfa.start_state is None,
                forall|c: char| #[trigger] dfa.in_alphabet(c) ==> a.in_alphabet(c),
                next < comps@.len(),
                k <= a.alphabet@.len(),
                forall|i: int, c: char|
                    0 <= i < next ==> #[trigger] subset_edge_ok(a, &dfa, views_of(comps@), i, c),
                forall|i: int| 0 <= i < next ==> #[trigger] deterministic_at(&dfa, i),
                forall|i: int| next < i < comps@.len() ==> (#[trigger] dfa.out(i)).len() == 0,
                forall|i: int| 0 <= i < comps@.len() ==> #[trigger] reaches_state(&dfa, i),
                forall|c: char|
                    #[trigger] a.alphabet@.take(k as int).contains(c) ==> subset_edge_ok(
                        a,
                        &dfa,
                        views_of(comps@),
                        next as int,
                        c,
                    ),
                forall|c: char|
                    !#[trigger] a.alphabet@.take(k as int).contains(c) ==> first_target(
                        dfa.out(next as int),
                        c,
                    ) is None,
                forall|j: int|
                    0 <= j < dfa.out(next as int).len() ==> ((#[trigger] dfa.out(next as int)[j]).atom matches Some(d)
                        && a.alphabet@.take(k as int).contains(d)),
                deterministic_at(&dfa, next as int),
            decreases a.alphabet@.len() - k,
        {
            let c = a.alphabet[k];
            proof {
                assert(!a.alphabet@.take(k as int).contains(c)) by {
                    if a.alphabet@.take(k as int).contains(c) {
                        let i = choose|i: int| 0 <= i < a.alphabet@.take(k as int).len() && #[trigger] a.alphabet@.take(k as int)[i] == c;
                        assert(a.alphabet@[i] == a.alphabet@[k as int]);
                    }
                }
            }
            let ghost views0 = views_of(comps@);
            let ghost dfa0 = dfa;
            assert(views0[next as int] == comps@[next as int]@);
            let to = a.atom_closure(&comps[next], c);
            if !no_bits(&to) {
                let j = match find_bits(&comps, &to) {
                    Some(j) => {
                        assert(views0[j as int] == to@);
                        j
                    },
                    None => {
                        let ghost to_view = to@;
                        let id = dfa.add_state();
                        let acc = a.bits_accepting(&to);
                        dfa.set_accepting(id, acc);
                        assert(dfa.alphabet@ == dfa0.alphabet@);
                        comps.push(to);
                        proof {
                            let views1 = views_of(comps@);
                            assert(views1 == views0.push(to_view));
                            assert(views1.take(views0.len() as int) == views0);
                            assert forall|i1: int, i2: int| 0 <= i1 < views1.len() && 0 <= i2 < views1.len() && i1 != i2 implies views1[i1] != views1[i2] by {
                                if i1 == views0.len() {
                                    assert(views0[i2] == comps@[i2]@);
                                } else if i2 == views0.len() {
                                    assert(views0[i1] == comps@[i1]@);
                                }
                            }
                            lemma_distinct_bitmaps_bound(views1, n as nat);
                            assert forall|i: int| 0 <= i < views1.len() implies #[trigger] dfa.accepting_at(i) == a.any_accepting(bits_set(views1[i])) by {
                                if i < views0.len() {
                                    assert(dfa0.accepting_at(i) == a.any_accepting(bits_set(views0[i])));
                                }
                            }
                            assert forall|i: int| 0 <= i < views1.len() implies bits_set(#[trigger] views1[i]) != Set::<int>::empty() by {
                                if i < views0.len() {
                                    assert(views1[i] == views0[i]);
                                }
                            }
                            assert forall|i: int, c2: char|
                                0 <= i < next implies #[trigger] subset_edge_ok(a, &dfa, views1, i, c2) by {
                                assert(dfa.out(i) == dfa0.out(i));
                                lemma_subset_edge_ok_grow(a, &dfa0, &dfa, views0, views1, i, c2);
                            }
                            assert forall|c2: char|
                                #[trigger] a.alphabet@.take(k as int).contains(c2) implies subset_edge_ok(
                                    a, &dfa, views1, next as int, c2) by {
                                assert(dfa.out(next as int) == dfa0.out(next as int));
                                lemma_subset_edge_ok_grow(a, &dfa0, &dfa, views0, views1, next as int, c2);
                            }
                            assert forall|i: int| 0 <= i < next implies #[trigger] deterministic_at(&dfa, i) by {
                                assert(dfa.out(i) == dfa0.out(i));
                                assert(deterministic_at(&dfa0, i));
                            }
                            assert forall|i: int| next < i < views1.len() implies (#[trigger] dfa.out(i)).len() == 0 by {
                                if i < views0.len() {
                                    assert(dfa.out(i) == dfa0.out(i));
                                }
                            }
                            assert(dfa.out(next as int) == dfa0.out(next as int));
                            assert(views1[0] == views0[0]);
                        }
                        id
                    },
                };
                let ghost views1 = views_of(comps@);
                let ghost dfa1 = dfa;
                let e = Transition { atom: Some(c), from_state: next, to_state: j };
                proof {
                    if dfa1.out(next as int).contains(e) {
                        let i = choose|i: int| 0 <= i < dfa1.out(next as int).len() && dfa1.out(next as int)[i] == e;
                        assert(dfa1.out(next as int)[i].atom == Some(c));
                    }
                }
                dfa.add_transition(next, j, Some(c));
                proof {
                    assert forall|p: int|
                        #![trigger dfa.out(p)]
                        0 <= p < dfa0.num_states() implies dfa0.out(p).len() <= dfa.out(p).len()
                            && dfa.out(p).take(dfa0.out(p).len() as int) == dfa0.out(p) by {
                        assert(dfa1.out(p) == dfa0.out(p));
                        if p != next {
                            assert(dfa.out(p) == dfa1.out(p));
                        } else {
                            assert(dfa.out(p) == dfa1.out(p).push(e));
                            assert(dfa.out(p).take(dfa0.out(p).len() as int) == dfa0.out(p));
                        }
                    }
                    assert(reaches_state(&dfa0, next as int));
                    let wn = choose|wn: Seq<char>| #[trigger] dfa0.run(0, wn) == Some(next);
                    crate::automaton::lemma_run_grows(&dfa0, &dfa, 0, wn);
                    assert(first_target(dfa1.out(next as int), c) is None);
                    lemma_first_target_push(dfa1.out(next as int), e, c);
                    assert(wn.push(c).drop_last() == wn);
                    assert(dfa.run(0, wn.push(c)) == Some(j));
                    assert forall|i: int| 0 <= i < comps@.len() implies #[trigger] reaches_state(&dfa, i) by {
                        if i < dfa0.num_states() {
                            lemma_reaches_grows(&dfa0, &dfa, i);
                        } else {
                            assert(i == j);
                        }
                    }
                    assert(a.alphabet@[k as int] == c);
                    assert forall|c2: char| #[trigger] dfa.in_alphabet(c2) implies a.in_alphabet(c2) by {
                        if c2 != c {
                            assert(dfa1.in_alphabet(c2));
                            assert(dfa1.alphabet@ == dfa0.alphabet@);
                            assert(dfa0.in_alphabet(c2));
                        } else {
                            assert(a.alphabet@[k as int] == c);
                        }
                    }
                    assert(dfa.out(next as int) == dfa1.out(next as int).push(e));
                    assert(views1[j as int] == to@);
                    assert(views1[next as int] == views0[next as int]);
                    assert forall|i: int, c2: char|
                        0 <= i < next implies #[trigger] subset_edge_ok(a, &dfa, views1, i, c2) by {
                        assert(dfa.out(i) == dfa1.out(i));
                        assert(subset_edge_ok(a, &dfa1, views1, i, c2));
                    }
                    assert forall|i: int| 0 <= i < next implies #[trigger] deterministic_at(&dfa, i) by {
                        assert(dfa.out(i) == dfa1.out(i));
                        assert(deterministic_at(&dfa1, i));
                    }
                    assert forall|i: int| next < i < views1.len() implies (#[trigger] dfa.out(i)).len() == 0 by {
                        assert(dfa.out(i) == dfa1.out(i));
                    }
                    assert forall|c2: char|
                        #[trigger] a.alphabet@.take(k + 1).contains(c2) implies subset_edge_ok(
                            a, &dfa, views1, next as int, c2) by {
                        lemma_take_succ_contains(a.alphabet@, k as int, c2);
                        lemma_first_target_push(dfa1.out(next as int), e, c2);
                    }
                    assert forall|c2: char|
                        !#[trigger] a.alphabet@.take(k + 1).contains(c2) implies first_target(
                            dfa.out(next as int), c2) is None by {
                        lemma_take_succ_contains(a.alphabet@, k as int, c2);
                        lemma_first_target_push(dfa1.out(next as int), e, c2);
                    }
                    assert forall|j2: int|
                        0 <= j2 < dfa.out(next as int).len() implies ((#[trigger] dfa.out(next as int)[j2]).atom matches Some(d)
                            && a.alphabet@.take(k + 1).contains(d)) by {
                        let d = dfa.out(next as int)[j2].atom.unwrap();
                        lemma_take_succ_contains(a.alphabet@, k as int, d);
                    }
                    assert forall|j1: int, j2: int|
                        0 <= j1 < dfa.out(next as int).len() && 0 <= j2 < dfa.out(next as int).len() && j1 != j2 implies #[trigger] dfa.out(
                            next as int)[j1].atom != #[trigger] dfa.out(next as int)[j2].atom by {
                        let last = dfa1.out(next as int).len() as int;
                        if j1 == last {
                            assert(dfa1.out(next as int)[j2].atom matches Some(d) && a.alphabet@.take(k as int).contains(d));
                        } else if j2 == last {
                            assert(dfa1.out(next as int)[j1].atom matches Some(d) && a.alphabet@.take(k as int).contains(d));
                        } else {
                            assert(dfa1.out(next as int)[j1] == dfa.out(next as int)[j1]);
                            assert(dfa1.out(next as int)[j2] == dfa.out(next as int)[j2]);
                        }
                    }
                    assert forall|i: int| 0 <= i < views1.len() implies #[trigger] dfa.accepting_at(i) == a.any_accepting(bits_set(views1[i])) by {
                        assert(dfa1.accepting_at(i) == a.any_accepting(bits_set(views1[i])));
                    }
                }
            } else {
                proof {
                    assert forall|c2: char|
                        #[trigger] a.alphabet@.take(k + 1).contains(c2) implies subset_edge_ok(
                            a, &dfa, views0, next as int, c2) by {
                        lemma_take_succ_contains(a.alphabet@, k as int, c2);
                    }
                    assert forall|c2: char|
                        !#[trigger] a.alphabet@.take(k + 1).contains(c2) implies first_target(
                            dfa.out(next as int), c2) is None by {
                        lemma_take_succ_contains(a.alphabet@, k as int, c2);
                    }
                    assert forall|j2: int|
                        0 <= j2 < dfa.out(next as int).len() implies ((#[trigger] dfa.out(next as int)[j2]).atom matches Some(d)
                            && a.alphabet@.take(k + 1).contains(d)) by {
                        let d = dfa.out(next as int)[j2].atom.unwrap();
                        lemma_take_succ_contains(a.alphabet@, k as int, d);
                    }
                }
            }
            k += 1;
        }
        proof {
            assert(a.alphabet@.take(a.alphabet@.len() as int) == a.alphabet@);
            assert forall|c2: char| #[trigger] subset_edge_ok(a, &dfa, views_of(comps@), next as int, c2) by {
                if !a.alphabet@.contains(c2) {
                    lemma_step_outside_alphabet(a, bits_set(views_of(comps@)[next as int]), c2);
                }
            }
        }
        next += 1;
    }
    let ghost before = dfa;
    dfa.set_start_state(0);
    proof {
        assert forall|s: int, i: int|
            0 <= s < dfa.num_states() && 0 <= i < dfa.out(s).len() implies (#[trigger] dfa.out(s)[i]).atom is Some by {
            assert(deterministic_at(&before, s));
            assert(dfa.out(s) == before.out(s));
        }
        assert forall|s: int, i: int, j: int|
            0 <= s < dfa.num_states() && 0 <= i < dfa.out(s).len() && 0 <= j < dfa.out(s).len() && i != j
                implies #[trigger] dfa.out(s)[i].atom != #[trigger] dfa.out(s)[j].atom by {
            assert(deterministic_at(&before, s));
            assert(dfa.out(s) == before.out(s));
        }
        assert(dfa.is_deterministic());
    }
    let ghost before_kind = dfa;
    dfa.kind = AutomatonKind::Dfa;
    proof {
        lemma_wf_frame(before_kind, dfa);
        let views = views_of(comps@);
        assert forall|i: int, c: char|
            0 <= i < views.len() implies #[trigger] subset_edge_ok(a, &dfa, views, i, c) by {
            assert(subset_edge_ok(a, &before, views, i, c));
            assert(dfa.out(i) == before.out(i));
        }
        assert forall|i: int| 0 <= i < views.len() implies #[trigger] dfa.accepting_at(i) == a.any_accepting(
            bits_set(views[i])) by {
            assert(before.accepting_at(i) == a.any_accepting(bits_set(views[i])));
        }
        assert(subset_states_ok(a, &dfa, views));
        assert forall|p: int|
            #![trigger dfa.out(p)]
            0 <= p < before.num_states() implies before.out(p).len() <= dfa.out(p).len() && dfa.out(p).take(
                before.out(p).len() as int,
            ) == before.out(p) by {
            assert(dfa.out(p) == before.out(p));
            assert(dfa.out(p).take(dfa.out(p).len() as int) == dfa.out(p));
        }
        assert forall|i: int| 0 <= i < dfa.num_states() implies #[trigger] reaches_state(&dfa, i) by {
            assert(reaches_state(&before, i));
            lemma_reaches_grows(&before, &dfa, i);
        }
        assert forall|c: char| #[trigger] dfa.in_alphabet(c) implies a.in_alphabet(c) by {
            assert(before.in_alphabet(c));
        }
        assert forall|w: Seq<char>| #[trigger] dfa.accepts(w) == a.nfa_accepts(w) by {
            lemma_subset_run(a, &dfa, views, w);
            if let Some(j) = dfa.run(0, w) {
                if a.nfa_accepts(w) {
                    let q = choose|q: int| a.nfa_states(w).contains(q) && #[trigger] a.accepting_at(q);
                    assert(bits_set(views[j as int]).contains(q));
                }
                if dfa.accepts(w) {
                    assert(a.any_accepting(bits_set(views[j as int])));
                    let q = choose|q: int| bits_set(views[j as int]).contains(q) && #[trigger] a.accepting_at(q);
                    assert(a.nfa_states(w).contains(q));
                }
            } else {
                if a.nfa_accepts(w) {
                    let q = choose|q: int| a.nfa_states(w).contains(q) && #[trigger] a.accepting_at(q);
                    assert(a.nfa_states(w).contains(q));
                }
            }
        }
    }
    dfa
}

/// The start state lies in its own closure.
proof fn lemma_eps_reaches_self_in(a: &Automaton, s: int)
    ensures
        a.closure(set![s]).contains(s),
{
    crate::closure::lemma_eps_reaches_self(a, s);
    assert(set![s].contains(s));
}

impl Automaton {
    /// A deterministic automaton with the language of the nondeterministic
    /// reading of `self`: `self` itself when its kind already says it is
    /// deterministic, else the subset construction.
    pub fn into_dfa(self) -> (r: Automaton)
        requires
            self.wf(),
            self.kind == AutomatonKind::Nfa ==> self.start_state is Some,
        ensures
            r.wf(),
            r.kind != AutomatonKind::Nfa,
            r.is_deterministic(),
            self.start_state is Some ==> r.start_state is Some,
            self.kind != AutomatonKind::Nfa ==> r == self,
            forall|w: Seq<char>| #[trigger] r.accepts(w) == self.nfa_accepts(w),
    {
        proof {
            assert(self.states.len() == self.num_states());
        }
        match self.kind {
            AutomatonKind::Nfa => nfa_to_dfa(&self),
            _ => {
                assert forall|w: Seq<char>| #[trigger] self.accepts(w) == self.nfa_accepts(w) by {
                    lemma_deterministic_nfa_states(&self, w);
                }
                self
            },
        }
    }

    /// Some state of `s` is accepting.
    pub open spec fn any_accepting(&self, s: Set<int>) -> bool {
        exists|q: int| s.contains(q) && #[trigger] self.accepting_at(q)
    }

    /// Whether a state that `b` sets is accepting.
    fn bits_accepting(&self, b: &Vec<bool>) -> (r: bool)
        ensures
            r == self.any_accepting(bits_set(b@)),
    {
        let mut i: usize = 0;
        while i < b.len()
            invariant
                i <= b@.len(),
                forall|k: int| 0 <= k < i && b@[k] ==> !self.accepting_at(k),
            decreases b@.len() - i,
        {
            if b[i] && self.is_accepting(i) {
                assert(bits_set(b@).contains(i as int));
                return true;
            }
            i += 1;
        }
        false
    }

    /// The states that epsilon edges lead to from `start_state`.
    pub fn epsilon_closure(&self, start_state: usize) -> (r: Vec<bool>)
        requires
            self.wf(),
            start_state < self.num_states(),
        ensures
            r@.len() == self.num_states(),
            bits_set(r@) == self.closure(set![start_state as int]),
    {
        let seeds = singleton_bits(self.states.len(), start_state);
        self.close(&seeds)
    }

    /// The closure of the targets of the edges labelled `atom` out of the
    /// states that `from_state_set` sets.
    pub fn atom_closure(&self, from_state_set: &Vec<bool>, atom: char) -> (r: Vec<bool>)
        requires
            self.wf(),
            from_state_set@.len() == self.num_states(),
        ensures
            r@.len() == self.num_states(),
            bits_set(r@) == self.closure(self.step(bits_set(from_state_set@), atom)),
    {
        let n = self.states.len();
        let mut hit: Vec<bool> = Vec::new();
        let mut i: usize = 0;
        while i < n
            invariant
                i <= n,
                hit@.len() == i,
                forall|k: int| 0 <= k < i ==> !hit@[k],
            decreases n - i,
        {
            hit.push(false);
            i += 1;
        }
        let ghost from = bits_set(from_state_set@);
        let mut p: usize = 0;
        while p < n
            invariant
                self.wf(),
                n == self.num_states(),
                from == bits_set(from_state_set@),
                from_state_set@.len() == n,
                p <= n,
                hit@.len() == n,
                forall|q: int|
                    0 <= q < n ==> (hit@[q] <==> exists|p0: int|
                        0 <= p0 < p && from.contains(p0) && #[trigger] self.has_edge(p0, q, Some(atom))),
            decreases n - p,
        {
            if from_state_set[p] {
                let edges = &self.states[p].from_transitions;
                let ghost h0 = hit@;
                let mut i: usize = 0;
                while i < edges.len()
                    invariant
                        self.wf(),
                        n == self.num_states(),
                        p < n,
                        from.contains(p as int),
                        edges@ == self.out(p as int),
                        i <= edges@.len(),
                        hit@.len() == n,
                        h0.len() == n,
                        forall|q: int|
                            0 <= q < n ==> (#[trigger] hit@[q] <==> (h0[q] || edges@.take(i as int).contains(
                                Transition { atom: Some(atom), from_state: p, to_state: q as usize },
                            ))),
                    decreases edges@.len() - i,
                {
                    let e = edges[i];
                    assert(e == self.out(p as int)[i as int]);
                    let is_atom = match e.atom {
                        Some(c) => c == atom,
                        None => false,
                    };
                    let ghost hit_before = hit@;
                    if is_atom {
                        hit.set(e.to_state, true);
                    }
                    assert forall|q: int|
                        0 <= q < n implies (hit@[q] <==> (h0[q] || edges@.take(i + 1).contains(
                            Transition { atom: Some(atom), from_state: p, to_state: q as usize },
                        ))) by {
                        let t = Transition { atom: Some(atom), from_state: p, to_state: q as usize };
                        assert(hit_before[q] <==> (h0[q] || edges@.take(i as int).contains(t)));
                        lemma_take_succ_contains(edges@, i as int, t);
                        assert(e.from_state == p);
                        assert((edges@[i as int] == t) <==> (is_atom && e.to_state == q));
                        if is_atom {
                            assert(hit@[q] == (hit_before[q] || q == e.to_state));
                        } else {
                            assert(hit@[q] == hit_before[q]);
                        }
                    }
                    i += 1;
                }
                assert(edges@.take(i as int) == edges@);
                assert forall|q: int|
                    0 <= q < n implies (hit@[q] <==> exists|p0: int|
                        0 <= p0 < p + 1 && from.contains(p0) && #[trigger] self.has_edge(p0, q, Some(atom))) by {
                    let t = Transition { atom: Some(atom), from_state: p, to_state: q as usize };
                    assert(hit@[q] <==> (h0[q] || edges@.take(i as int).contains(t)));
                    assert(hit@[q] <==> (h0[q] || edges@.contains(t)));
                    assert(self.has_edge(p as int, q, Some(atom)) == edges@.contains(t));
                    if hit@[q] && h0[q] {
                        let p0 = choose|p0: int| 0 <= p0 < p && from.contains(p0) && #[trigger] self.has_edge(p0, q, Some(atom));
                        assert(self.has_edge(p0, q, Some(atom)));
                    }
                    if exists|p0: int| 0 <= p0 < p + 1 && from.contains(p0) && #[trigger] self.has_edge(p0, q, Some(atom)) {
                        let p0 = choose|p0: int| 0 <= p0 < p + 1 && from.contains(p0) && #[trigger] self.has_edge(p0, q, Some(atom));
                        if p0 < p {
                            assert(h0[q]);
                        }
                    }
                }
            } else {
                assert forall|q: int|
                    0 <= q < n implies (hit@[q] <==> exists|p0: int|
                        0 <= p0 < p + 1 && from.contains(p0) && #[trigger] self.has_edge(p0, q, Some(atom))) by {
                    if exists|p0: int| 0 <= p0 < p + 1 && from.contains(p0) && #[trigger] self.has_edge(p0, q, Some(atom)) {
                        let p0 = choose|p0: int| 0 <= p0 < p + 1 && from.contains(p0) && #[trigger] self.has_edge(p0, q, Some(atom));
                        assert(p0 != p);
                    }
                }
            }
            p += 1;
        }
        assert forall|q: int| #[trigger] bits_set(hit@).contains(q) == self.step(from, atom).contains(q) by {
            if self.step(from, atom).contains(q) {
                let p0 = choose|p0: int| from.contains(p0) && #[trigger] self.has_edge(p0, q, Some(atom));
                assert(0 <= p0 < n);
            }
        }
        assert(bits_set(hit@) =~= self.step(from, atom));
        self.close(&hit)
    }
}

} // verus!
