use vstd::prelude::*;
use vstd::arithmetic::div_mod::lemma_fundamental_div_mod_converse;
use vstd::arithmetic::div_mod::{lemma_fundamental_div_mod, lemma_mod_pos_bound};
use crate::determinize::deterministic_at;
use crate::lemmas::{lemma_push_contains, lemma_take_succ_contains, lemma_push_no_duplicates};
use crate::automaton::{
    Automaton, Transition, contains_char, first_target, lemma_first_target_index,
    lemma_run_in_range, lemma_successor_in_range,
};

verus! {

/// The pair `(a, b)` is numbered `a * n2 + b`.
pub proof fn lemma_pair_index(a: int, b: int, n1: int, n2: int)
    requires
        0 <= a < n1,
        0 <= b < n2,
    ensures
        0 <= a * n2 + b < n1 * n2,
        (a * n2 + b) / n2 == a,
        (a * n2 + b) % n2 == b,
{
    assert(0 <= a * n2) by (nonlinear_arith)
        requires
            0 <= a,
            0 <= n2,
    ;
    assert(a * n2 + b < n1 * n2) by (nonlinear_arith)
        requires
            a < n1,
            b < n2,
            0 <= b,
    ;
    lemma_fundamental_div_mod_converse(a * n2 + b, n2, a, b);
}

/// Every number below `n1 * n2` is a pair.
pub proof fn lemma_pair_decode(p: int, n1: int, n2: int)
    requires
        0 <= p < n1 * n2,
        0 <= n1,
        0 <= n2,
    ensures
        n2 > 0,
        0 <= p / n2 < n1,
        0 <= p % n2 < n2,
        p == (p / n2) * n2 + p % n2,
{
    if n2 == 0 {
        assert(n1 * n2 == 0) by (nonlinear_arith)
            requires
                n2 == 0,
        ;
    }
    lemma_fundamental_div_mod(p, n2);
    lemma_mod_pos_bound(p, n2);
    assert((p / n2) * n2 == n2 * (p / n2)) by (nonlinear_arith);
    assert(0 <= p / n2 < n1) by (nonlinear_arith)
        requires
            0 <= p < n1 * n2,
            n2 > 0,
            p == (p / n2) * n2 + p % n2,
            0 <= p % n2 < n2,
    ;
}

/// A label outside the alphabet labels no edge.
pub proof fn lemma_no_successor_outside_alphabet(a: &Automaton, s: int, c: char)
    requires
        a.wf(),
        0 <= s < a.num_states(),
        !a.in_alphabet(c),
    ensures
        a.successor(s, c) is None,
{
    if a.successor(s, c) is Some {
        let i = lemma_first_target_index(a.out(s), c);
        assert(a.out(s)[i].atom == Some(c));
    }
}

/// Appending an edge changes the first target of its own label only, and
/// only where that label had none.
pub proof fn lemma_first_target_push(edges: Seq<Transition>, e: Transition, c: char)
    ensures
        first_target(edges.push(e), c) == (if first_target(edges, c) is Some {
            first_target(edges, c)
        } else if e.atom == Some(c) {
            Some(e.to_state)
        } else {
            None
        }),
    decreases edges.len(),
{
    if edges.len() > 0 {
        assert(edges.push(e)[0] == edges[0]);
        assert(edges.push(e).drop_first() == edges.drop_first().push(e));
        lemma_first_target_push(edges.drop_first(), e, c);
    } else {
        assert(edges.push(e)[0] == e);
        assert(edges.push(e).drop_first() == Seq::<Transition>::empty());
        assert(first_target(Seq::<Transition>::empty(), c) is None);
    }
}

/// The symbols of either `a` or `b`, each once.
pub fn union_alphabet(a: &Vec<char>, b: &Vec<char>) -> (r: Vec<char>)
    requires
        a@.no_duplicates(),
        b@.no_duplicates(),
    ensures
        r@.no_duplicates(),
        forall|c: char| #[trigger] r@.contains(c) == (a@.contains(c) || b@.contains(c)),
{
    let mut r: Vec<char> = Vec::new();
    let mut i: usize = 0;
    while i < a.len()
        invariant
            i <= a@.len(),
            a@.no_duplicates(),
            r@ == a@.take(i as int),
        decreases a@.len() - i,
    {
        r.push(a[i]);
        assert(a@.take(i + 1) == a@.take(i as int).push(a@[i as int]));
        i += 1;
    }
    assert(a@.take(a@.len() as int) == a@);
    let mut j: usize = 0;
    while j < b.len()
        invariant
            j <= b@.len(),
            r@.no_duplicates(),
            forall|c: char| #[trigger]
                r@.contains(c) == (a@.contains(c) || b@.take(j as int).contains(c)),
        decreases b@.len() - j,
    {
        let c = b[j];
        let ghost before = r@;
        if !contains_char(&r, c) {
            proof {
                lemma_push_no_duplicates(r@, c);
            }
            r.push(c);
        }
        assert forall|d: char| #[trigger]
            r@.contains(d) == (a@.contains(d) || b@.take(j + 1).contains(d)) by {
            lemma_take_succ_contains(b@, j as int, d);
            lemma_push_contains(before, c, d);
        }
        j += 1;
    }
    assert(b@.take(b@.len() as int) == b@);
    r
}

/// Runs of the product are the pairs of the runs of its factors.
pub proof fn lemma_product_run(
    a: &Automaton,
    b: &Automaton,
    r: &Automaton,
    x: int,
    y: int,
    w: Seq<char>,
)
    requires
        a.wf(),
        b.wf(),
        0 <= x < a.num_states(),
        0 <= y < b.num_states(),
        r.num_states() == a.num_states() * b.num_states(),
        r.num_states() <= usize::MAX,
        forall|p: int, c: char|
            0 <= p < r.num_states() ==> #[trigger] r.successor(p, c) == a.product_target(b, p, c),
    ensures
        r.run(x * b.num_states() + y, w) == match (a.run(x, w), b.run(y, w)) {
            (Some(u), Some(v)) => Some((u * b.num_states() + v) as usize),
            _ => None,
        },
    decreases w.len(),
{
    let n2 = b.num_states() as int;
    lemma_pair_index(x, y, a.num_states() as int, n2);
    if w.len() > 0 {
        let u = w.drop_last();
        lemma_product_run(a, b, r, x, y, u);
        lemma_run_in_range(a, x, u);
        lemma_run_in_range(b, y, u);
        if let (Some(s), Some(t)) = (a.run(x, u), b.run(y, u)) {
            lemma_pair_index(s as int, t as int, a.num_states() as int, n2);
            let c = w.last();
            assert(r.successor((s * n2 + t) as usize as int, c) == a.product_target(b, s * n2 + t, c));
            lemma_successor_in_range(a, s as int, c);
            lemma_successor_in_range(b, t as int, c);
            if let (Some(s2), Some(t2)) = (a.successor(s as int, c), b.successor(t as int, c)) {
                lemma_pair_index(s2 as int, t2 as int, a.num_states() as int, n2);
            }
        }
    }
}

impl Automaton {
    /// The automaton of all pairs of a state of `self` and a state of
    /// `other`, the pair `(a, b)` numbered `a * other.num_states() + b`:
    /// accepting when both are, with an edge on each symbol of either
    /// alphabet on which both have a successor. Every pair is allocated,
    /// reachable or not.
    pub fn intersection(&self, other: &Automaton) -> (r: Automaton)
        requires
            self.wf(),
            other.wf(),
            self.start_state is Some,
            other.start_state is Some,
            self.num_states() * other.num_states() <= usize::MAX,
        ensures
            r.wf(),
            r.num_states() == self.num_states() * other.num_states(),
            r.start_state == Some(
                (self.start_state.unwrap() * other.num_states() + other.start_state.unwrap()) as usize,
            ),
            forall|p: int|
                0 <= p < r.num_states() ==> #[trigger] r.accepting_at(p) == (self.accepting_at(
                    p / other.num_states() as int,
                ) && other.accepting_at(p % other.num_states() as int)),
            forall|p: int, c: char|
                0 <= p < r.num_states() ==> #[trigger] r.successor(p, c) == self.product_target(
                    other,
                    p,
                    c,
                ),
            r.is_deterministic(),
            forall|w: Seq<char>| #[trigger] r.accepts(w) == (self.accepts(w) && other.accepts(w)),
    {
        let n1 = self.states.len();
        let n2 = other.states.len();
        let total = n1 * n2;
        let symbols = union_alphabet(&self.alphabet, &other.alphabet);
        let mut r = Automaton::new();
        let mut p: usize = 0;
        while p < total
            invariant
                r.wf(),
                p <= total,
                total == n1 * n2,
                n1 == self.num_states(),
                n2 == other.num_states(),
                r.num_states() == p,
                r.start_state is None,
                forall|q: int|
                    0 <= q < p ==> #[trigger] r.accepting_at(q) == (self.accepting_at(q / n2 as int)
                        && other.accepting_at(q % n2 as int)),
                forall|q: int| 0 <= q < p ==> (#[trigger] r.out(q)).len() == 0,
            decreases total - p,
        {
            proof {
                lemma_pair_decode(p as int, n1 as int, n2 as int);
            }
            let a = p / n2;
            let b = p % n2;
            let ghost r0 = r;
            let id = r.add_state();
            let ghost r1 = r;
            r.set_accepting(id, self.is_accepting(a) && other.is_accepting(b));
            assert forall|q: int| 0 <= q < p + 1 implies (#[trigger] r.out(q)).len() == 0 by {
                assert(r.out(q) == r1.out(q));
                if q < p {
                    assert(r1.states@[q] == r0.states@[q]);
                    assert(r0.out(q).len() == 0);
                }
            }
            assert forall|q: int| 0 <= q < p + 1 implies #[trigger] r.accepting_at(q) == (self.accepting_at(q / n2 as int)
                        && other.accepting_at(q % n2 as int)) by {
                if q < p {
                    assert(r1.states@[q] == r0.states@[q]);
                    assert(r0.accepting_at(q) == (self.accepting_at(q / n2 as int) && other.accepting_at(q % n2 as int)));
                    assert(r0.out(q).len() == 0);
                    assert(r.out(q) == r1.out(q));
                } else {
                    assert(r.out(q) == r1.out(q));
                }
            }
            p += 1;
        }
        let mut p: usize = 0;
        while p < total
            invariant
                r.wf(),
                p <= total,
                total == n1 * n2,
                n1 == self.num_states(),
                n2 == other.num_states(),
                self.wf(),
                other.wf(),
                symbols@.no_duplicates(),
                forall|c: char| #[trigger]
                    symbols@.contains(c) == (self.in_alphabet(c) || other.in_alphabet(c)),
                r.num_states() == total,
                r.start_state is None,
                forall|q: int|
                    0 <= q < total ==> #[trigger] r.accepting_at(q) == (self.accepting_at(
                        q / n2 as int,
                    ) && other.accepting_at(q % n2 as int)),
                forall|q: int, c: char|
                    0 <= q < p ==> #[trigger] r.successor(q, c) == self.product_target(other, q, c),
                forall|q: int| p <= q < total ==> (#[trigger] r.out(q)).len() == 0,
                forall|q: int| 0 <= q < p ==> #[trigger] deterministic_at(&r, q),
            decreases total - p,
        {
            proof {
                lemma_pair_decode(p as int, n1 as int, n2 as int);
            }
            let a = p / n2;
            let b = p % n2;
            assert(r.out(p as int).len() == 0);
            assert(deterministic_at(&r, p as int));
            let mut k: usize = 0;
            while k < symbols.len()
                invariant
                    r.wf(),
                    p < total,
                    total == n1 * n2,
                    n1 == self.num_states(),
                    n2 == other.num_states(),
                    a == p as int / n2 as int,
                    b == p as int % n2 as int,
                    a < n1,
                    b < n2,
                    self.wf(),
                    other.wf(),
                    k <= symbols@.len(),
                    symbols@.no_duplicates(),
                    r.num_states() == total,
                    r.start_state is None,
                    forall|q: int|
                        0 <= q < total ==> #[trigger] r.accepting_at(q) == (self.accepting_at(
                            q / n2 as int,
                        ) && other.accepting_at(q % n2 as int)),
                    forall|q: int, c: char|
                        0 <= q < p ==> #[trigger] r.successor(q, c) == self.product_target(other, q, c),
                    forall|q: int| p < q < total ==> (#[trigger] r.out(q)).len() == 0,
                    forall|q: int| 0 <= q < p ==> #[trigger] deterministic_at(&r, q),
                    deterministic_at(&r, p as int),
                    forall|i: int|
                        0 <= i < r.out(p as int).len() ==> ((#[trigger] r.out(p as int)[i]).atom matches Some(d)
                            && symbols@.take(k as int).contains(d)),
                    forall|c: char|
                        #[trigger] first_target(r.out(p as int), c) == if symbols@.take(k as int).contains(c) {
                            self.product_target(other, p as int, c)
                        } else {
                            None
                        },
                decreases symbols@.len() - k,
            {
                let c = symbols[k];
                let ghost old_out = r.out(p as int);
                proof {
                    assert(!symbols@.take(k as int).contains(c)) by {
                        if symbols@.take(k as int).contains(c) {
                            let i = choose|i: int| 0 <= i < symbols@.take(k as int).len() && #[trigger] symbols@.take(k as int)[i] == c;
                            assert(symbols@[i] == symbols@[k as int]);
                        }
                    }
                }
                let sa = self.traverse_from(a, c);
                let sb = other.traverse_from(b, c);
                proof {
                    lemma_successor_in_range(self, a as int, c);
                    lemma_successor_in_range(other, b as int, c);
                }
                if let (Some(x), Some(y)) = (sa, sb) {
                    proof {
                        lemma_pair_index(x as int, y as int, n1 as int, n2 as int);
                    }
                    let t = x * n2 + y;
                    let e = Transition { atom: Some(c), from_state: p, to_state: t };
                    proof {
                        if old_out.contains(e) {
                            let i = choose|i: int| 0 <= i < old_out.len() && old_out[i] == e;
                            assert(old_out[i].atom == Some(c));
                        }
                    }
                    let ghost r0 = r;
                    r.add_transition(p, t, Some(c));
                    assert(r.out(p as int) == old_out.push(e));
                    assert forall|q: int, d: char| 0 <= q < p implies #[trigger] r.successor(q, d) == self.product_target(other, q, d) by {
                        assert(r.out(q) == r0.out(q));
                        assert(r0.successor(q, d) == self.product_target(other, q, d));
                    }
                    assert forall|q: int| p < q < total implies (#[trigger] r.out(q)).len() == 0 by {
                        assert(r.out(q) == r0.out(q));
                    }
                    assert forall|q: int| 0 <= q < p implies #[trigger] deterministic_at(&r, q) by {
                        assert(r.out(q) == r0.out(q));
                        assert(deterministic_at(&r0, q));
                    }
                    assert forall|i1: int, i2: int|
                        0 <= i1 < r.out(p as int).len() && 0 <= i2 < r.out(p as int).len() && i1 != i2 implies #[trigger] r.out(
                            p as int)[i1].atom != #[trigger] r.out(p as int)[i2].atom by {
                        let last = old_out.len() as int;
                        if i1 == last {
                            assert(old_out[i2].atom matches Some(d) && symbols@.take(k as int).contains(d));
                        } else if i2 == last {
                            assert(old_out[i1].atom matches Some(d) && symbols@.take(k as int).contains(d));
                        } else {
                            assert(old_out[i1] == r.out(p as int)[i1]);
                            assert(old_out[i2] == r.out(p as int)[i2]);
                        }
                    }
                    assert forall|d: char| #[trigger] first_target(r.out(p as int), d) == if symbols@.take(k + 1).contains(d) {
                            self.product_target(other, p as int, d)
                        } else {
                            None
                        } by {
                        lemma_first_target_push(old_out, e, d);
                        lemma_take_succ_contains(symbols@, k as int, d);
                    }
                    assert forall|i: int|
                        0 <= i < r.out(p as int).len() implies ((#[trigger] r.out(p as int)[i]).atom matches Some(d)
                            && symbols@.take(k + 1).contains(d)) by {
                        let d = r.out(p as int)[i].atom.unwrap();
                        lemma_take_succ_contains(symbols@, k as int, d);
                    }
                } else {
                    assert forall|d: char| #[trigger] first_target(r.out(p as int), d) == if symbols@.take(k + 1).contains(d) {
                            self.product_target(other, p as int, d)
                        } else {
                            None
                        } by {
                        lemma_take_succ_contains(symbols@, k as int, d);
                    }
                    assert forall|i: int|
                        0 <= i < r.out(p as int).len() implies ((#[trigger] r.out(p as int)[i]).atom matches Some(d)
                            && symbols@.take(k + 1).contains(d)) by {
                        let d = r.out(p as int)[i].atom.unwrap();
                        lemma_take_succ_contains(symbols@, k as int, d);
                    }
                }
                k += 1;
            }
            assert(symbols@.take(symbols@.len() as int) == symbols@);
            assert(deterministic_at(&r, p as int));
            assert forall|c: char| #[trigger] r.successor(p as int, c) == self.product_target(other, p as int, c) by {
                if !symbols@.contains(c) {
                    lemma_no_successor_outside_alphabet(self, a as int, c);
                }
            }
            p += 1;
        }
        let sa = match self.start_state {
            Some(s) => s,
            None => 0,
        };
        let sb = match other.start_state {
            Some(s) => s,
            None => 0,
        };
        proof {
            lemma_pair_index(sa as int, sb as int, n1 as int, n2 as int);
        }
        let ghost before = r;
        r.set_start_state(sa * n2 + sb);
        assert forall|q: int, c: char| 0 <= q < r.num_states() implies #[trigger] r.successor(q, c) == self.product_target(other, q, c) by {
            assert(r.out(q) == before.out(q));
            assert(before.successor(q, c) == self.product_target(other, q, c));
        }
        assert forall|q: int| 0 <= q < r.num_states() implies #[trigger] r.accepting_at(q) == (self.accepting_at(
                q / n2 as int) && other.accepting_at(q % n2 as int)) by {
            assert(r.accepting_at(q) == before.accepting_at(q));
        }
        assert forall|q: int, i: int|
            0 <= q < r.num_states() && 0 <= i < r.out(q).len() implies (#[trigger] r.out(q)[i]).atom is Some by {
            assert(r.out(q) == before.out(q));
            assert(deterministic_at(&before, q));
        }
        assert forall|q: int, i: int, j: int|
            0 <= q < r.num_states() && 0 <= i < r.out(q).len() && 0 <= j < r.out(q).len() && i != j
                implies #[trigger] r.out(q)[i].atom != #[trigger] r.out(q)[j].atom by {
            assert(r.out(q) == before.out(q));
            assert(deterministic_at(&before, q));
        }
        assert(r.num_states() <= usize::MAX);
        assert forall|w: Seq<char>| #[trigger] r.accepts(w) == (self.accepts(w) && other.accepts(w)) by {
            lemma_product_run(self, other, &r, sa as int, sb as int, w);
            lemma_run_in_range(self, sa as int, w);
            lemma_run_in_range(other, sb as int, w);
            if let (Some(u), Some(v)) = (self.run(sa as int, w), other.run(sb as int, w)) {
                lemma_pair_index(u as int, v as int, n1 as int, n2 as int);
            }
        }
        r
    }

    /// Where the product of `self` and `other` goes from the pair numbered
    /// `p` on `c`: the pair of both successors, when both exist.
    pub open spec fn product_target(&self, other: &Automaton, p: int, c: char) -> Option<usize> {
        let n2 = other.num_states() as int;
        match (self.successor(p / n2, c), other.successor(p % n2, c)) {
            (Some(x), Some(y)) => Some((x * n2 + y) as usize),
            _ => None,
        }
    }
}

} // verus!
