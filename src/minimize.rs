use vstd::prelude::*;
use crate::automaton::{
    Automaton, AutomatonKind, Transition, first_target, lemma_run_in_range, lemma_successor_in_range,
    lemma_wf_frame,
};
use crate::product::lemma_no_successor_outside_alphabet;

verus! {

/// Number of `true` flags in `s`.
pub open spec fn count_true(s: Seq<bool>) -> nat
    decreases s.len(),
{
    if s.len() == 0 {
        0
    } else {
        count_true(s.drop_last()) + if s.last() {
            1nat
        } else {
            0nat
        }
    }
}

/// Number of `true` flags in all rows of `t`.
pub open spec fn count_rows(t: Seq<Seq<bool>>) -> nat
    decreases t.len(),
{
    if t.len() == 0 {
        0
    } else {
        count_rows(t.drop_last()) + count_true(t.last())
    }
}

pub proof fn lemma_count_true_bound(s: Seq<bool>)
    ensures
        count_true(s) <= s.len(),
    decreases s.len(),
{
    if s.len() > 0 {
        lemma_count_true_bound(s.drop_last());
    }
}

pub proof fn lemma_count_true_set(s: Seq<bool>, i: int)
    requires
        0 <= i < s.len(),
        !s[i],
    ensures
        count_true(s.update(i, true)) == count_true(s) + 1,
    decreases s.len(),
{
    let u = s.update(i, true);
    if i == s.len() - 1 {
        assert(u.drop_last() == s.drop_last());
    } else {
        assert(u.drop_last() == s.drop_last().update(i, true));
        lemma_count_true_set(s.drop_last(), i);
    }
}

pub proof fn lemma_count_rows_update(t: Seq<Seq<bool>>, i: int, r: Seq<bool>)
    requires
        0 <= i < t.len(),
    ensures
        count_rows(t.update(i, r)) + count_true(t[i]) == count_rows(t) + count_true(r),
    decreases t.len(),
{
    let u = t.update(i, r);
    if i == t.len() - 1 {
        assert(u.drop_last() == t.drop_last());
    } else {
        assert(u.drop_last() == t.drop_last().update(i, r));
        lemma_count_rows_update(t.drop_last(), i, r);
    }
}

pub proof fn lemma_count_rows_bound(t: Seq<Seq<bool>>, n: nat)
    requires
        forall|i: int| 0 <= i < t.len() ==> (#[trigger] t[i]).len() == n,
    ensures
        count_rows(t) <= t.len() * n,
    decreases t.len(),
{
    if t.len() > 0 {
        lemma_count_rows_bound(t.drop_last(), n);
        lemma_count_true_bound(t.last());
        assert(count_rows(t) <= t.len() * n) by (nonlinear_arith)
            requires
                count_rows(t) == count_rows(t.drop_last()) + count_true(t.last()),
                count_rows(t.drop_last()) <= (t.len() - 1) * n,
                count_true(t.last()) <= n,
        ;
    }
}

/// Whether the pair `(x, y)` is marked, `None` standing for the dead state.
pub open spec fn is_marked(t: Seq<Seq<bool>>, d: Seq<bool>, x: Option<usize>, y: Option<usize>) -> bool {
    match (x, y) {
        (None, None) => false,
        (Some(p), None) => d[p as int],
        (None, Some(q)) => d[q as int],
        (Some(p), Some(q)) => t[p as int][q as int],
    }
}

impl Automaton {
    /// A state or the dead state.
    pub open spec fn valid_ext(&self, x: Option<usize>) -> bool {
        match x {
            None => true,
            Some(p) => p < self.num_states(),
        }
    }

    /// `successor`, with the dead state going nowhere but to itself.
    pub open spec fn ext_succ(&self, x: Option<usize>, c: char) -> Option<usize> {
        match x {
            None => None,
            Some(p) => self.successor(p as int, c),
        }
    }

    pub open spec fn ext_run(&self, x: Option<usize>, w: Seq<char>) -> Option<usize> {
        match x {
            None => None,
            Some(p) => self.run(p as int, w),
        }
    }

    /// `w` leads from `x` to an accepting state; never from the dead state.
    pub open spec fn ext_accepts(&self, x: Option<usize>, w: Seq<char>) -> bool {
        match self.ext_run(x, w) {
            None => false,
            Some(t) => self.accepting_at(t as int),
        }
    }

    /// `x` and `y` accept the same words.
    pub open spec fn equivalent(&self, x: Option<usize>, y: Option<usize>) -> bool {
        forall|w: Seq<char>| #[trigger] self.ext_accepts(x, w) == self.ext_accepts(y, w)
    }

    /// The marking table: `n` rows of `n` flags for the pairs of states and
    /// `n` flags for the pairs with the dead state, symmetric, unmarked on
    /// the diagonal, marking every pair that acceptance tells apart and only
    /// pairs that some word tells apart.
    pub open spec fn table_ok(&self, t: Seq<Seq<bool>>, d: Seq<bool>) -> bool {
        &&& t.len() == self.num_states()
        &&& d.len() == self.num_states()
        &&& forall|p: int| 0 <= p < t.len() ==> (#[trigger] t[p]).len() == self.num_states()
        &&& forall|p: int, q: int|
            0 <= p < t.len() && 0 <= q < t.len() ==> #[trigger] t[p][q] == t[q][p]
        &&& forall|p: int| 0 <= p < t.len() ==> !(#[trigger] t[p])[p]
        &&& forall|x: Option<usize>, y: Option<usize>|
            self.valid_ext(x) && self.valid_ext(y) && self.ext_accepts(x, Seq::empty())
                != self.ext_accepts(y, Seq::empty()) ==> #[trigger] is_marked(t, d, x, y)
        &&& forall|x: Option<usize>, y: Option<usize>|
            self.valid_ext(x) && self.valid_ext(y) && #[trigger] is_marked(t, d, x, y)
                ==> !self.equivalent(x, y)
    }

    /// No unmarked pair has a marked pair of successors.
    pub open spec fn table_closed(&self, t: Seq<Seq<bool>>, d: Seq<bool>) -> bool {
        forall|x: Option<usize>, y: Option<usize>, c: char|
            self.valid_ext(x) && self.valid_ext(y) && self.in_alphabet(c) && !is_marked(t, d, x, y)
                ==> !#[trigger] is_marked(t, d, self.ext_succ(x, c), self.ext_succ(y, c))
    }
}

pub proof fn lemma_marked_symmetric(
    a: &Automaton,
    t: Seq<Seq<bool>>,
    d: Seq<bool>,
    x: Option<usize>,
    y: Option<usize>,
)
    requires
        a.table_ok(t, d),
        a.valid_ext(x),
        a.valid_ext(y),
    ensures
        is_marked(t, d, x, y) == is_marked(t, d, y, x),
{
    if let (Some(p), Some(q)) = (x, y) {
        assert(t[p as int][q as int] == t[q as int][p as int]);
    }
}

pub proof fn lemma_marked_diagonal(a: &Automaton, t: Seq<Seq<bool>>, d: Seq<bool>, x: Option<usize>)
    requires
        a.table_ok(t, d),
        a.valid_ext(x),
    ensures
        !is_marked(t, d, x, x),
{
    if let Some(p) = x {
        assert(!t[p as int][p as int]);
    }
}

/// One step of a run from the front.
pub proof fn lemma_ext_run_prepend(a: &Automaton, x: Option<usize>, c: char, w: Seq<char>)
    ensures
        a.ext_run(x, seq![c] + w) == a.ext_run(a.ext_succ(x, c), w),
    decreases w.len(),
{
    if let Some(p) = x {
        if w.len() == 0 {
            assert((seq![c] + w).drop_last() == Seq::<char>::empty());
            assert(a.run(p as int, Seq::<char>::empty()) == Some(p));
        } else {
            lemma_ext_run_prepend(a, x, c, w.drop_last());
            assert((seq![c] + w).drop_last() == seq![c] + w.drop_last());
        }
    }
}

/// One step of a run from the back.
pub proof fn lemma_ext_run_step(a: &Automaton, x: Option<usize>, w: Seq<char>)
    requires
        w.len() > 0,
    ensures
        a.ext_run(x, w) == a.ext_succ(a.ext_run(x, w.drop_last()), w.last()),
{
}

/// Runs of valid states stay valid.
pub proof fn lemma_ext_run_valid(a: &Automaton, x: Option<usize>, w: Seq<char>)
    requires
        a.wf(),
        a.valid_ext(x),
    ensures
        a.valid_ext(a.ext_run(x, w)),
{
    if let Some(p) = x {
        lemma_run_in_range(a, p as int, w);
    }
}

/// On a closed table, unmarked pairs accept the same words.
pub proof fn lemma_unmarked_equivalent(
    a: &Automaton,
    t: Seq<Seq<bool>>,
    d: Seq<bool>,
    x: Option<usize>,
    y: Option<usize>,
    w: Seq<char>,
)
    requires
        a.wf(),
        a.table_ok(t, d),
        a.table_closed(t, d),
        a.valid_ext(x),
        a.valid_ext(y),
        !is_marked(t, d, x, y),
    ensures
        !is_marked(t, d, a.ext_run(x, w), a.ext_run(y, w)),
        a.ext_accepts(x, w) == a.ext_accepts(y, w),
    decreases w.len(),
{
    lemma_ext_run_valid(a, x, w);
    lemma_ext_run_valid(a, y, w);
    if w.len() > 0 {
        let u = w.drop_last();
        let c = w.last();
        lemma_unmarked_equivalent(a, t, d, x, y, u);
        lemma_ext_run_valid(a, x, u);
        lemma_ext_run_valid(a, y, u);
        let xu = a.ext_run(x, u);
        let yu = a.ext_run(y, u);
        if !a.in_alphabet(c) {
            if let Some(p) = xu {
                lemma_no_successor_outside_alphabet(a, p as int, c);
            }
            if let Some(q) = yu {
                lemma_no_successor_outside_alphabet(a, q as int, c);
            }
        } else {
            assert(!is_marked(t, d, a.ext_succ(xu, c), a.ext_succ(yu, c)));
        }
    }
    let xw = a.ext_run(x, w);
    let yw = a.ext_run(y, w);
    assert(a.ext_run(xw, Seq::empty()) == xw) by {
        if let Some(p) = xw {
            assert(a.run(p as int, Seq::<char>::empty()) == Some(p));
        }
    }
    assert(a.ext_run(yw, Seq::empty()) == yw) by {
        if let Some(p) = yw {
            assert(a.run(p as int, Seq::<char>::empty()) == Some(p));
        }
    }
}

/// On a closed table, marked means told apart by some word.
pub proof fn lemma_marked_iff_inequivalent(
    a: &Automaton,
    t: Seq<Seq<bool>>,
    d: Seq<bool>,
    x: Option<usize>,
    y: Option<usize>,
)
    requires
        a.wf(),
        a.table_ok(t, d),
        a.table_closed(t, d),
        a.valid_ext(x),
        a.valid_ext(y),
    ensures
        is_marked(t, d, x, y) <==> !a.equivalent(x, y),
{
    if !is_marked(t, d, x, y) {
        assert forall|w: Seq<char>| #[trigger] a.ext_accepts(x, w) == a.ext_accepts(y, w) by {
            lemma_unmarked_equivalent(a, t, d, x, y, w);
        }
    }
}

/// Equivalent states step to equivalent states.
pub proof fn lemma_equivalent_step(a: &Automaton, x: Option<usize>, y: Option<usize>, c: char)
    requires
        a.equivalent(x, y),
    ensures
        a.equivalent(a.ext_succ(x, c), a.ext_succ(y, c)),
{
    assert forall|w: Seq<char>| #[trigger] a.ext_accepts(a.ext_succ(x, c), w) == a.ext_accepts(a.ext_succ(y, c), w) by {
        lemma_ext_run_prepend(a, x, c, w);
        lemma_ext_run_prepend(a, y, c, w);
        assert(a.ext_accepts(x, seq![c] + w) == a.ext_accepts(y, seq![c] + w));
    }
}

/// Equivalent states agree on acceptance.
pub proof fn lemma_equivalent_accepting(a: &Automaton, x: Option<usize>, y: Option<usize>)
    requires
        a.equivalent(x, y),
    ensures
        a.ext_accepts(x, Seq::empty()) == a.ext_accepts(y, Seq::empty()),
        x matches Some(p) ==> a.ext_accepts(x, Seq::empty()) == a.accepting_at(p as int),
        y matches Some(q) ==> a.ext_accepts(y, Seq::empty()) == a.accepting_at(q as int),
{
    assert(a.ext_accepts(x, Seq::empty()) == a.ext_accepts(y, Seq::empty()));
    if let Some(p) = x {
        assert(a.run(p as int, Seq::<char>::empty()) == Some(p));
    }
    if let Some(q) = y {
        assert(a.run(q as int, Seq::<char>::empty()) == Some(q));
    }
}

pub proof fn lemma_equivalent_symmetric(a: &Automaton, x: Option<usize>, y: Option<usize>)
    requires
        a.equivalent(x, y),
    ensures
        a.equivalent(y, x),
{
    assert forall|w: Seq<char>| #[trigger] a.ext_accepts(y, w) == a.ext_accepts(x, w) by {
        assert(a.ext_accepts(x, w) == a.ext_accepts(y, w));
    }
}

pub proof fn lemma_equivalent_transitive(a: &Automaton, x: Option<usize>, y: Option<usize>, z: Option<usize>)
    requires
        a.equivalent(x, y),
        a.equivalent(y, z),
    ensures
        a.equivalent(x, z),
{
    assert forall|w: Seq<char>| #[trigger] a.ext_accepts(x, w) == a.ext_accepts(z, w) by {
        assert(a.ext_accepts(x, w) == a.ext_accepts(y, w));
        assert(a.ext_accepts(y, w) == a.ext_accepts(z, w));
    }
}

pub proof fn lemma_equivalent_reflexive(a: &Automaton, x: Option<usize>)
    ensures
        a.equivalent(x, x),
{
}

/// The rows of `t` as flag sequences.
pub open spec fn rows_of(t: Seq<Vec<bool>>) -> Seq<Seq<bool>> {
    t.map_values(|r: Vec<bool>| r@)
}

/// Whether the pair `(x, y)` is marked.
fn marked_at(t: &Vec<Vec<bool>>, d: &Vec<bool>, x: Option<usize>, y: Option<usize>) -> (r: bool)
    requires
        forall|p: int| 0 <= p < t@.len() ==> (#[trigger] t@[p])@.len() == t@.len(),
        d@.len() == t@.len(),
        x matches Some(p) ==> p < t@.len(),
        y matches Some(q) ==> q < t@.len(),
    ensures
        r == is_marked(rows_of(t@), d@, x, y),
{
    match (x, y) {
        (None, None) => false,
        (Some(p), None) => d[p],
        (None, Some(q)) => d[q],
        (Some(p), Some(q)) => t[p][q],
    }
}

impl Automaton {
    /// The table that marks exactly the pairs of which one is accepting and
    /// the other not, the dead state being non-accepting.
    fn initial_table(&self) -> (r: (Vec<Vec<bool>>, Vec<bool>))
        requires
            self.wf(),
        ensures
            self.table_ok(rows_of(r.0@), r.1@),
            forall|x: Option<usize>, y: Option<usize>|
                self.valid_ext(x) && self.valid_ext(y) ==> (#[trigger] is_marked(rows_of(r.0@), r.1@, x, y)
                    <==> self.ext_accepts(x, Seq::empty()) != self.ext_accepts(y, Seq::empty())),
    {
        let n = self.states.len();
        let mut t: Vec<Vec<bool>> = Vec::new();
        let mut d: Vec<bool> = Vec::new();
        let mut p: usize = 0;
        while p < n
            invariant
                n == self.num_states(),
                p <= n,
                t@.len() == p,
                d@.len() == p,
                forall|i: int| 0 <= i < p ==> d@[i] == self.accepting_at(i),
                forall|i: int| 0 <= i < p ==> (#[trigger] t@[i])@.len() == n,
                forall|i: int, j: int|
                    0 <= i < p && 0 <= j < n ==> #[trigger] t@[i]@[j] == (self.accepting_at(i)
                        != self.accepting_at(j)),
            decreases n - p,
        {
            let mut row: Vec<bool> = Vec::new();
            let ap = self.is_accepting(p);
            let mut q: usize = 0;
            while q < n
                invariant
                    n == self.num_states(),
                    p < n,
                    ap == self.accepting_at(p as int),
                    q <= n,
                    row@.len() == q,
                    forall|j: int| 0 <= j < q ==> row@[j] == (self.accepting_at(p as int) != self.accepting_at(j)),
                decreases n - q,
            {
                row.push(ap != self.is_accepting(q));
                q += 1;
            }
            t.push(row);
            d.push(ap);
            p += 1;
        }
        proof {
            let tv = rows_of(t@);
            assert forall|x: Option<usize>, y: Option<usize>|
                self.valid_ext(x) && self.valid_ext(y) implies (#[trigger] is_marked(tv, d@, x, y)
                    <==> self.ext_accepts(x, Seq::empty()) != self.ext_accepts(y, Seq::empty())) by {
                if let Some(p) = x {
                    assert(self.run(p as int, Seq::<char>::empty()) == Some(p));
                }
                if let Some(q) = y {
                    assert(self.run(q as int, Seq::<char>::empty()) == Some(q));
                }
                if let (Some(p), Some(q)) = (x, y) {
                    assert(tv[p as int] == t@[p as int]@);
                }
            }
            assert forall|x: Option<usize>, y: Option<usize>|
                self.valid_ext(x) && self.valid_ext(y) && #[trigger] is_marked(tv, d@, x, y)
                    implies !self.equivalent(x, y) by {
                assert(self.ext_accepts(x, Seq::empty()) != self.ext_accepts(y, Seq::empty()));
            }
            assert forall|i: int| 0 <= i < tv.len() implies (#[trigger] tv[i]).len() == self.num_states() by {
                assert(tv[i] == t@[i]@);
            }
            assert forall|i: int, j: int| 0 <= i < tv.len() && 0 <= j < tv.len() implies #[trigger] tv[i][j] == tv[j][i] by {
                assert(tv[i] == t@[i]@);
                assert(tv[j] == t@[j]@);
            }
            assert forall|i: int| 0 <= i < tv.len() implies !(#[trigger] tv[i])[i] by {
                assert(tv[i] == t@[i]@);
            }
        }
        (t, d)
    }

    /// The first unmarked pair, in the order `(1, 0), (2, 0), (2, 1), ...`
    /// and then each state with the dead state, that some symbol leads to a
    /// marked pair; `None` when there is none and the table is closed.
    fn find_distinguishable(&self, t: &Vec<Vec<bool>>, d: &Vec<bool>) -> (r: Option<(usize, Option<usize>)>)
        requires
            self.wf(),
            self.table_ok(rows_of(t@), d@),
        ensures
            r matches Some((p, y)) ==> p < self.num_states() && self.valid_ext(y) && y != Some(p)
                && !is_marked(rows_of(t@), d@, Some(p), y) && self.splits(rows_of(t@), d@, Some(p), y),
            r is None ==> self.table_closed(rows_of(t@), d@),
    {
        let n = self.states.len();
        let ghost tv = rows_of(t@);
        assert(forall|p: int| 0 <= p < t@.len() ==> (#[trigger] t@[p])@.len() == t@.len()) by {
            assert forall|p: int| 0 <= p < t@.len() implies (#[trigger] t@[p])@.len() == t@.len() by {
                assert(tv[p] == t@[p]@);
            }
        }
        let mut s1: usize = 0;
        while s1 < n
            invariant
                self.wf(),
                self.table_ok(tv, d@),
                tv == rows_of(t@),
                n == self.num_states(),
                forall|p: int| 0 <= p < t@.len() ==> (#[trigger] t@[p])@.len() == t@.len(),
                s1 <= n,
                forall|p: int, q: int|
                    0 <= q < p < s1 && !is_marked(tv, d@, Some(p as usize), Some(q as usize)) ==> !#[trigger] self.splits(
                        tv, d@, Some(p as usize), Some(q as usize)),
            decreases n - s1,
        {
            let mut s2: usize = 0;
            while s2 < s1
                invariant
                    self.wf(),
                    self.table_ok(tv, d@),
                    tv == rows_of(t@),
                    n == self.num_states(),
                    forall|p: int| 0 <= p < t@.len() ==> (#[trigger] t@[p])@.len() == t@.len(),
                    s1 < n,
                    s2 <= s1,
                    forall|p: int, q: int|
                        0 <= q < p < s1 && !is_marked(tv, d@, Some(p as usize), Some(q as usize)) ==> !#[trigger] self.splits(
                            tv, d@, Some(p as usize), Some(q as usize)),
                    forall|q: int|
                        0 <= q < s2 && !is_marked(tv, d@, Some(s1), Some(q as usize)) ==> !#[trigger] self.splits(
                            tv, d@, Some(s1), Some(q as usize)),
                decreases s1 - s2,
            {
                if !marked_at(t, d, Some(s1), Some(s2)) && self.pair_splits(t, d, Some(s1), Some(s2)) {
                    return Some((s1, Some(s2)));
                }
                s2 += 1;
            }
            s1 += 1;
        }
        let mut s2: usize = 0;
        while s2 < n
            invariant
                self.wf(),
                self.table_ok(tv, d@),
                tv == rows_of(t@),
                n == self.num_states(),
                forall|p: int| 0 <= p < t@.len() ==> (#[trigger] t@[p])@.len() == t@.len(),
                s2 <= n,
                forall|p: int, q: int|
                    0 <= q < p < n && !is_marked(tv, d@, Some(p as usize), Some(q as usize)) ==> !#[trigger] self.splits(
                        tv, d@, Some(p as usize), Some(q as usize)),
                forall|q: int|
                    0 <= q < s2 && !is_marked(tv, d@, Some(q as usize), None) ==> !#[trigger] self.splits(
                        tv, d@, Some(q as usize), None),
            decreases n - s2,
        {
            if !marked_at(t, d, Some(s2), None) && self.pair_splits(t, d, Some(s2), None) {
                return Some((s2, None));
            }
            s2 += 1;
        }
        proof {
            assert forall|x: Option<usize>, y: Option<usize>, c: char|
                self.valid_ext(x) && self.valid_ext(y) && self.in_alphabet(c) && !is_marked(tv, d@, x, y)
                    implies !#[trigger] is_marked(tv, d@, self.ext_succ(x, c), self.ext_succ(y, c)) by {
                if let Some(p) = x {
                    lemma_successor_in_range(self, p as int, c);
                }
                if let Some(q) = y {
                    lemma_successor_in_range(self, q as int, c);
                }
                lemma_marked_symmetric(self, tv, d@, x, y);
                lemma_marked_symmetric(self, tv, d@, self.ext_succ(x, c), self.ext_succ(y, c));
                if x == y {
                    lemma_marked_diagonal(self, tv, d@, self.ext_succ(x, c));
                } else {
                    match (x, y) {
                        (Some(p), Some(q)) => {
                            if q < p {
                                assert(!self.splits(tv, d@, x, y));
                            } else {
                                assert(!self.splits(tv, d@, y, x));
                            }
                        },
                        (Some(p), None) => {
                            assert(!self.splits(tv, d@, x, y));
                        },
                        (None, Some(q)) => {
                            assert(!self.splits(tv, d@, y, x));
                        },
                        (None, None) => {},
                    }
                }
            }
        }
        None
    }

    /// The marking table at its fixpoint: starting from the pairs that
    /// acceptance tells apart, marks the first unmarked pair that some
    /// symbol leads to a marked pair and scans again, until a scan finds
    /// none.
    pub fn get_marked_states_table(&self) -> (r: (Vec<Vec<bool>>, Vec<bool>))
        requires
            self.wf(),
        ensures
            self.table_ok(rows_of(r.0@), r.1@),
            self.table_closed(rows_of(r.0@), r.1@),
            forall|x: Option<usize>, y: Option<usize>|
                self.valid_ext(x) && self.valid_ext(y) ==> (#[trigger] is_marked(rows_of(r.0@), r.1@, x, y)
                    <==> !self.equivalent(x, y)),
    {
        let n = self.states.len();
        let (mut t, mut d) = self.initial_table();
        proof {
            lemma_count_rows_bound(rows_of(t@), n as nat);
            lemma_count_true_bound(d@);
        }
        loop
            invariant
                self.wf(),
                n == self.num_states(),
                self.table_ok(rows_of(t@), d@),
                count_rows(rows_of(t@)) <= n * n,
                count_true(d@) <= n,
            ensures
                self.table_ok(rows_of(t@), d@),
                self.table_closed(rows_of(t@), d@),
            decreases n * n + n - count_rows(rows_of(t@)) - count_true(d@),
        {
            match self.find_distinguishable(&t, &d) {
                None => {
                    break;
                },
                Some((p, y)) => {
                    let ghost t0 = rows_of(t@);
                    let ghost d0 = d@;
                    proof {
                        let c = choose|c: char| self.in_alphabet(c) && #[trigger] is_marked(t0, d0, self.ext_succ(Some(p), c), self.ext_succ(y, c));
                        lemma_successor_in_range(self, p as int, c);
                        if let Some(q) = y {
                            lemma_successor_in_range(self, q as int, c);
                        }
                        let x1 = self.ext_succ(Some(p), c);
                        let y1 = self.ext_succ(y, c);
                        assert(!self.equivalent(x1, y1));
                        let w = choose|w: Seq<char>| #[trigger] self.ext_accepts(x1, w) != self.ext_accepts(y1, w);
                        lemma_ext_run_prepend(self, Some(p), c, w);
                        lemma_ext_run_prepend(self, y, c, w);
                        assert(self.ext_accepts(Some(p), seq![c] + w) != self.ext_accepts(y, seq![c] + w));
                        assert(!self.equivalent(Some(p), y));
                        assert(!self.equivalent(y, Some(p)));
                    }
                    match y {
                        Some(q) => {
                            proof {
                                assert(t0[p as int] == t@[p as int]@);
                                assert(t0[q as int] == t@[q as int]@);
                                lemma_count_true_set(t0[p as int], q as int);
                            }
                            t[p].set(q, true);
                            proof {
                                let t1 = rows_of(t@);
                                assert(t1 == t0.update(p as int, t0[p as int].update(q as int, true)));
                                lemma_count_rows_update(t0, p as int, t0[p as int].update(q as int, true));
                                assert(t1[q as int] == t0[q as int]);
                                lemma_count_true_set(t1[q as int], p as int);
                            }
                            let ghost t1 = rows_of(t@);
                            t[q].set(p, true);
                            proof {
                                let t2 = rows_of(t@);
                                assert(t2 == t1.update(q as int, t1[q as int].update(p as int, true)));
                                lemma_count_rows_update(t1, q as int, t1[q as int].update(p as int, true));
                                lemma_count_rows_bound(t2, n as nat);
                            }
                        },
                        None => {
                            proof {
                                lemma_count_true_set(d@, p as int);
                            }
                            d.set(p, true);
                            proof {
                                lemma_count_true_bound(d@);
                                assert(rows_of(t@) == t0);
                            }
                        },
                    }
                    proof {
                        let t2 = rows_of(t@);
                        assert forall|i: int| 0 <= i < t2.len() implies (#[trigger] t2[i]).len() == self.num_states() by {
                            assert(t0[i].len() == self.num_states());
                        }
                        assert forall|i: int, j: int| 0 <= i < t2.len() && 0 <= j < t2.len() implies #[trigger] t2[i][j] == t2[j][i] by {
                            assert(t0[i][j] == t0[j][i]);
                        }
                        assert forall|i: int| 0 <= i < t2.len() implies !(#[trigger] t2[i])[i] by {
                            assert(!t0[i][i]);
                        }
                        assert forall|x: Option<usize>, y2: Option<usize>|
                            self.valid_ext(x) && self.valid_ext(y2) && self.ext_accepts(x, Seq::empty())
                                != self.ext_accepts(y2, Seq::empty()) implies #[trigger] is_marked(t2, d@, x, y2) by {
                            assert(is_marked(t0, d0, x, y2));
                        }
                        assert forall|x: Option<usize>, y2: Option<usize>|
                            self.valid_ext(x) && self.valid_ext(y2) && #[trigger] is_marked(t2, d@, x, y2)
                                implies !self.equivalent(x, y2) by {
                            if !is_marked(t0, d0, x, y2) {
                                assert((x == Some(p) && y2 == y) || (x == y && y2 == Some(p)));
                            }
                        }
                    }
                },
            }
        }
        assert forall|x: Option<usize>, y: Option<usize>|
            self.valid_ext(x) && self.valid_ext(y) implies (#[trigger] is_marked(rows_of(t@), d@, x, y)
                <==> !self.equivalent(x, y)) by {
            lemma_marked_iff_inequivalent(self, rows_of(t@), d@, x, y);
        }
        (t, d)
    }

    /// For each pair of states, whether they are equivalent: the unmarked
    /// pairs of the table at its fixpoint.
    pub fn get_equivalent_states(&self) -> (r: Vec<Vec<bool>>)
        requires
            self.wf(),
        ensures
            r@.len() == self.num_states(),
            forall|p: int| 0 <= p < self.num_states() ==> (#[trigger] r@[p])@.len() == self.num_states(),
            forall|p: int, q: int|
                0 <= p < self.num_states() && 0 <= q < self.num_states() ==> (#[trigger] r@[p]@[q]
                    <==> self.equivalent(Some(p as usize), Some(q as usize))),
    {
        let (marked, dead) = self.get_marked_states_table();
        let ghost tv = rows_of(marked@);
        let n = self.states.len();
        let mut r: Vec<Vec<bool>> = Vec::new();
        let mut s1: usize = 0;
        while s1 < n
            invariant
                self.wf(),
                n == self.num_states(),
                tv == rows_of(marked@),
                self.table_ok(tv, dead@),
                self.table_closed(tv, dead@),
                s1 <= n,
                r@.len() == s1,
                forall|p: int| 0 <= p < s1 ==> (#[trigger] r@[p])@.len() == n,
                forall|p: int, q: int|
                    0 <= p < s1 && 0 <= q < n ==> (#[trigger] r@[p]@[q] <==> self.equivalent(
                        Some(p as usize),
                        Some(q as usize),
                    )),
            decreases n - s1,
        {
            let mut row: Vec<bool> = Vec::new();
            let mut s2: usize = 0;
            assert(tv[s1 as int] == marked@[s1 as int]@);
            while s2 < n
                invariant
                    self.wf(),
                    n == self.num_states(),
                    tv == rows_of(marked@),
                    self.table_ok(tv, dead@),
                    self.table_closed(tv, dead@),
                    s1 < n,
                    s2 <= n,
                    tv[s1 as int] == marked@[s1 as int]@,
                    row@.len() == s2,
                    forall|q: int|
                        0 <= q < s2 ==> (#[trigger] row@[q] <==> self.equivalent(Some(s1), Some(q as usize))),
                decreases n - s2,
            {
                proof {
                    lemma_marked_iff_inequivalent(self, tv, dead@, Some(s1), Some(s2));
                }
                row.push(!marked[s1][s2]);
                s2 += 1;
            }
            r.push(row);
            s1 += 1;
        }
        r
    }

    /// Some symbol of the alphabet leads `x` and `y` to a marked pair.
    pub open spec fn splits(&self, t: Seq<Seq<bool>>, d: Seq<bool>, x: Option<usize>, y: Option<usize>) -> bool {
        exists|c: char| self.in_alphabet(c) && #[trigger] is_marked(t, d, self.ext_succ(x, c), self.ext_succ(y, c))
    }

    fn ext_traverse(&self, x: Option<usize>, c: char) -> (r: Option<usize>)
        requires
            self.wf(),
            self.valid_ext(x),
        ensures
            r == self.ext_succ(x, c),
            self.valid_ext(r),
    {
        match x {
            None => None,
            Some(p) => {
                proof {
                    lemma_successor_in_range(self, p as int, c);
                }
                self.traverse_from(p, c)
            },
        }
    }

    /// Whether some symbol leads `x` and `y` to a marked pair.
    fn pair_splits(&self, t: &Vec<Vec<bool>>, d: &Vec<bool>, x: Option<usize>, y: Option<usize>) -> (r: bool)
        requires
            self.wf(),
            self.table_ok(rows_of(t@), d@),
            self.valid_ext(x),
            self.valid_ext(y),
        ensures
            r == self.splits(rows_of(t@), d@, x, y),
    {
        let mut k: usize = 0;
        while k < self.alphabet.len()
            invariant
                self.wf(),
                self.table_ok(rows_of(t@), d@),
                self.valid_ext(x),
                self.valid_ext(y),
                k <= self.alphabet@.len(),
                forall|c: char| #[trigger] self.alphabet@.take(k as int).contains(c) ==> !is_marked(
                    rows_of(t@), d@, self.ext_succ(x, c), self.ext_succ(y, c)),
            decreases self.alphabet@.len() - k,
        {
            let c = self.alphabet[k];
            let sx = self.ext_traverse(x, c);
            let sy = self.ext_traverse(y, c);
            assert(forall|p: int| 0 <= p < t@.len() ==> (#[trigger] t@[p])@.len() == t@.len()) by {
                assert forall|p: int| 0 <= p < t@.len() implies (#[trigger] t@[p])@.len() == t@.len() by {
                    assert(rows_of(t@)[p] == t@[p]@);
                }
            }
            if marked_at(t, d, sx, sy) {
                assert(self.alphabet@.contains(c)) by {
                    assert(self.alphabet@[k as int] == c);
                }
                return true;
            }
            assert forall|c2: char| #[trigger] self.alphabet@.take(k + 1).contains(c2) implies !is_marked(
                rows_of(t@), d@, self.ext_succ(x, c2), self.ext_succ(y, c2)) by {
                crate::lemmas::lemma_take_succ_contains(self.alphabet@, k as int, c2);
            }
            k += 1;
        }
        assert(self.alphabet@.take(k as int) == self.alphabet@);
        false
    }
}

impl Automaton {
    /// `class_of` numbers the equivalence classes of the states, `reps[k]`
    /// being a member of class `k`.
    pub open spec fn classes_ok(&self, class_of: Seq<usize>, reps: Seq<usize>) -> bool {
        &&& class_of.len() == self.num_states()
        &&& reps.len() <= self.num_states()
        &&& forall|k: int| 0 <= k < reps.len() ==> (#[trigger] reps[k]) < self.num_states()
        &&& forall|q: int| 0 <= q < class_of.len() ==> (#[trigger] class_of[q]) < reps.len()
        &&& forall|q: int, k: int|
            #![trigger class_of[q], reps[k]]
            0 <= q < class_of.len() && 0 <= k < reps.len() ==> (class_of[q] == k <==> self.equivalent(
                Some(reps[k]),
                Some(q as usize),
            ))
    }

    /// Every member of class `k` has a successor on `c`, and all of them
    /// lie in class `k2`.
    pub open spec fn lifted(&self, class_of: Seq<usize>, k: int, c: char, k2: int) -> bool {
        forall|q: int|
            0 <= q < class_of.len() && class_of[q] == k ==> (#[trigger] self.successor(q, c) matches Some(
                t,
            ) && t < class_of.len() && class_of[t as int] == k2)
    }

    /// The members of class `k` below `n` all have a successor on `c` in
    /// class `k2`.
    pub open spec fn lifted_upto(&self, class_of: Seq<usize>, k: int, c: char, k2: int, n: int) -> bool {
        forall|q: int|
            0 <= q < n && class_of[q] == k ==> (#[trigger] self.successor(q, c) matches Some(t) && t
                < class_of.len() && class_of[t as int] == k2)
    }

    /// Numbers the equivalence classes in the order of their first member.
    fn assign_classes(&self, eq: &Vec<Vec<bool>>) -> (r: (Vec<usize>, Vec<usize>))
        requires
            self.wf(),
            eq@.len() == self.num_states(),
            forall|p: int| 0 <= p < self.num_states() ==> (#[trigger] eq@[p])@.len() == self.num_states(),
            forall|p: int, q: int|
                0 <= p < self.num_states() && 0 <= q < self.num_states() ==> (#[trigger] eq@[p]@[q]
                    <==> self.equivalent(Some(p as usize), Some(q as usize))),
        ensures
            self.classes_ok(r.0@, r.1@),
    {
        let n = self.states.len();
        let mut class_of: Vec<usize> = Vec::new();
        let mut assigned: Vec<bool> = Vec::new();
        let mut i: usize = 0;
        while i < n
            invariant
                i <= n,
                class_of@.len() == i,
                assigned@.len() == i,
                forall|q: int| 0 <= q < i ==> !assigned@[q],
            decreases n - i,
        {
            class_of.push(0);
            assigned.push(false);
            i += 1;
        }
        let mut reps: Vec<usize> = Vec::new();
        let mut s1: usize = 0;
        while s1 < n
            invariant
                self.wf(),
                n == self.num_states(),
                eq@.len() == n,
                forall|p: int| 0 <= p < n ==> (#[trigger] eq@[p])@.len() == n,
                forall|p: int, q: int|
                    0 <= p < n && 0 <= q < n ==> (#[trigger] eq@[p]@[q] <==> self.equivalent(
                        Some(p as usize),
                        Some(q as usize),
                    )),
                s1 <= n,
                class_of@.len() == n,
                assigned@.len() == n,
                reps@.len() <= s1,
                forall|k: int| 0 <= k < reps@.len() ==> (#[trigger] reps@[k]) < s1,
                forall|q: int| 0 <= q < s1 ==> #[trigger] assigned@[q],
                forall|q: int| 0 <= q < n && #[trigger] assigned@[q] ==> class_of@[q] < reps@.len(),
                forall|q: int, k: int|
                    #![trigger assigned@[q], reps@[k]]
                    0 <= q < n && 0 <= k < reps@.len() ==> (assigned@[q] ==> (class_of@[q] == k
                        <==> self.equivalent(Some(reps@[k]), Some(q as usize)))),
                forall|q: int, k: int|
                    #![trigger assigned@[q], reps@[k]]
                    0 <= q < n && 0 <= k < reps@.len() && !assigned@[q] ==> !self.equivalent(
                        Some(reps@[k]),
                        Some(q as usize),
                    ),
            decreases n - s1,
        {
            if !assigned[s1] {
                let k = reps.len();
                reps.push(s1);
                let ghost assigned0 = assigned@;
                let ghost class0 = class_of@;
                proof {
                    assert forall|q: int| 0 <= q < n && self.equivalent(Some(s1), Some(q as usize)) implies !assigned0[q] by {
                        if assigned0[q] {
                            let k0 = class0[q] as int;
                            assert(self.equivalent(Some(reps@[k0]), Some(q as usize)));
                            lemma_equivalent_symmetric(self, Some(s1), Some(q as usize));
                            lemma_equivalent_transitive(self, Some(reps@[k0]), Some(q as usize), Some(s1));
                            assert(assigned0[s1 as int] || !self.equivalent(Some(reps@[k0]), Some(s1)));
                        }
                    }
                }
                let mut s2: usize = 0;
                while s2 < n
                    invariant
                        self.wf(),
                        n == self.num_states(),
                        eq@.len() == n,
                        forall|p: int| 0 <= p < n ==> (#[trigger] eq@[p])@.len() == n,
                        forall|p: int, q: int|
                            0 <= p < n && 0 <= q < n ==> (#[trigger] eq@[p]@[q] <==> self.equivalent(
                                Some(p as usize),
                                Some(q as usize),
                            )),
                        s1 < n,
                        s2 <= n,
                        k == reps@.len() - 1,
                        reps@[k as int] == s1,
                        class_of@.len() == n,
                        assigned@.len() == n,
                        forall|q: int|
                            0 <= q < n ==> #[trigger] assigned@[q] == (assigned0[q] || (q < s2
                                && self.equivalent(Some(s1), Some(q as usize)))),
                        forall|q: int|
                            0 <= q < n ==> #[trigger] class_of@[q] == (if q < s2 && self.equivalent(
                                Some(s1),
                                Some(q as usize),
                            ) {
                                k
                            } else {
                                class0[q]
                            }),
                    decreases n - s2,
                {
                    if eq[s1][s2] {
                        class_of.set(s2, k);
                        assigned.set(s2, true);
                    }
                    s2 += 1;
                }
                proof {
                    lemma_equivalent_reflexive(self, Some(s1));
                    assert forall|q: int, k2: int|
                        #![trigger assigned@[q], reps@[k2]]
                        0 <= q < n && 0 <= k2 < reps@.len() && assigned@[q] implies (class_of@[q] == k2
                            <==> self.equivalent(Some(reps@[k2]), Some(q as usize))) by {
                        {
                            if assigned0[q] {
                                assert(!self.equivalent(Some(s1), Some(q as usize)));
                                if k2 < k {
                                    assert(assigned0[q] ==> (class0[q] == k2 <==> self.equivalent(Some(reps@[k2]), Some(q as usize))));
                                }
                            }
                        }
                    }
                    assert forall|q: int, k2: int|
                        #![trigger assigned@[q], reps@[k2]]
                        0 <= q < n && 0 <= k2 < reps@.len() && !assigned@[q] implies !self.equivalent(
                            Some(reps@[k2]),
                            Some(q as usize),
                        ) by {
                        if k2 < k {
                            assert(!assigned0[q]);
                        }
                    }
                    assert forall|q: int| 0 <= q < n && #[trigger] assigned@[q] implies class_of@[q] < reps@.len() by {
                        if assigned0[q] && !(q < n && self.equivalent(Some(s1), Some(q as usize))) {
                            assert(class0[q] < k);
                        }
                    }
                }
            }
            s1 += 1;
        }
        proof {
            assert forall|q: int, k: int|
                #![trigger class_of@[q], reps@[k]]
                0 <= q < class_of@.len() && 0 <= k < reps@.len() implies (class_of@[q] == k <==> self.equivalent(
                    Some(reps@[k]),
                    Some(q as usize),
                )) by {
                assert(assigned@[q]);
            }
            assert forall|q: int| 0 <= q < class_of@.len() implies (#[trigger] class_of@[q]) < reps@.len() by {
                assert(assigned@[q]);
            }
        }
        (class_of, reps)
    }
}

impl Automaton {
    /// The class that every member of class `k` reaches on `c`, when there
    /// is one.
    fn lift_class(&self, class_of: &Vec<usize>, k: usize, rep: usize, c: char) -> (r: Option<usize>)
        requires
            self.wf(),
            class_of@.len() == self.num_states(),
            rep < self.num_states(),
            class_of@[rep as int] == k,
        ensures
            r matches Some(k2) ==> self.lifted(class_of@, k as int, c, k2 as int),
            r is None ==> forall|k2: int| !#[trigger] self.lifted(class_of@, k as int, c, k2),
    {
        let n = self.states.len();
        let mut ok = true;
        let mut target: Option<usize> = None;
        let ghost mut first: int = 0;
        let mut q: usize = 0;
        while q < n
            invariant
                self.wf(),
                n == self.num_states(),
                class_of@.len() == n,
                q <= n,
                ok && target is None ==> forall|q1: int| 0 <= q1 < q ==> class_of@[q1] != k,
                ok ==> (target matches Some(k2) ==> self.lifted_upto(class_of@, k as int, c, k2 as int, q as int)),
                ok ==> (target matches Some(k2) ==> (0 <= first < q && class_of@[first] == k
                    && (self.successor(first, c) matches Some(t) && t < n && class_of@[t as int] == k2))),
                !ok ==> forall|k2: int| !#[trigger] self.lifted_upto(class_of@, k as int, c, k2, q as int),
            decreases n - q,
        {
            if ok && class_of[q] == k {
                proof {
                    lemma_successor_in_range(self, q as int, c);
                }
                match self.traverse_from(q, c) {
                    None => {
                        ok = false;
                        assert forall|k2: int| !#[trigger] self.lifted_upto(class_of@, k as int, c, k2, q + 1) by {
                            assert(self.successor(q as int, c) is None);
                        }
                    },
                    Some(t) => {
                        let ct = class_of[t];
                        match target {
                            None => {
                                target = Some(ct);
                                proof {
                                    first = q as int;
                                }
                            },
                            Some(k2) => {
                                if ct != k2 {
                                    ok = false;
                                    assert forall|k3: int| !#[trigger] self.lifted_upto(class_of@, k as int, c, k3, q + 1) by {
                                        if self.lifted_upto(class_of@, k as int, c, k3, q + 1) {
                                            assert(self.successor(q as int, c) matches Some(t1) && class_of@[t1 as int] == k3);
                                            assert(self.successor(first, c) matches Some(t1) && class_of@[t1 as int] == k3);
                                        }
                                    }
                                }
                            },
                        }
                    },
                }
            } else if !ok {
                assert forall|k2: int| !#[trigger] self.lifted_upto(class_of@, k as int, c, k2, q + 1) by {
                    if self.lifted_upto(class_of@, k as int, c, k2, q + 1) {
                        assert(self.lifted_upto(class_of@, k as int, c, k2, q as int));
                    }
                }
            }
            q += 1;
        }
        if ok {
            match target {
                Some(k2) => {
                    assert(self.lifted(class_of@, k as int, c, k2 as int)) by {
                        assert forall|q1: int| 0 <= q1 < class_of@.len() && class_of@[q1] == k implies (#[trigger] self.successor(q1, c) matches Some(
                            t,
                        ) && t < class_of@.len() && class_of@[t as int] == k2) by {
                            assert(self.lifted_upto(class_of@, k as int, c, k2 as int, n as int));
                        }
                    }
                    Some(k2)
                },
                None => {
                    assert(class_of@[rep as int] != k);
                    None
                },
            }
        } else {
            assert forall|k2: int| !#[trigger] self.lifted(class_of@, k as int, c, k2) by {
                if self.lifted(class_of@, k as int, c, k2) {
                    assert(self.lifted_upto(class_of@, k as int, c, k2, n as int));
                }
            }
            None
        }
    }

    /// Whether every member of class `k` is accepting.
    fn class_accepting(&self, class_of: &Vec<usize>, k: usize) -> (r: bool)
        requires
            class_of@.len() == self.num_states(),
        ensures
            r == forall|q: int| 0 <= q < class_of@.len() && class_of@[q] == k ==> #[trigger] self.accepting_at(q),
    {
        let mut q: usize = 0;
        while q < class_of.len()
            invariant
                class_of@.len() == self.num_states(),
                q <= class_of@.len(),
                forall|q1: int| 0 <= q1 < q && class_of@[q1] == k ==> #[trigger] self.accepting_at(q1),
            decreases class_of@.len() - q,
        {
            if class_of[q] == k && !self.is_accepting(q) {
                return false;
            }
            q += 1;
        }
        true
    }
}

/// On `c`, class `k` of `m` goes to the class that all its members reach,
/// or nowhere when there is no such class.
pub open spec fn quotient_edge_ok(a: &Automaton, m: &Automaton, class_of: Seq<usize>, reps: Seq<usize>, k: int, c: char) -> bool {
    match m.successor(k, c) {
        Some(k2) => k2 < reps.len() && a.lifted(class_of, k, c, k2 as int),
        None => forall|k2: int| !#[trigger] a.lifted(class_of, k, c, k2),
    }
}

/// `m` is the quotient of `a` by the classes `class_of`.
pub open spec fn quotient_ok(a: &Automaton, m: &Automaton, class_of: Seq<usize>, reps: Seq<usize>) -> bool {
    &&& a.classes_ok(class_of, reps)
    &&& m.num_states() == reps.len()
    &&& forall|k: int, c: char|
        0 <= k < reps.len() ==> #[trigger] quotient_edge_ok(a, m, class_of, reps, k, c)
    &&& forall|k: int|
        0 <= k < reps.len() ==> #[trigger] m.accepting_at(k) == a.accepting_at(reps[k] as int)
}

/// How a state of `a` and a state of its quotient `m` correspond: a state
/// that the dead state does not match sits in its class; otherwise the
/// quotient is stuck or in a class that matches the dead state.
pub open spec fn quotient_rel(
    a: &Automaton,
    class_of: Seq<usize>,
    reps: Seq<usize>,
    x: Option<usize>,
    y: Option<usize>,
) -> bool {
    if x is Some && !a.equivalent(x, None) {
        y == Some(class_of[x->0 as int])
    } else {
        y is None || (y matches Some(k) && k < reps.len() && a.equivalent(Some(reps[k as int]), None))
    }
}

/// Reading a word keeps the correspondence.
pub proof fn lemma_quotient_run(
    a: &Automaton,
    m: &Automaton,
    class_of: Seq<usize>,
    reps: Seq<usize>,
    s: usize,
    w: Seq<char>,
)
    requires
        a.wf(),
        m.wf(),
        a.num_states() <= usize::MAX,
        quotient_ok(a, m, class_of, reps),
        s < a.num_states(),
    ensures
        quotient_rel(a, class_of, reps, a.ext_run(Some(s), w), m.ext_run(Some(class_of[s as int]), w)),
        a.valid_ext(a.ext_run(Some(s), w)),
    decreases w.len(),
{
    lemma_ext_run_valid(a, Some(s), w);
    let k0 = class_of[s as int];
    if w.len() == 0 {
        assert(a.run(s as int, w) == Some(s));
        assert(m.run(k0 as int, w) == Some(k0));
        assert(a.equivalent(Some(reps[k0 as int]), Some(s)));
        if a.equivalent(Some(s), None) {
            lemma_equivalent_transitive(a, Some(reps[k0 as int]), Some(s), None);
        }
    } else {
        let u = w.drop_last();
        let c = w.last();
        lemma_quotient_run(a, m, class_of, reps, s, u);
        lemma_ext_run_step(a, Some(s), w);
        lemma_ext_run_step(m, Some(k0), w);
        let x = a.ext_run(Some(s), u);
        let y = m.ext_run(Some(k0), u);
        let x1 = a.ext_succ(x, c);
        let y1 = m.ext_succ(y, c);
        if let Some(p) = x {
            lemma_successor_in_range(a, p as int, c);
        }
        if x is Some && !a.equivalent(x, None) {
            let p = x->0;
            let k = class_of[p as int];
            assert(y == Some(k));
            assert(quotient_edge_ok(a, m, class_of, reps, k as int, c));
            assert(a.equivalent(Some(reps[k as int]), Some(p)));
            if x1 is Some && !a.equivalent(x1, None) {
                let t = x1->0;
                let kt = class_of[t as int];
                assert(a.equivalent(Some(reps[kt as int]), Some(t)));
                assert(a.lifted(class_of, k as int, c, kt as int)) by {
                    assert forall|q: int| 0 <= q < class_of.len() && class_of[q] == k implies (#[trigger] a.successor(q, c) matches Some(
                        t2,
                    ) && t2 < class_of.len() && class_of[t2 as int] == kt) by {
                        assert(a.equivalent(Some(reps[k as int]), Some(q as usize)));
                        lemma_equivalent_symmetric(a, Some(reps[k as int]), Some(p));
                        lemma_equivalent_transitive(a, Some(p), Some(reps[k as int]), Some(q as usize));
                        lemma_equivalent_step(a, Some(p), Some(q as usize), c);
                        lemma_successor_in_range(a, q, c);
                        assert(a.ext_succ(Some(q as usize), c) == a.successor(q, c));
                        if a.successor(q, c) is None {
                            assert(a.equivalent(x1, None));
                        } else {
                            let t2 = a.successor(q, c)->0;
                            lemma_equivalent_transitive(a, Some(reps[kt as int]), Some(t), Some(t2));
                        }
                    }
                }
            } else {
                if let Some(k2) = y1 {
                    assert(a.lifted(class_of, k as int, c, k2 as int));
                    let t = a.successor(p as int, c)->0;
                    assert(class_of[t as int] == k2);
                    assert(a.equivalent(Some(reps[k2 as int]), Some(t)));
                    lemma_equivalent_transitive(a, Some(reps[k2 as int]), Some(t), None);
                }
            }
        } else {
            if let Some(p) = x {
                lemma_equivalent_step(a, x, None, c);
            }
            if let Some(k) = y {
                assert(quotient_edge_ok(a, m, class_of, reps, k as int, c));
                if let Some(k2) = y1 {
                    let r = reps[k as int];
                    lemma_equivalent_reflexive(a, Some(r));
                    assert(class_of[r as int] == k);
                    assert(a.lifted(class_of, k as int, c, k2 as int));
                    lemma_successor_in_range(a, r as int, c);
                    let t = a.successor(r as int, c)->0;
                    assert(class_of[t as int] == k2);
                    lemma_equivalent_step(a, Some(r), None, c);
                    assert(a.equivalent(Some(reps[k2 as int]), Some(t)));
                    lemma_equivalent_transitive(a, Some(reps[k2 as int]), Some(t), None);
                }
            }
        }
    }
}

/// Corresponding states agree on acceptance.
pub proof fn lemma_quotient_accepting(
    a: &Automaton,
    m: &Automaton,
    class_of: Seq<usize>,
    reps: Seq<usize>,
    x: Option<usize>,
    y: Option<usize>,
)
    requires
        a.wf(),
        quotient_ok(a, m, class_of, reps),
        a.valid_ext(x),
        quotient_rel(a, class_of, reps, x, y),
    ensures
        a.ext_accepts(x, Seq::empty()) == m.ext_accepts(y, Seq::empty()),
{
    if let Some(k) = y {
        assert(m.run(k as int, Seq::<char>::empty()) == Some(k));
    }
    if x is Some && !a.equivalent(x, None) {
        let p = x->0;
        let k = class_of[p as int];
        assert(a.equivalent(Some(reps[k as int]), Some(p)));
        lemma_equivalent_accepting(a, Some(reps[k as int]), Some(p));
        assert(m.accepting_at(k as int) == a.accepting_at(reps[k as int] as int));
    } else {
        if x is Some {
            lemma_equivalent_accepting(a, x, None);
        }
        if let Some(k) = y {
            lemma_equivalent_accepting(a, Some(reps[k as int]), None);
            assert(m.accepting_at(k as int) == a.accepting_at(reps[k as int] as int));
        }
    }
}

/// Some state is mapped to `k`.
pub open spec fn class_nonempty(class_of: Seq<usize>, k: int) -> bool {
    exists|q: int| 0 <= q < class_of.len() && #[trigger] class_of[q] == k
}

/// `class_of` maps each state of `a` to the state of `r` that stands for
/// its class of equivalent states: every state of `r` stands for a
/// non-empty class, the start state for the start state's class, and a
/// state accepts when all members of its class do.
pub open spec fn quotient_by(a: &Automaton, r: &Automaton, class_of: Seq<usize>) -> bool {
    &&& class_of.len() == a.num_states()
    &&& forall|q: int| 0 <= q < class_of.len() ==> (#[trigger] class_of[q]) < r.num_states()
    &&& forall|p: int, q: int|
        0 <= p < class_of.len() && 0 <= q < class_of.len() ==> (#[trigger] class_of[p]
            == #[trigger] class_of[q] <==> a.equivalent(Some(p as usize), Some(q as usize)))
    &&& forall|k: int| 0 <= k < r.num_states() ==> #[trigger] class_nonempty(class_of, k)
    &&& a.start_state matches Some(s) ==> r.start_state == Some(class_of[s as int])
    &&& forall|k: int|
        0 <= k < r.num_states() ==> (#[trigger] r.accepting_at(k) <==> forall|q: int|
            0 <= q < class_of.len() && class_of[q] == k ==> a.accepting_at(q))
}

/// The minimal automaton of `automaton` read deterministically: one state
/// per class of equivalent states, in the order of the classes' first
/// members, accepting when all its members are; on a symbol, a class goes
/// to the class that all its members reach, when they all have a successor
/// and agree on its class.
pub fn dfa_to_minimized_dfa(automaton: &Automaton) -> (r: Automaton)
    requires
        automaton.wf(),
        automaton.start_state is Some,
    ensures
        r.wf(),
        r.kind == AutomatonKind::MinDfa,
        r.is_deterministic(),
        r.start_state is Some,
        r.num_states() <= automaton.num_states(),
        forall|w: Seq<char>| #[trigger] r.accepts(w) == automaton.accepts(w),
        forall|k1: usize, k2: usize|
            k1 < r.num_states() && k2 < r.num_states() && k1 != k2 ==> !#[trigger] r.equivalent(
                Some(k1),
                Some(k2),
            ),
        exists|class_of: Seq<usize>| #[trigger] quotient_by(automaton, &r, class_of),
{
    let a = automaton;
    let n = a.states.len();
    let eq = a.get_equivalent_states();
    let (class_of, reps) = a.assign_classes(&eq);
    let m = reps.len();
    let mut min = Automaton::new();
    let mut k: usize = 0;
    while k < m
        invariant
            a.wf(),
            min.wf(),
            n == a.num_states(),
            m == reps@.len(),
            a.classes_ok(class_of@, reps@),
            k <= m,
            min.num_states() == k,
            min.start_state is None,
            min.kind == AutomatonKind::Nfa,
            forall|k1: int| 0 <= k1 < k ==> #[trigger] min.accepting_at(k1) == a.accepting_at(reps@[k1] as int),
            forall|k1: int| 0 <= k1 < k ==> (#[trigger] min.out(k1)).len() == 0,
        decreases m - k,
    {
        let acc = a.class_accepting(&class_of, k);
        proof {
            let r = reps@[k as int];
            lemma_equivalent_reflexive(a, Some(r));
            assert(class_of@[r as int] == k);
            assert(acc == a.accepting_at(r as int)) by {
                assert forall|q: int| 0 <= q < class_of@.len() && class_of@[q] == k implies #[trigger] a.accepting_at(q) == a.accepting_at(r as int) by {
                    assert(a.equivalent(Some(r), Some(q as usize)));
                    lemma_equivalent_accepting(a, Some(r), Some(q as usize));
                }
            }
        }
        let ghost before = min;
        let id = min.add_state();
        min.set_accepting(id, acc);
        assert forall|k1: int| 0 <= k1 < k + 1 implies (#[trigger] min.out(k1)).len() == 0 by {
            assert(min.out(k1) == before.out(k1) || k1 == k);
        }
        k += 1;
    }
    let mut k: usize = 0;
    while k < m
        invariant
            a.wf(),
            min.wf(),
            n == a.num_states(),
            m == reps@.len(),
            a.classes_ok(class_of@, reps@),
            k <= m,
            min.num_states() == m,
            min.start_state is None,
            forall|k1: int| 0 <= k1 < m ==> #[trigger] min.accepting_at(k1) == a.accepting_at(reps@[k1] as int),
            forall|k1: int, c: char| 0 <= k1 < k ==> #[trigger] quotient_edge_ok(a, &min, class_of@, reps@, k1, c),
            forall|k1: int| 0 <= k1 < k ==> #[trigger] crate::determinize::deterministic_at(&min, k1),
            forall|k1: int| k <= k1 < m ==> (#[trigger] min.out(k1)).len() == 0,
        decreases m - k,
    {
        let rep = reps[k];
        proof {
            lemma_equivalent_reflexive(a, Some(rep));
        }
        let mut j: usize = 0;
        while j < a.alphabet.len()
            invariant
                a.wf(),
                min.wf(),
                n == a.num_states(),
                m == reps@.len(),
                a.classes_ok(class_of@, reps@),
                k < m,
                rep == reps@[k as int],
                class_of@[rep as int] == k,
                j <= a.alphabet@.len(),
                min.num_states() == m,
                min.start_state is None,
                forall|k1: int| 0 <= k1 < m ==> #[trigger] min.accepting_at(k1) == a.accepting_at(reps@[k1] as int),
                forall|k1: int, c: char| 0 <= k1 < k ==> #[trigger] quotient_edge_ok(a, &min, class_of@, reps@, k1, c),
                forall|k1: int| 0 <= k1 < k ==> #[trigger] crate::determinize::deterministic_at(&min, k1),
                forall|k1: int| k < k1 < m ==> (#[trigger] min.out(k1)).len() == 0,
                forall|c: char|
                    #[trigger] a.alphabet@.take(j as int).contains(c) ==> quotient_edge_ok(a, &min, class_of@, reps@, k as int, c),
                forall|c: char|
                    !#[trigger] a.alphabet@.take(j as int).contains(c) ==> first_target(min.out(k as int), c) is None,
                forall|i: int|
                    0 <= i < min.out(k as int).len() ==> ((#[trigger] min.out(k as int)[i]).atom matches Some(d)
                        && a.alphabet@.take(j as int).contains(d)),
                crate::determinize::deterministic_at(&min, k as int),
            decreases a.alphabet@.len() - j,
        {
            let c = a.alphabet[j];
            proof {
                assert(!a.alphabet@.take(j as int).contains(c)) by {
                    if a.alphabet@.take(j as int).contains(c) {
                        let i = choose|i: int| 0 <= i < a.alphabet@.take(j as int).len() && #[trigger] a.alphabet@.take(j as int)[i] == c;
                        assert(a.alphabet@[i] == a.alphabet@[j as int]);
                    }
                }
            }
            let target = a.lift_class(&class_of, k, rep, c);
            let ghost min1 = min;
            match target {
                Some(k2) => {
                    proof {
                        lemma_successor_in_range(a, rep as int, c);
                        assert(a.successor(rep as int, c) matches Some(t) && class_of@[t as int] == k2);
                    }
                    let e = Transition { atom: Some(c), from_state: k, to_state: k2 };
                    proof {
                        if min1.out(k as int).contains(e) {
                            let i = choose|i: int| 0 <= i < min1.out(k as int).len() && min1.out(k as int)[i] == e;
                            assert(min1.out(k as int)[i].atom == Some(c));
                        }
                    }
                    min.add_transition(k, k2, Some(c));
                    proof {
                        assert(min.out(k as int) == min1.out(k as int).push(e));
                        assert forall|k1: int, c2: char| 0 <= k1 < k implies #[trigger] quotient_edge_ok(a, &min, class_of@, reps@, k1, c2) by {
                            assert(min.out(k1) == min1.out(k1));
                            assert(quotient_edge_ok(a, &min1, class_of@, reps@, k1, c2));
                        }
                        assert forall|k1: int| 0 <= k1 < k implies #[trigger] crate::determinize::deterministic_at(&min, k1) by {
                            assert(min.out(k1) == min1.out(k1));
                            assert(crate::determinize::deterministic_at(&min1, k1));
                        }
                        assert forall|k1: int| k < k1 < m implies (#[trigger] min.out(k1)).len() == 0 by {
                            assert(min.out(k1) == min1.out(k1));
                        }
                        assert forall|c2: char|
                            #[trigger] a.alphabet@.take(j + 1).contains(c2) implies quotient_edge_ok(a, &min, class_of@, reps@, k as int, c2) by {
                            crate::lemmas::lemma_take_succ_contains(a.alphabet@, j as int, c2);
                            crate::product::lemma_first_target_push(min1.out(k as int), e, c2);
                        }
                        assert forall|c2: char|
                            !#[trigger] a.alphabet@.take(j + 1).contains(c2) implies first_target(min.out(k as int), c2) is None by {
                            crate::lemmas::lemma_take_succ_contains(a.alphabet@, j as int, c2);
                            crate::product::lemma_first_target_push(min1.out(k as int), e, c2);
                        }
                        assert forall|i: int|
                            0 <= i < min.out(k as int).len() implies ((#[trigger] min.out(k as int)[i]).atom matches Some(d)
                                && a.alphabet@.take(j + 1).contains(d)) by {
                            let d = min.out(k as int)[i].atom.unwrap();
                            crate::lemmas::lemma_take_succ_contains(a.alphabet@, j as int, d);
                        }
                        assert forall|i1: int, i2: int|
                            0 <= i1 < min.out(k as int).len() && 0 <= i2 < min.out(k as int).len() && i1 != i2 implies #[trigger] min.out(
                                k as int)[i1].atom != #[trigger] min.out(k as int)[i2].atom by {
                            let last = min1.out(k as int).len() as int;
                            if i1 == last {
                                assert(min1.out(k as int)[i2].atom matches Some(d) && a.alphabet@.take(j as int).contains(d));
                            } else if i2 == last {
                                assert(min1.out(k as int)[i1].atom matches Some(d) && a.alphabet@.take(j as int).contains(d));
                            } else {
                                assert(min1.out(k as int)[i1] == min.out(k as int)[i1]);
                                assert(min1.out(k as int)[i2] == min.out(k as int)[i2]);
                            }
                        }
                    }
                },
                None => {
                    proof {
                        assert forall|c2: char|
                            #[trigger] a.alphabet@.take(j + 1).contains(c2) implies quotient_edge_ok(a, &min, class_of@, reps@, k as int, c2) by {
                            crate::lemmas::lemma_take_succ_contains(a.alphabet@, j as int, c2);
                        }
                        assert forall|c2: char|
                            !#[trigger] a.alphabet@.take(j + 1).contains(c2) implies first_target(min.out(k as int), c2) is None by {
                            crate::lemmas::lemma_take_succ_contains(a.alphabet@, j as int, c2);
                        }
                        assert forall|i: int|
                            0 <= i < min.out(k as int).len() implies ((#[trigger] min.out(k as int)[i]).atom matches Some(d)
                                && a.alphabet@.take(j + 1).contains(d)) by {
                            let d = min.out(k as int)[i].atom.unwrap();
                            crate::lemmas::lemma_take_succ_contains(a.alphabet@, j as int, d);
                        }
                    }
                },
            }
            j += 1;
        }
        proof {
            assert(a.alphabet@.take(a.alphabet@.len() as int) == a.alphabet@);
            assert forall|c2: char| #[trigger] quotient_edge_ok(a, &min, class_of@, reps@, k as int, c2) by {
                if !a.alphabet@.contains(c2) {
                    lemma_no_successor_outside_alphabet(a, rep as int, c2);
                    assert forall|k2: int| !#[trigger] a.lifted(class_of@, k as int, c2, k2) by {
                        if a.lifted(class_of@, k as int, c2, k2) {
                            assert(a.successor(rep as int, c2) is Some);
                        }
                    }
                }
            }
        }
        k += 1;
    }
    let start = match a.start_state {
        Some(s) => s,
        None => 0,
    };
    let ghost before = min;
    min.set_start_state(class_of[start]);
    proof {
        assert forall|s1: int, i: int|
            0 <= s1 < min.num_states() && 0 <= i < min.out(s1).len() implies (#[trigger] min.out(s1)[i]).atom is Some by {
            assert(crate::determinize::deterministic_at(&before, s1));
        }
        assert forall|s1: int, i: int, j: int|
            0 <= s1 < min.num_states() && 0 <= i < min.out(s1).len() && 0 <= j < min.out(s1).len() && i != j
                implies #[trigger] min.out(s1)[i].atom != #[trigger] min.out(s1)[j].atom by {
            assert(crate::determinize::deterministic_at(&before, s1));
        }
    }
    let ghost before_kind = min;
    min.kind = AutomatonKind::MinDfa;
    proof {
        lemma_wf_frame(before_kind, min);
        assert forall|k1: int, c: char| 0 <= k1 < m implies #[trigger] quotient_edge_ok(a, &min, class_of@, reps@, k1, c) by {
            assert(quotient_edge_ok(a, &before, class_of@, reps@, k1, c));
        }
        assert forall|k1: int| 0 <= k1 < m implies #[trigger] min.accepting_at(k1) == a.accepting_at(reps@[k1] as int) by {
            assert(before.accepting_at(k1) == a.accepting_at(reps@[k1] as int));
        }
        assert(quotient_ok(a, &min, class_of@, reps@));
        assert forall|w: Seq<char>| #[trigger] min.accepts(w) == a.accepts(w) by {
            lemma_quotient_run(a, &min, class_of@, reps@, start, w);
            let x = a.ext_run(Some(start), w);
            let y = min.ext_run(Some(class_of@[start as int]), w);
            lemma_quotient_accepting(a, &min, class_of@, reps@, x, y);
            if let Some(t) = x {
                assert(a.run(t as int, Seq::<char>::empty()) == Some(t));
            }
            if let Some(t) = y {
                assert(min.run(t as int, Seq::<char>::empty()) == Some(t));
            }
        }
        let cls = class_of@;
        assert forall|p: int, q: int|
            0 <= p < cls.len() && 0 <= q < cls.len() implies (#[trigger] cls[p] == #[trigger] cls[q]
                <==> a.equivalent(Some(p as usize), Some(q as usize))) by {
            let kp = cls[p] as int;
            assert(a.equivalent(Some(reps@[kp]), Some(p as usize)));
            if cls[p] == cls[q] {
                assert(a.equivalent(Some(reps@[kp]), Some(q as usize)));
                lemma_equivalent_symmetric(a, Some(reps@[kp]), Some(p as usize));
                lemma_equivalent_transitive(a, Some(p as usize), Some(reps@[kp]), Some(q as usize));
            }
            if a.equivalent(Some(p as usize), Some(q as usize)) {
                lemma_equivalent_transitive(a, Some(reps@[kp]), Some(p as usize), Some(q as usize));
                assert(cls[q] == kp);
            }
        }
        assert forall|k: int| 0 <= k < min.num_states() implies #[trigger] class_nonempty(cls, k) by {
            let r1 = reps@[k];
            lemma_equivalent_reflexive(a, Some(r1));
            assert(cls[r1 as int] == k);
        }
        assert forall|k: int|
            0 <= k < min.num_states() implies (#[trigger] min.accepting_at(k) <==> forall|q: int|
                0 <= q < cls.len() && cls[q] == k ==> a.accepting_at(q)) by {
            let r1 = reps@[k];
            lemma_equivalent_reflexive(a, Some(r1));
            assert(cls[r1 as int] == k);
            assert forall|q: int| 0 <= q < cls.len() && cls[q] == k implies a.accepting_at(q) == a.accepting_at(r1 as int) by {
                assert(a.equivalent(Some(r1), Some(q as usize)));
                lemma_equivalent_accepting(a, Some(r1), Some(q as usize));
            }
        }
        assert(quotient_by(a, &min, cls));
        assert forall|k1: usize, k2: usize|
            k1 < min.num_states() && k2 < min.num_states() && k1 != k2 implies !#[trigger] min.equivalent(
                Some(k1),
                Some(k2),
            ) by {
            let r1 = reps@[k1 as int];
            let r2 = reps@[k2 as int];
            lemma_equivalent_reflexive(a, Some(r1));
            lemma_equivalent_reflexive(a, Some(r2));
            assert(class_of@[r1 as int] == k1 as int);
            assert(class_of@[r2 as int] == k2 as int);
            assert(!a.equivalent(Some(r1), Some(r2)));
            let w = choose|w: Seq<char>| #[trigger] a.ext_accepts(Some(r1), w) != a.ext_accepts(Some(r2), w);
            lemma_quotient_run(a, &min, class_of@, reps@, r1, w);
            lemma_quotient_run(a, &min, class_of@, reps@, r2, w);
            lemma_quotient_accepting(a, &min, class_of@, reps@, a.ext_run(Some(r1), w), min.ext_run(Some(k1 as usize), w));
            lemma_quotient_accepting(a, &min, class_of@, reps@, a.ext_run(Some(r2), w), min.ext_run(Some(k2 as usize), w));
            lemma_ext_accepts_empty(a, a.ext_run(Some(r1), w));
            lemma_ext_accepts_empty(a, a.ext_run(Some(r2), w));
            lemma_ext_accepts_empty(&min, min.ext_run(Some(k1 as usize), w));
            lemma_ext_accepts_empty(&min, min.ext_run(Some(k2 as usize), w));
            assert(min.ext_accepts(Some(k1 as usize), w) != min.ext_accepts(Some(k2 as usize), w));
        }
    }
    min
}

/// Accepting the empty word is being accepting.
pub proof fn lemma_ext_accepts_empty(a: &Automaton, x: Option<usize>)
    ensures
        a.ext_accepts(x, Seq::empty()) == match x {
            None => false,
            Some(p) => a.accepting_at(p as int),
        },
{
    if let Some(p) = x {
        assert(a.run(p as int, Seq::<char>::empty()) == Some(p));
    }
}

impl Automaton {
    /// The minimal deterministic automaton of the nondeterministic reading
    /// of `self`: `self` itself when its kind says it is minimal already.
    pub fn into_min_dfa(self) -> (r: Automaton)
        requires
            self.wf(),
            self.kind != AutomatonKind::MinDfa ==> self.start_state is Some,
        ensures
            r.wf(),
            r.kind == AutomatonKind::MinDfa,
            r.is_deterministic(),
            self.start_state is Some ==> r.start_state is Some,
            self.kind == AutomatonKind::MinDfa ==> r == self,
            forall|w: Seq<char>| #[trigger] r.accepts(w) == self.nfa_accepts(w),
    {
        proof {
            assert(self.states.len() == self.num_states());
        }
        match self.kind {
            AutomatonKind::Nfa => {
                let dfa = crate::determinize::nfa_to_dfa(&self);
                dfa_to_minimized_dfa(&dfa)
            },
            AutomatonKind::Dfa => {
                let r = dfa_to_minimized_dfa(&self);
                assert forall|w: Seq<char>| #[trigger] r.accepts(w) == self.nfa_accepts(w) by {
                    crate::determinize::lemma_deterministic_nfa_states(&self, w);
                }
                r
            },
            AutomatonKind::MinDfa => {
                assert forall|w: Seq<char>| #[trigger] self.accepts(w) == self.nfa_accepts(w) by {
                    crate::determinize::lemma_deterministic_nfa_states(&self, w);
                }
                self
            },
        }
    }
}

} // verus!
