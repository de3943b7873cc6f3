use vstd::prelude::*;
use crate::automaton::Automaton;
use crate::parse_tree::ParseTree;

verus! {

/// The words that the regular expression `t` describes.
pub open spec fn lang(t: ParseTree, w: Seq<char>) -> bool
    decreases t, 0nat, 0nat, 0nat,
{
    match t {
        ParseTree::Concatenation(ts) => lang_all(ts@, w),
        ParseTree::Alternation(ts) => lang_any(ts@, w),
        ParseTree::ZeroOrMore(inner) => lang_star(*inner, w),
        ParseTree::OneOrMore(inner) => plus_split(*inner, w, w.len() as int),
        ParseTree::ZeroOrOne(inner) => w.len() == 0 || lang(*inner, w),
        ParseTree::Atom(c) => w == seq![c],
        ParseTree::Class(cs) => w.len() == 1 && cs@.contains(w[0]),
        ParseTree::Group(inner) => lang(*inner, w),
        ParseTree::Empty => w.len() == 0,
    }
}

/// `w` splits into one word of each language of `ts`, in order.
pub open spec fn lang_all(ts: Seq<ParseTree>, w: Seq<char>) -> bool
    decreases ts, 1nat, 0nat, 0nat,
{
    if ts.len() == 0 {
        w.len() == 0
    } else {
        all_split(ts, w, w.len() as int)
    }
}

/// For some `i <= k`, `w.take(i)` is in `lang_all` of all but the last of
/// `ts` and `w.skip(i)` in the language of the last.
pub open spec fn all_split(ts: Seq<ParseTree>, w: Seq<char>, k: int) -> bool
    decreases ts, 0nat, 0nat, k + 1,
{
    if k < 0 || ts.len() == 0 {
        false
    } else {
        all_split(ts, w, k - 1) || (lang_all(ts.drop_last(), w.take(k)) && lang(ts.last(), w.skip(k)))
    }
}

/// `w` is in the language of some element of `ts`.
pub open spec fn lang_any(ts: Seq<ParseTree>, w: Seq<char>) -> bool
    decreases ts, 0nat, 0nat, 0nat,
{
    if ts.len() == 0 {
        false
    } else {
        lang_any(ts.drop_last(), w) || lang(ts.last(), w)
    }
}

/// `w` splits into non-empty words of the language of `inner`.
pub open spec fn lang_star(inner: ParseTree, w: Seq<char>) -> bool
    decreases inner, w.len(), 1nat, 0nat,
{
    w.len() == 0 || star_split(inner, w, w.len() as int)
}

/// For some `0 < i <= k`, `w.take(i)` is in the language of `inner` and
/// `w.skip(i)` in `lang_star`.
pub open spec fn star_split(inner: ParseTree, w: Seq<char>, k: int) -> bool
    decreases inner, w.len(), 0nat, k,
{
    if k < 1 || k > w.len() {
        false
    } else {
        star_split(inner, w, k - 1) || (lang(inner, w.take(k)) && lang_star(inner, w.skip(k)))
    }
}

/// For some `0 <= i <= k`, `w.take(i)` is in the language of `inner` and
/// `w.skip(i)` in `lang_star`.
pub open spec fn plus_split(inner: ParseTree, w: Seq<char>, k: int) -> bool
    decreases inner, w.len() + 1, 0nat, k + 1,
{
    if k < 0 || k > w.len() {
        false
    } else {
        plus_split(inner, w, k - 1) || (lang(inner, w.take(k)) && lang_star(inner, w.skip(k)))
    }
}

pub proof fn lemma_star_split(inner: ParseTree, w: Seq<char>, k: int)
    requires
        k <= w.len(),
    ensures
        star_split(inner, w, k) <==> exists|i: int|
            0 < i <= k && #[trigger] lang(inner, w.take(i)) && lang_star(inner, w.skip(i)),
    decreases k,
{
    if k >= 1 {
        lemma_star_split(inner, w, k - 1);
        if lang(inner, w.take(k)) && lang_star(inner, w.skip(k)) {
            assert(0 < k <= k && lang(inner, w.take(k)) && lang_star(inner, w.skip(k)));
        }
        if exists|i: int| 0 < i <= k && #[trigger] lang(inner, w.take(i)) && lang_star(inner, w.skip(i)) {
            let i = choose|i: int| 0 < i <= k && #[trigger] lang(inner, w.take(i)) && lang_star(inner, w.skip(i));
            if i < k {
                assert(0 < i <= k - 1 && lang(inner, w.take(i)) && lang_star(inner, w.skip(i)));
            }
        }
    }
}

/// `lang_star` unfolded.
pub proof fn lemma_lang_star(inner: ParseTree, w: Seq<char>)
    ensures
        lang_star(inner, w) <==> (w.len() == 0 || exists|i: int|
            0 < i <= w.len() && #[trigger] lang(inner, w.take(i)) && lang_star(inner, w.skip(i))),
{
    lemma_star_split(inner, w, w.len() as int);
}

pub proof fn lemma_plus_split(inner: ParseTree, w: Seq<char>, k: int)
    requires
        k <= w.len(),
    ensures
        plus_split(inner, w, k) <==> exists|i: int|
            0 <= i <= k && #[trigger] lang(inner, w.take(i)) && lang_star(inner, w.skip(i)),
    decreases k + 1,
{
    if k >= 0 {
        lemma_plus_split(inner, w, k - 1);
        if lang(inner, w.take(k)) && lang_star(inner, w.skip(k)) {
            assert(0 <= k <= k && lang(inner, w.take(k)) && lang_star(inner, w.skip(k)));
        }
        if exists|i: int| 0 <= i <= k && #[trigger] lang(inner, w.take(i)) && lang_star(inner, w.skip(i)) {
            let i = choose|i: int| 0 <= i <= k && #[trigger] lang(inner, w.take(i)) && lang_star(inner, w.skip(i));
            if i < k {
                assert(0 <= i <= k - 1 && lang(inner, w.take(i)) && lang_star(inner, w.skip(i)));
            }
        }
    }
}

/// The language of `t+` unfolded.
pub proof fn lemma_lang_plus(t: ParseTree, inner: ParseTree, w: Seq<char>)
    requires
        t == ParseTree::OneOrMore(Box::new(inner)),
    ensures
        lang(t, w) <==> exists|i: int|
            0 <= i <= w.len() && #[trigger] lang(inner, w.take(i)) && lang_star(inner, w.skip(i)),
{
    lemma_plus_split(inner, w, w.len() as int);
}

pub proof fn lemma_all_split(ts: Seq<ParseTree>, w: Seq<char>, k: int)
    requires
        k <= w.len(),
        ts.len() > 0,
    ensures
        all_split(ts, w, k) <==> exists|i: int|
            0 <= i <= k && #[trigger] lang_all(ts.drop_last(), w.take(i)) && lang(ts.last(), w.skip(i)),
    decreases k + 1,
{
    if k >= 0 {
        lemma_all_split(ts, w, k - 1);
        if lang_all(ts.drop_last(), w.take(k)) && lang(ts.last(), w.skip(k)) {
            assert(0 <= k <= k && lang_all(ts.drop_last(), w.take(k)) && lang(ts.last(), w.skip(k)));
        }
        if exists|i: int| 0 <= i <= k && #[trigger] lang_all(ts.drop_last(), w.take(i)) && lang(ts.last(), w.skip(i)) {
            let i = choose|i: int| 0 <= i <= k && #[trigger] lang_all(ts.drop_last(), w.take(i)) && lang(ts.last(), w.skip(i));
            if i < k {
                assert(0 <= i <= k - 1 && lang_all(ts.drop_last(), w.take(i)) && lang(ts.last(), w.skip(i)));
            }
        }
    }
}

/// `lang_all` unfolded.
pub proof fn lemma_lang_all(ts: Seq<ParseTree>, w: Seq<char>)
    requires
        ts.len() > 0,
    ensures
        lang_all(ts, w) <==> exists|i: int|
            0 <= i <= w.len() && #[trigger] lang_all(ts.drop_last(), w.take(i)) && lang(ts.last(), w.skip(i)),
{
    lemma_all_split(ts, w, w.len() as int);
}

/// The characters that an edge label reads.
pub open spec fn lab(l: Option<char>) -> Seq<char> {
    match l {
        None => seq![],
        Some(c) => seq![c],
    }
}

impl Automaton {
    /// Some walk of exactly `n` edges leads from `p` to `q` reading `w`,
    /// epsilon edges reading nothing.
    pub open spec fn reads(&self, p: int, w: Seq<char>, q: int, n: nat) -> bool
        decreases n,
    {
        if n == 0 {
            p == q && w.len() == 0 && 0 <= p < self.num_states()
        } else {
            exists|r: int, l: Option<char>|
                #[trigger] self.has_edge(p, r, l) && w.len() >= lab(l).len() && w.take(
                    lab(l).len() as int,
                ) == lab(l) && self.reads(r, w.skip(lab(l).len() as int), q, (n - 1) as nat)
        }
    }

    /// Some walk leads from `p` to `q` reading `w`.
    pub open spec fn walks(&self, p: int, w: Seq<char>, q: int) -> bool {
        exists|n: nat| #[trigger] self.reads(p, w, q, n)
    }
}

/// One edge in front of a walk.
pub proof fn lemma_reads_step(a: &Automaton, p: int, r: int, l: Option<char>, w: Seq<char>, q: int, n: nat)
    requires
        a.has_edge(p, r, l),
        a.reads(r, w, q, n),
    ensures
        a.reads(p, lab(l) + w, q, n + 1),
{
    let v = lab(l) + w;
    assert(v.take(lab(l).len() as int) == lab(l));
    assert(v.skip(lab(l).len() as int) == w);
}

/// The first edge of a walk.
pub proof fn lemma_reads_first(a: &Automaton, p: int, w: Seq<char>, q: int, n: nat) -> (res: (int, Option<char>, Seq<char>))
    requires
        n > 0,
        a.reads(p, w, q, n),
    ensures
        a.has_edge(p, res.0, res.1),
        w == lab(res.1) + res.2,
        a.reads(res.0, res.2, q, (n - 1) as nat),
{
    let (r, l) = choose|r: int, l: Option<char>|
        #[trigger] a.has_edge(p, r, l) && w.len() >= lab(l).len() && w.take(lab(l).len() as int)
            == lab(l) && a.reads(r, w.skip(lab(l).len() as int), q, (n - 1) as nat);
    let rest = w.skip(lab(l).len() as int);
    assert(w == lab(l) + rest);
    (r, l, rest)
}

/// Walks compose.
pub proof fn lemma_reads_append(a: &Automaton, p: int, u: Seq<char>, r: int, n: nat, v: Seq<char>, q: int, m: nat)
    requires
        a.reads(p, u, r, n),
        a.reads(r, v, q, m),
    ensures
        a.reads(p, u + v, q, n + m),
    decreases n,
{
    if n == 0 {
        assert(u + v == v);
    } else {
        let (r1, l, u1) = lemma_reads_first(a, p, u, r, n);
        lemma_reads_append(a, r1, u1, r, (n - 1) as nat, v, q, m);
        lemma_reads_step(a, p, r1, l, u1 + v, q, (n - 1 + m) as nat);
        assert(lab(l) + (u1 + v) == u + v);
    }
}

/// A walk of `f` is one of `c` moved by `off`, when `c` has every edge of
/// `f` so moved.
pub proof fn lemma_reads_embed(f: &Automaton, c: &Automaton, off: int, p: int, w: Seq<char>, q: int, n: nat)
    requires
        0 <= off,
        off + f.num_states() <= c.num_states(),
        forall|p1: int, q1: int, l: Option<char>|
            #[trigger] f.has_edge(p1, q1, l) ==> c.has_edge(p1 + off, q1 + off, l),
        f.reads(p, w, q, n),
    ensures
        c.reads(p + off, w, q + off, n),
    decreases n,
{
    if n > 0 {
        let (r, l, w1) = lemma_reads_first(f, p, w, q, n);
        lemma_reads_embed(f, c, off, r, w1, q, (n - 1) as nat);
        lemma_reads_step(c, p + off, r + off, l, w1, q + off, (n - 1) as nat);
    }
}

/// A walk of `c` that starts among the states of `f` moved by `off`, whose
/// only edges leave them from `x` (moved), either stays there, being a walk
/// of `f`, or is a walk of `f` to `x`, then such an edge, then the rest.
pub proof fn lemma_reads_exit(
    c: &Automaton,
    f: &Automaton,
    off: int,
    x: int,
    p: int,
    w: Seq<char>,
    q: int,
    n: nat,
) -> (res: (bool, Seq<char>, nat, int, Option<char>, Seq<char>, nat))
    requires
        0 <= off,
        0 <= p < f.num_states(),
        off + f.num_states() <= c.num_states(),
        forall|p1: int, q1: int, l: Option<char>|
            0 <= p1 < f.num_states() && #[trigger] c.has_edge(p1 + off, q1, l) ==> ((off <= q1 < off
                + f.num_states() && f.has_edge(p1, q1 - off, l)) || (p1 == x && !(off <= q1 < off
                + f.num_states()))),
        c.reads(p + off, w, q, n),
    ensures
        res.0 ==> off <= q < off + f.num_states() && f.reads(p, w, q - off, n),
        !res.0 ==> f.reads(p, res.1, x, res.2) && c.has_edge(x + off, res.3, res.4) && !(off <= res.3
            < off + f.num_states()) && c.reads(res.3, res.5, q, res.6) && res.6 < n && w == res.1
            + lab(res.4) + res.5,
    decreases n,
{
    if n == 0 {
        (true, seq![], 0, 0, None, seq![], 0)
    } else {
        let (r, l, w1) = lemma_reads_first(c, p + off, w, q, n);
        assert(c.has_edge((p + off - off) + off, r, l));
        if off <= r < off + f.num_states() && f.has_edge(p, r - off, l) {
            assert(c.reads((r - off) + off, w1, q, (n - 1) as nat));
            let res1 = lemma_reads_exit(c, f, off, x, r - off, w1, q, (n - 1) as nat);
            if res1.0 {
                lemma_reads_step(f, p, r - off, l, w1, q - off, (n - 1) as nat);
                (true, seq![], 0, 0, None, seq![], 0)
            } else {
                lemma_reads_step(f, p, r - off, l, res1.1, x, res1.2);
                assert(w == (lab(l) + res1.1) + lab(res1.4) + res1.5);
                (false, lab(l) + res1.1, res1.2 + 1, res1.3, res1.4, res1.5, res1.6)
            }
        } else {
            assert(f.reads(p, seq![], p, 0));
            assert(w == seq![] + lab(l) + w1);
            (false, seq![], 0, r, l, w1, (n - 1) as nat)
        }
    }
}

/// A state without incoming edges is reached only by the empty walk.
pub proof fn lemma_reads_no_entry(a: &Automaton, x: int, p: int, w: Seq<char>, n: nat)
    requires
        forall|p1: int, l: Option<char>| !#[trigger] a.has_edge(p1, x, l),
        a.reads(p, w, x, n),
    ensures
        n == 0,
        p == x,
        w.len() == 0,
    decreases n,
{
    if n > 0 {
        let (r, l, w1) = lemma_reads_first(a, p, w, x, n);
        lemma_reads_no_entry(a, x, r, w1, (n - 1) as nat);
    }
}

/// A state without outgoing edges ends every walk from it at once.
pub proof fn lemma_reads_no_exit(a: &Automaton, x: int, w: Seq<char>, q: int, n: nat)
    requires
        forall|q1: int, l: Option<char>| !#[trigger] a.has_edge(x, q1, l),
        a.reads(x, w, q, n),
    ensures
        n == 0,
        q == x,
        w.len() == 0,
{
    if n > 0 {
        let (r, l, w1) = lemma_reads_first(a, x, w, q, n);
    }
}

/// A closure is closed under epsilon edges.
pub proof fn lemma_closure_closed(a: &Automaton, x: Set<int>, p: int, r: int)
    requires
        a.closure(x).contains(p),
        a.has_edge(p, r, None),
    ensures
        a.closure(x).contains(r),
{
    let p0 = choose|p0: int| x.contains(p0) && #[trigger] a.eps_reaches(p0, p);
    crate::closure::lemma_eps_reaches_extend(a, p0, p, r);
}

/// An epsilon path is a walk reading nothing.
pub proof fn lemma_eps_path_reads(a: &Automaton, path: Seq<int>)
    requires
        a.wf(),
        a.is_eps_path(path),
        0 <= path[0] < a.num_states(),
    ensures
        a.reads(path[0], seq![], path.last(), (path.len() - 1) as nat),
    decreases path.len(),
{
    if path.len() > 1 {
        let rest = path.drop_first();
        assert forall|i: int| 0 <= i < rest.len() - 1 implies #[trigger] a.has_edge(rest[i], rest[i + 1], None) by {
            assert(a.has_edge(path[i + 1], path[i + 1 + 1], None));
        }
        let z: int = 0;
        assert(a.has_edge(path[z], path[z + 1], None));
        lemma_eps_path_reads(a, rest);
        lemma_reads_step(a, path[0], rest[0], None, seq![], path.last(), (rest.len() - 1) as nat);
        assert(lab(None) + seq![] == Seq::<char>::empty());
    }
}

/// From a state that `u` can lead to, a walk reading `v` ends in a state
/// that `u + v` can lead to.
pub proof fn lemma_walk_in_nfa_states(a: &Automaton, u: Seq<char>, p: int, v: Seq<char>, q: int, n: nat)
    requires
        a.wf(),
        a.nfa_states(u).contains(p),
        a.reads(p, v, q, n),
    ensures
        a.nfa_states(u + v).contains(q),
    decreases n,
{
    if n == 0 {
        assert(u + v == u);
    } else {
        let (r, l, v1) = lemma_reads_first(a, p, v, q, n);
        match l {
            None => {
                if u.len() == 0 {
                    let s = a.start_state->0;
                    lemma_closure_closed(a, set![s as int], p, r);
                } else {
                    lemma_closure_closed(a, a.step(a.nfa_states(u.drop_last()), u.last()), p, r);
                }
                assert(v == v1);
                lemma_walk_in_nfa_states(a, u, r, v1, q, (n - 1) as nat);
            },
            Some(c) => {
                let u1 = u.push(c);
                assert(u1.drop_last() == u);
                assert(a.step(a.nfa_states(u), c).contains(r));
                crate::closure::lemma_eps_reaches_self(a, r);
                assert(a.nfa_states(u1).contains(r));
                lemma_walk_in_nfa_states(a, u1, r, v1, q, (n - 1) as nat);
                assert(u1 + v1 == u + v);
            },
        }
    }
}

/// The states that the nondeterministic reading of `w` can be in are those
/// that walks from the start state reading `w` reach.
pub proof fn lemma_nfa_states_walks(a: &Automaton, w: Seq<char>, q: int)
    requires
        a.wf(),
        a.start_state is Some,
    ensures
        a.nfa_states(w).contains(q) <==> a.walks(a.start_state->0 as int, w, q),
    decreases w.len(),
{
    let s = a.start_state->0 as int;
    if a.walks(s, w, q) {
        let n = choose|n: nat| #[trigger] a.reads(s, w, q, n);
        crate::closure::lemma_eps_reaches_self(a, s);
        assert(a.nfa_states(seq![]).contains(s));
        lemma_walk_in_nfa_states(a, seq![], s, w, q, n);
        assert(seq![] + w == w);
    }
    if a.nfa_states(w).contains(q) {
        if w.len() == 0 {
            let p0 = choose|p0: int| set![s].contains(p0) && #[trigger] a.eps_reaches(p0, q);
            let path = choose|path: Seq<int>| #[trigger] a.is_eps_path(path) && path[0] == p0 && path.last() == q;
            lemma_eps_path_reads(a, path);
            assert(w == Seq::<char>::empty());
            assert(a.reads(s, w, q, (path.len() - 1) as nat));
        } else {
            let u = w.drop_last();
            let c = w.last();
            let st = a.step(a.nfa_states(u), c);
            let p1 = choose|p1: int| st.contains(p1) && #[trigger] a.eps_reaches(p1, q);
            let r = choose|r: int| a.nfa_states(u).contains(r) && #[trigger] a.has_edge(r, p1, Some(c));
            lemma_nfa_states_walks(a, u, r);
            let n1 = choose|n1: nat| #[trigger] a.reads(s, u, r, n1);
            let path = choose|path: Seq<int>| #[trigger] a.is_eps_path(path) && path[0] == p1 && path.last() == q;
            lemma_eps_path_reads(a, path);
            let k = (path.len() - 1) as nat;
            lemma_reads_step(a, r, p1, Some(c), seq![], q, k);
            lemma_reads_append(a, s, u, r, n1, lab(Some(c)) + seq![], q, k + 1);
            assert(u + (lab(Some(c)) + seq![]) == w);
            assert(a.reads(s, w, q, n1 + k + 1));
        }
    }
}

/// A fragment accepts, read nondeterministically, exactly the words that
/// lead from its start state to its accepting state.
pub proof fn lemma_fragment_accepts(a: &Automaton, f: int, w: Seq<char>)
    requires
        a.wf(),
        a.start_state is Some,
        a.accepts_only(f),
    ensures
        a.nfa_accepts(w) <==> a.walks(a.start_state->0 as int, w, f),
{
    lemma_nfa_states_walks(a, w, f);
    if a.nfa_accepts(w) {
        let q = choose|q: int| a.nfa_states(w).contains(q) && #[trigger] a.accepting_at(q);
        lemma_nfa_states_walks(a, w, q);
    }
    if a.walks(a.start_state->0 as int, w, f) {
        assert(a.accepting_at(f));
    }
}

} // verus!
