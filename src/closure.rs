use vstd::prelude::*;
use crate::automaton::{Automaton, Transition};
use crate::lemmas::{lemma_distinct_ints_bound, lemma_push_contains, lemma_push_no_duplicates};

verus! {

/// The indices that `b` sets.
pub open spec fn bits_set(b: Seq<bool>) -> Set<int> {
    Set::new(|q: int| 0 <= q < b.len() && b[q])
}

impl Automaton {
    /// `path` follows epsilon edges from its first state to its last.
    pub open spec fn is_eps_path(&self, path: Seq<int>) -> bool {
        &&& path.len() > 0
        &&& forall|i: int|
            0 <= i < path.len() - 1 ==> #[trigger] self.has_edge(path[i], path[i + 1], None)
    }

    pub open spec fn eps_reaches(&self, p: int, q: int) -> bool {
        exists|path: Seq<int>| #[trigger] self.is_eps_path(path) && path[0] == p && path.last() == q
    }

    /// The states that epsilon edges lead to from `s`, `s` included.
    pub open spec fn closure(&self, s: Set<int>) -> Set<int> {
        Set::new(|q: int| exists|p: int| s.contains(p) && #[trigger] self.eps_reaches(p, q))
    }

    /// The targets of the edges labelled `c` out of `s`.
    pub open spec fn step(&self, s: Set<int>, c: char) -> Set<int> {
        Set::new(|q: int| exists|p: int| s.contains(p) && #[trigger] self.has_edge(p, q, Some(c)))
    }

    /// The states that the nondeterministic reading of `w` can be in.
    pub open spec fn nfa_states(&self, w: Seq<char>) -> Set<int>
        decreases w.len(),
    {
        if w.len() == 0 {
            match self.start_state {
                None => Set::empty(),
                Some(s) => self.closure(set![s as int]),
            }
        } else {
            self.closure(self.step(self.nfa_states(w.drop_last()), w.last()))
        }
    }

    /// The nondeterministic reading: some state that `w` can lead to is
    /// accepting.
    pub open spec fn nfa_accepts(&self, w: Seq<char>) -> bool {
        exists|q: int| self.nfa_states(w).contains(q) && #[trigger] self.accepting_at(q)
    }
}

/// An epsilon path that starts in a set closed under epsilon edges stays in
/// it.
pub proof fn lemma_closed_path(a: &Automaton, v: Seq<bool>, path: Seq<int>)
    requires
        a.wf(),
        v.len() == a.num_states(),
        a.is_eps_path(path),
        0 <= path[0] < v.len() && v[path[0]],
        forall|p: int, t: int|
            0 <= p < v.len() && v[p] && #[trigger] a.has_edge(p, t, None) ==> 0 <= t < v.len()
                && v[t],
    ensures
        0 <= path.last() < v.len() && v[path.last()],
    decreases path.len(),
{
    if path.len() > 1 {
        let front = path.drop_last();
        assert forall|i: int| 0 <= i < front.len() - 1 implies #[trigger] a.has_edge(
            front[i],
            front[i + 1],
            None,
        ) by {
            assert(a.has_edge(path[i], path[i + 1], None));
        }
        lemma_closed_path(a, v, front);
        let i = path.len() - 2;
        assert(a.has_edge(path[i], path[i + 1], None));
    }
}

/// A one-state path.
pub proof fn lemma_eps_reaches_self(a: &Automaton, p: int)
    ensures
        a.eps_reaches(p, p),
{
    let path = seq![p];
    assert(a.is_eps_path(path));
}

/// One more epsilon edge at the end.
pub proof fn lemma_eps_reaches_extend(a: &Automaton, p: int, q: int, t: int)
    requires
        a.eps_reaches(p, q),
        a.has_edge(q, t, None),
    ensures
        a.eps_reaches(p, t),
{
    let path = choose|path: Seq<int>| #[trigger] a.is_eps_path(path) && path[0] == p && path.last() == q;
    let longer = path.push(t);
    assert forall|i: int| 0 <= i < longer.len() - 1 implies #[trigger] a.has_edge(
        longer[i],
        longer[i + 1],
        None,
    ) by {
        if i < path.len() - 1 {
            assert(a.has_edge(path[i], path[i + 1], None));
        }
    }
    assert(a.is_eps_path(longer));
}

/// The visited flags and the queue agree: the queue lists each visited
/// state once.
pub open spec fn queue_matches(visited: Seq<bool>, queue: Seq<usize>) -> bool {
    &&& queue.no_duplicates()
    &&& forall|i: int| 0 <= i < queue.len() ==> (#[trigger] queue[i]) < visited.len()
    &&& forall|k: int| 0 <= k < visited.len() ==> (visited[k] <==> queue.contains(k as usize))
}

/// The flags `seeds` and the states they set, ascending.
fn seed_queue(seeds: &Vec<bool>) -> (r: (Vec<bool>, Vec<usize>))
    ensures
        r.0@ == seeds@,
        queue_matches(r.0@, r.1@),
{
    let n = seeds.len();
    let mut visited: Vec<bool> = Vec::new();
    let mut queue: Vec<usize> = Vec::new();
    let mut q: usize = 0;
    while q < n
        invariant
            seeds@.len() == n,
            q <= n,
            visited@ == seeds@.take(q as int),
            queue@.no_duplicates(),
            forall|i: int| 0 <= i < queue@.len() ==> (#[trigger] queue@[i]) < q,
            forall|k: int| 0 <= k < q ==> (visited@[k] <==> queue@.contains(k as usize)),
        decreases n - q,
    {
        let ghost old_queue = queue@;
        visited.push(seeds[q]);
        proof {
            if old_queue.contains(q) {
                let i = choose|i: int| 0 <= i < old_queue.len() && old_queue[i] == q;
                assert(old_queue[i] < q);
            }
        }
        if seeds[q] {
            proof {
                lemma_push_no_duplicates(queue@, q);
            }
            queue.push(q);
        }
        assert(seeds@.take(q + 1) == seeds@.take(q as int).push(seeds@[q as int]));
        assert forall|k: int| 0 <= k < q + 1 implies (visited@[k] <==> queue@.contains(k as usize)) by {
            lemma_push_contains(old_queue, q, k as usize);
        }
        q += 1;
    }
    assert(seeds@.take(n as int) == seeds@);
    (visited, queue)
}

impl Automaton {
    /// Visits the epsilon successors of `p` that are not visited yet,
    /// appending them to the queue.
    fn visit_epsilon_successors(&self, p: usize, visited: &mut Vec<bool>, queue: &mut Vec<usize>)
        requires
            self.wf(),
            p < self.num_states(),
            old(visited)@.len() == self.num_states(),
            queue_matches(old(visited)@, old(queue)@),
        ensures
            final(visited)@.len() == self.num_states(),
            queue_matches(final(visited)@, final(queue)@),
            final(queue)@.len() >= old(queue)@.len(),
            final(queue)@.take(old(queue)@.len() as int) == old(queue)@,
            forall|k: int| 0 <= k < self.num_states() && old(visited)@[k] ==> final(visited)@[k],
            forall|k: int|
                0 <= k < self.num_states() && final(visited)@[k] && !old(visited)@[k]
                    ==> self.has_edge(p as int, k, None),
            forall|t: int| #[trigger] self.has_edge(p as int, t, None) ==> final(visited)@[t],
    {
        let n = self.states.len();
        let edges = &self.states[p].from_transitions;
        let ghost v0 = visited@;
        let ghost q0 = queue@;
        let mut i: usize = 0;
        while i < edges.len()
            invariant
                self.wf(),
                n == self.num_states(),
                p < n,
                edges@ == self.out(p as int),
                i <= edges@.len(),
                visited@.len() == n,
                queue_matches(visited@, queue@),
                queue@.len() >= q0.len(),
                queue@.take(q0.len() as int) == q0,
                forall|k: int| 0 <= k < n && v0[k] ==> visited@[k],
                forall|k: int|
                    0 <= k < n && visited@[k] && !v0[k] ==> self.has_edge(p as int, k, None),
                forall|j: int|
                    0 <= j < i && (#[trigger] edges@[j]).atom is None ==> visited@[edges@[j].to_state as int],
            decreases edges@.len() - i,
        {
            let e = edges[i];
            assert(e == self.out(p as int)[i as int]);
            if e.atom.is_none() && !visited[e.to_state] {
                let t = e.to_state;
                assert(e == Transition { atom: None, from_state: p, to_state: t });
                assert(self.has_edge(p as int, t as int, None));
                let ghost old_queue = queue@;
                proof {
                    lemma_push_no_duplicates(queue@, t);
                }
                visited.set(t, true);
                queue.push(t);
                assert forall|k: int| 0 <= k < n implies (visited@[k] <==> queue@.contains(k as usize)) by {
                    lemma_push_contains(old_queue, t, k as usize);
                }
                assert(queue@.take(q0.len() as int) == old_queue.take(q0.len() as int));
            }
            i += 1;
        }
        assert forall|t: int| #[trigger] self.has_edge(p as int, t, None) implies visited@[t] by {
            let e = Transition { atom: None, from_state: p, to_state: t as usize };
            let k = choose|k: int| 0 <= k < edges@.len() && edges@[k] == e;
            assert(edges@[k].atom is None);
        }
    }

    /// The closure of the states that `seeds` sets, found breadth first.
    pub fn close(&self, seeds: &Vec<bool>) -> (r: Vec<bool>)
        requires
            self.wf(),
            seeds@.len() == self.num_states(),
        ensures
            r@.len() == self.num_states(),
            bits_set(r@) == self.closure(bits_set(seeds@)),
    {
        let n = self.states.len();
        let (mut visited, mut queue) = seed_queue(seeds);
        proof {
            assert forall|k: int| 0 <= k < n && visited@[k] implies exists|p: int|
                bits_set(seeds@).contains(p) && #[trigger] self.eps_reaches(p, k) by {
                lemma_eps_reaches_self(self, k);
            }
        }
        let mut head: usize = 0;
        while head < queue.len()
            invariant
                self.wf(),
                n == self.num_states(),
                seeds@.len() == n,
                visited@.len() == n,
                head <= queue@.len(),
                queue_matches(visited@, queue@),
                forall|k: int| 0 <= k < n && seeds@[k] ==> visited@[k],
                forall|k: int|
                    0 <= k < n && visited@[k] ==> exists|p: int|
                        bits_set(seeds@).contains(p) && #[trigger] self.eps_reaches(p, k),
                forall|i: int, t: int|
                    0 <= i < head && #[trigger] self.has_edge(queue@[i] as int, t, None) ==> visited@[t],
            decreases n - head,
        {
            proof {
                let qs = queue@.map_values(|x: usize| x as int);
                assert forall|i: int, j: int| 0 <= i < qs.len() && 0 <= j < qs.len() && i != j implies qs[i] != qs[j] by {
                    assert(queue@[i] != queue@[j]);
                }
                assert forall|i: int| 0 <= i < qs.len() implies 0 <= #[trigger] qs[i] < n by {
                    assert(queue@[i] < n);
                }
                lemma_distinct_ints_bound(qs, n as int);
            }
            let p = queue[head];
            let ghost v0 = visited@;
            let ghost q0 = queue@;
            assert(v0[p as int]) by {
                assert(q0[head as int] == p);
            }
            self.visit_epsilon_successors(p, &mut visited, &mut queue);
            proof {
                assert forall|k: int| 0 <= k < n && visited@[k] implies exists|p1: int|
                    bits_set(seeds@).contains(p1) && #[trigger] self.eps_reaches(p1, k) by {
                    if !v0[k] {
                        let p0 = choose|p0: int| bits_set(seeds@).contains(p0) && #[trigger] self.eps_reaches(p0, p as int);
                        lemma_eps_reaches_extend(self, p0, p as int, k);
                    }
                }
                assert forall|i: int, t: int|
                    0 <= i < head + 1 && #[trigger] self.has_edge(queue@[i] as int, t, None) implies visited@[t] by {
                    assert(queue@[i] == q0[i]);
                    if i < head {
                        assert(self.has_edge(q0[i] as int, t, None));
                    }
                }
            }
            head += 1;
        }
        proof {
            assert forall|k: int| #[trigger] bits_set(visited@).contains(k) == self.closure(
                bits_set(seeds@),
            ).contains(k) by {
                if self.closure(bits_set(seeds@)).contains(k) {
                    let p0 = choose|p0: int| bits_set(seeds@).contains(p0) && #[trigger] self.eps_reaches(p0, k);
                    let path = choose|path: Seq<int>| #[trigger] self.is_eps_path(path) && path[0] == p0 && path.last() == k;
                    assert forall|p1: int, t: int|
                        0 <= p1 < visited@.len() && visited@[p1] && #[trigger] self.has_edge(p1, t, None) implies 0 <= t < visited@.len()
                            && visited@[t] by {
                        assert(queue@.contains(p1 as usize));
                        let j = choose|j: int| 0 <= j < queue@.len() && queue@[j] == p1 as usize;
                        assert(self.has_edge(queue@[j] as int, t, None));
                    }
                    lemma_closed_path(self, visited@, path);
                }
            }
            assert(bits_set(visited@) =~= self.closure(bits_set(seeds@)));
        }
        visited
    }
}

} // verus!
