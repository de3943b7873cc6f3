use vstd::prelude::*;
use vstd::string::StrSliceExecFns;
use std::ops::Range;
use crate::automaton::{Automaton, lemma_run_in_range, lemma_run_step, lemma_run_stuck};

verus! {

/// The characters of `s`, in order.
pub fn chars_of(s: &str) -> (r: Vec<char>)
    ensures
        r@ == s@,
{
    let mut v: Vec<char> = Vec::new();
    for c in it: s.chars()
        invariant
            v@ == it.seq().take(it.index() as int),
    {
        v.push(c);
    }
    assert(v@ == s@);
    v
}

/// Length of an optional range, `0` for none.
pub open spec fn range_len(r: Option<Range<usize>>) -> int {
    match r {
        None => 0,
        Some(r) => r.end - r.start,
    }
}

/// `rs` moved right by `k`.
pub open spec fn shift_ranges(rs: Seq<Range<usize>>, k: int) -> Seq<Range<usize>> {
    Seq::new(
        rs.len(),
        |i: int| Range { start: (rs[i].start + k) as usize, end: (rs[i].end + k) as usize },
    )
}


/// Positions where nothing is accepted add no range.
pub proof fn lemma_prefix_ranges_stable(a: &Automaton, w: Seq<char>, m: nat, k: nat)
    requires
        m <= k,
        forall|i: int| m <= i < k ==> !a.accepts(#[trigger] w.take(i)),
    ensures
        a.prefix_ranges(w, k) == a.prefix_ranges(w, m),
    decreases k - m,
{
    if k > m {
        lemma_prefix_ranges_stable(a, w, m, (k - 1) as nat);
    }
}

/// The ranges of `prefix_ranges` start at `0` and end before `n`.
pub proof fn lemma_prefix_ranges_bounds(a: &Automaton, w: Seq<char>, n: nat)
    requires
        n <= usize::MAX + 1,
    ensures
        forall|k: int|
            0 <= k < a.prefix_ranges(w, n).len() ==> (#[trigger] a.prefix_ranges(w, n)[k]).start
                == 0 && a.prefix_ranges(w, n)[k].end < n,
    decreases n,
{
    if n > 0 {
        lemma_prefix_ranges_bounds(a, w, (n - 1) as nat);
        let rs = a.prefix_ranges(w, (n - 1) as nat);
        let x = Range { start: 0usize, end: (n - 1) as usize };
        if a.accepts(w.take(n - 1)) {
            assert forall|k: int| 0 <= k < rs.push(x).len() implies (#[trigger] rs.push(x)[k]).start == 0
                && rs.push(x)[k].end < n by {
                if k < rs.len() {
                    assert(rs.push(x)[k] == rs[k]);
                }
            }
        }
    }
}

/// A first accepting position, once found, stays the first.
pub proof fn lemma_first_accepting_found(a: &Automaton, w: Seq<char>, m: nat, k: nat)
    requires
        m <= k,
        a.first_accepting(w, m) is Some,
    ensures
        a.first_accepting(w, k) == a.first_accepting(w, m),
    decreases k - m,
{
    if k > m {
        lemma_first_accepting_found(a, w, m, (k - 1) as nat);
    }
}

/// Positions where nothing is accepted find no first accepting position.
pub proof fn lemma_first_accepting_stable(a: &Automaton, w: Seq<char>, m: nat, k: nat)
    requires
        m <= k,
        forall|i: int| m <= i < k ==> !a.accepts(#[trigger] w.take(i)),
    ensures
        a.first_accepting(w, k) == a.first_accepting(w, m),
    decreases k - m,
{
    if k > m {
        lemma_first_accepting_stable(a, w, m, (k - 1) as nat);
    }
}

/// The first accepting position is the least position below `n` whose
/// prefix is accepted.
pub proof fn lemma_first_accepting(a: &Automaton, w: Seq<char>, n: nat)
    ensures
        a.first_accepting(w, n) matches Some(i) ==> i < n && a.accepts(w.take(i as int)) && forall|j: int|
            0 <= j < i ==> !a.accepts(#[trigger] w.take(j)),
        a.first_accepting(w, n) is None ==> forall|j: int| 0 <= j < n ==> !a.accepts(#[trigger] w.take(j)),
    decreases n,
{
    if n > 0 {
        lemma_first_accepting(a, w, (n - 1) as nat);
    }
}

/// The longest prefix of `w.skip(k)`, as `longest_substring_upto` weighs it.
pub open spec fn candidate_len(a: &Automaton, w: Seq<char>, k: int) -> int {
    range_len(a.longest_prefix(w.skip(k)))
}

/// `longest_substring_upto` is the longest non-empty accepted prefix of a
/// suffix starting before `n`, the earliest start among equally long ones.
pub proof fn lemma_longest_substring(a: &Automaton, w: Seq<char>, n: nat)
    requires
        n <= w.len(),
        w.len() <= usize::MAX,
    ensures
        a.longest_substring_upto(w, n) is None ==> forall|k: int|
            0 <= k < n ==> #[trigger] candidate_len(a, w, k) == 0,
        a.longest_substring_upto(w, n) matches Some(r) ==> {
            &&& r.start < n
            &&& r.start < r.end
            &&& a.longest_prefix(w.skip(r.start as int)) == Some(Range { start: 0usize, end: (r.end - r.start) as usize })
            &&& forall|k: int| 0 <= k < n ==> #[trigger] candidate_len(a, w, k) <= r.end - r.start
            &&& forall|k: int| 0 <= k < r.start ==> #[trigger] candidate_len(a, w, k) < r.end - r.start
        },
    decreases n,
{
    if n > 0 {
        let k = n - 1;
        lemma_longest_substring(a, w, (n - 1) as nat);
        let sfx = w.skip(k);
        lemma_prefix_ranges_bounds(a, sfx, sfx.len() + 1);
        assert forall|j: int| 0 <= j < n implies 0 <= #[trigger] candidate_len(a, w, j) by {
            lemma_prefix_ranges_bounds(a, w.skip(j), w.skip(j).len() + 1);
        }
    }
}

impl Automaton {
    /// The state that `w` leads to from the start state.
    pub open spec fn reached(&self, w: Seq<char>) -> Option<usize> {
        match self.start_state {
            None => None,
            Some(s) => self.run(s as int, w),
        }
    }

    /// The ranges `0..i`, `i < n` ascending, such that `w.take(i)` is
    /// accepted.
    pub open spec fn prefix_ranges(&self, w: Seq<char>, n: nat) -> Seq<Range<usize>>
        decreases n,
    {
        if n == 0 {
            seq![]
        } else {
            let rs = self.prefix_ranges(w, (n - 1) as nat);
            if self.accepts(w.take(n - 1)) {
                rs.push(Range { start: 0, end: (n - 1) as usize })
            } else {
                rs
            }
        }
    }

    /// Every accepted prefix of `w`, shortest first.
    pub open spec fn all_prefixes(&self, w: Seq<char>) -> Seq<Range<usize>> {
        self.prefix_ranges(w, w.len() + 1)
    }

    /// The least `i < n` such that `w.take(i)` is accepted.
    pub open spec fn first_accepting(&self, w: Seq<char>, n: nat) -> Option<nat>
        decreases n,
    {
        if n == 0 {
            None
        } else {
            match self.first_accepting(w, (n - 1) as nat) {
                Some(i) => Some(i),
                None => if self.accepts(w.take(n - 1)) {
                    Some((n - 1) as nat)
                } else {
                    None
                },
            }
        }
    }

    /// End of the prefix that `match_first_prefix` reports: the first
    /// accepting position before the last character, or else the whole
    /// input when it can be read to its end.
    pub open spec fn first_prefix_end(&self, w: Seq<char>) -> Option<nat> {
        match self.first_accepting(w, w.len()) {
            Some(i) => Some(i),
            None => if self.reached(w) is Some {
                Some(w.len())
            } else {
                None
            },
        }
    }

    /// The longest accepted prefix of `w`.
    pub open spec fn longest_prefix(&self, w: Seq<char>) -> Option<Range<usize>> {
        let rs = self.all_prefixes(w);
        if rs.len() == 0 {
            None
        } else {
            Some(rs.last())
        }
    }

    /// Scanning the start offsets `k < n` in order, the longest match found
    /// so far; a later one replaces it only when strictly longer.
    pub open spec fn longest_substring_upto(&self, w: Seq<char>, n: nat) -> Option<Range<usize>>
        decreases n,
    {
        if n == 0 {
            None
        } else {
            let best = self.longest_substring_upto(w, (n - 1) as nat);
            let k = n - 1;
            match self.longest_prefix(w.skip(k)) {
                None => best,
                Some(p) => if p.end - p.start > range_len(best) {
                    Some(Range { start: (p.start + k) as usize, end: (p.end + k) as usize })
                } else {
                    best
                },
            }
        }
    }

    /// The accepted substrings of `w` starting before offset `n`, by start
    /// offset, then by length.
    pub open spec fn substrings_upto(&self, w: Seq<char>, n: nat) -> Seq<Range<usize>>
        decreases n,
    {
        if n == 0 {
            seq![]
        } else {
            self.substrings_upto(w, (n - 1) as nat) + shift_ranges(
                self.all_prefixes(w.skip(n - 1)),
                n - 1,
            )
        }
    }

    /// Whether the whole of `input` leads from the start state to an
    /// accepting state.
    pub fn match_whole(&self, input: &str) -> (r: bool)
        requires
            self.wf(),
            self.start_state is Some,
        ensures
            r == self.accepts(input@),
    {
        let w = chars_of(input);
        let start = match self.start_state {
            Some(s) => s,
            None => 0,
        };
        let mut current: usize = start;
        let mut i: usize = 0;
        assert(w@.take(0) =~= Seq::<char>::empty());
        while i < w.len()
            invariant
                self.wf(),
                self.start_state == Some(start),
                w@ == input@,
                i <= w@.len(),
                current < self.num_states(),
                self.run(start as int, w@.take(i as int)) == Some(current),
            decreases w@.len() - i,
        {
            proof {
                lemma_run_step(self, start as int, w@, i as int);
            }
            match self.traverse_from(current, w[i]) {
                Some(next) => {
                    proof {
                        lemma_run_in_range(self, start as int, w@.take(i + 1));
                    }
                    current = next;
                },
                None => {
                    proof {
                        lemma_run_stuck(self, start as int, w@, i + 1, w@.len() as int);
                        assert(w@.take(w@.len() as int) == w@);
                    }
                    return false;
                },
            }
            i += 1;
        }
        assert(w@.take(w@.len() as int) == w@);
        self.is_accepting(current)
    }

    /// The accepted prefixes of `w[from..]`, shortest first, relative to
    /// `from`; the scan stops at the first missing transition.
    fn prefixes_from(&self, w: &Vec<char>, from: usize) -> (r: Vec<Range<usize>>)
        requires
            self.wf(),
            self.start_state is Some,
            from <= w@.len(),
        ensures
            r@ == self.all_prefixes(w@.skip(from as int)),
    {
        let ghost sfx = w@.skip(from as int);
        let start = match self.start_state {
            Some(s) => s,
            None => 0,
        };
        let n = w.len() - from;
        let mut r: Vec<Range<usize>> = Vec::new();
        let mut current: usize = start;
        assert(sfx.take(0) =~= Seq::<char>::empty());
        if self.is_accepting(current) {
            r.push(Range { start: 0, end: 0 });
        }
        assert(self.prefix_ranges(sfx, 0) == Seq::<Range<usize>>::empty());
        assert(self.run(start as int, sfx.take(0)) == Some(start));
        assert(self.accepts(sfx.take(0)) == self.accepting_at(start as int));
        assert(r@ == self.prefix_ranges(sfx, 1));
        let mut j: usize = 0;
        while j < n
            invariant
                self.wf(),
                self.start_state == Some(start),
                sfx == w@.skip(from as int),
                w@.len() <= usize::MAX,
                n == sfx.len(),
                from + n == w@.len(),
                j <= n,
                current < self.num_states(),
                self.run(start as int, sfx.take(j as int)) == Some(current),
                r@ == self.prefix_ranges(sfx, (j + 1) as nat),
            decreases n - j,
        {
            proof {
                lemma_run_step(self, start as int, sfx, j as int);
            }
            assert(sfx[j as int] == w@[from + j]);
            match self.traverse_from(current, w[from + j]) {
                Some(next) => {
                    proof {
                        lemma_run_in_range(self, start as int, sfx.take(j + 1));
                    }
                    current = next;
                },
                None => {
                    proof {
                        assert forall|i: int| j + 1 <= i < n + 1 implies !self.accepts(
                            #[trigger] sfx.take(i),
                        ) by {
                            lemma_run_stuck(self, start as int, sfx, j + 1, i);
                        }
                        lemma_prefix_ranges_stable(self, sfx, (j + 1) as nat, (n + 1) as nat);
                    }
                    return r;
                },
            }
            if self.is_accepting(current) {
                r.push(Range { start: 0, end: j + 1 });
            }
            j += 1;
        }
        r
    }

    /// Every accepted prefix of `input`, as `0..end`, shortest first.
    pub fn match_all_prefixes(&self, input: &str) -> (r: Vec<Range<usize>>)
        requires
            self.wf(),
            self.start_state is Some,
        ensures
            r@ == self.all_prefixes(input@),
    {
        let w = chars_of(input);
        assert(w@.skip(0) == w@);
        self.prefixes_from(&w, 0)
    }

    /// Every accepted substring of `input`: for each start offset in turn,
    /// its accepted prefixes moved to that offset.
    pub fn match_substrings(&self, input: &str) -> (r: Vec<Range<usize>>)
        requires
            self.wf(),
            self.start_state is Some,
        ensures
            r@ == self.substrings_upto(input@, input@.len()),
    {
        let w = chars_of(input);
        let len = w.len();
        let mut out: Vec<Range<usize>> = Vec::new();
        let mut i: usize = 0;
        while i < len
            invariant
                self.wf(),
                self.start_state is Some,
                w@ == input@,
                len == w@.len(),
                i <= w@.len(),
                out@ == self.substrings_upto(w@, i as nat),
            decreases w@.len() - i,
        {
            let rs = self.prefixes_from(&w, i);
            proof {
                lemma_prefix_ranges_bounds(self, w@.skip(i as int), (w@.len() - i + 1) as nat);
            }
            let ghost base = out@;
            let mut k: usize = 0;
            while k < rs.len()
                invariant
                    i < w@.len(),
                    w@.len() <= usize::MAX,
                    rs@ == self.all_prefixes(w@.skip(i as int)),
                    forall|m: int| 0 <= m < rs@.len() ==> (#[trigger] rs@[m]).start == 0 && rs@[m].end < w@.len() - i + 1,
                    k <= rs@.len(),
                    out@ == base + shift_ranges(rs@, i as int).take(k as int),
                decreases rs@.len() - k,
            {
                let rng = Range { start: rs[k].start + i, end: rs[k].end + i };
                out.push(rng);
                assert(shift_ranges(rs@, i as int).take(k + 1) == shift_ranges(rs@, i as int).take(k as int).push(rng));
                k += 1;
            }
            assert(shift_ranges(rs@, i as int).take(rs@.len() as int) == shift_ranges(rs@, i as int));
            i += 1;
        }
        out
    }

    /// The longest accepted prefix of `w[from..]`, relative to `from`.
    fn longest_prefix_from(&self, w: &Vec<char>, from: usize) -> (r: Option<Range<usize>>)
        requires
            self.wf(),
            self.start_state is Some,
            from <= w@.len(),
        ensures
            r == self.longest_prefix(w@.skip(from as int)),
    {
        let rs = self.prefixes_from(w, from);
        if rs.len() == 0 {
            None
        } else {
            let last = rs.len() - 1;
            Some(Range { start: rs[last].start, end: rs[last].end })
        }
    }

    /// The longest accepted prefix of `input`.
    pub fn match_longest_prefix(&self, input: &str) -> (r: Option<Range<usize>>)
        requires
            self.wf(),
            self.start_state is Some,
        ensures
            r == self.longest_prefix(input@),
    {
        let w = chars_of(input);
        assert(w@.skip(0) == w@);
        self.longest_prefix_from(&w, 0)
    }

    /// The longest accepted substring of `input`; among equally long ones
    /// the one that starts first. Empty matches are not reported.
    pub fn match_longest_substring(&self, input: &str) -> (r: Option<Range<usize>>)
        requires
            self.wf(),
            self.start_state is Some,
        ensures
            r == self.longest_substring_upto(input@, input@.len()),
    {
        let w = chars_of(input);
        let len = w.len();
        let mut best: Option<Range<usize>> = None;
        let mut i: usize = 0;
        while i < len
            invariant
                self.wf(),
                self.start_state is Some,
                w@ == input@,
                len == w@.len(),
                i <= w@.len(),
                best == self.longest_substring_upto(w@, i as nat),
                best matches Some(b) ==> b.start <= b.end <= w@.len(),
            decreases w@.len() - i,
        {
            let found = self.longest_prefix_from(&w, i);
            proof {
                lemma_prefix_ranges_bounds(self, w@.skip(i as int), (w@.len() - i + 1) as nat);
            }
            if let Some(p) = found {
                let best_len = match &best {
                    None => 0,
                    Some(b) => b.end - b.start,
                };
                if p.end - p.start > best_len {
                    best = Some(Range { start: p.start + i, end: p.end + i });
                }
            }
            i += 1;
        }
        best
    }

    /// The first accepted prefix of `input` seen before reading each
    /// character; when none is seen and the whole input can be read, the
    /// whole input.
    pub fn match_first_prefix<'a>(&self, input: &'a str) -> (r: Option<&'a str>)
        requires
            self.wf(),
            self.start_state is Some,
        ensures
            match r {
                None => self.first_prefix_end(input@) is None,
                Some(p) => self.first_prefix_end(input@) matches Some(e) && p@ == input@.take(e as int),
            },
    {
        let w = chars_of(input);
        let start = match self.start_state {
            Some(s) => s,
            None => 0,
        };
        let mut current: usize = start;
        let mut i: usize = 0;
        assert(w@.take(0) =~= Seq::<char>::empty());
        while i < w.len()
            invariant
                self.wf(),
                self.start_state == Some(start),
                w@ == input@,
                i <= w@.len(),
                current < self.num_states(),
                self.run(start as int, w@.take(i as int)) == Some(current),
                self.first_accepting(w@, i as nat) is None,
            decreases w@.len() - i,
        {
            if self.is_accepting(current) {
                proof {
                    lemma_first_accepting_found(self, w@, (i + 1) as nat, w@.len());
                }
                return Some(input.substring_char(0, i));
            }
            proof {
                lemma_run_step(self, start as int, w@, i as int);
            }
            match self.traverse_from(current, w[i]) {
                Some(next) => {
                    proof {
                        lemma_run_in_range(self, start as int, w@.take(i + 1));
                    }
                    current = next;
                },
                None => {
                    proof {
                        assert forall|k: int| i + 1 <= k < w@.len() implies !self.accepts(
                            #[trigger] w@.take(k),
                        ) by {
                            lemma_run_stuck(self, start as int, w@, i + 1, k);
                        }
                        lemma_first_accepting_stable(self, w@, (i + 1) as nat, w@.len());
                        lemma_run_stuck(self, start as int, w@, i + 1, w@.len() as int);
                        assert(w@.take(w@.len() as int) == w@);
                    }
                    return None;
                },
            }
            i += 1;
        }
        assert(w@.take(w@.len() as int) == w@);
        Some(input)
    }
}

} // verus!
