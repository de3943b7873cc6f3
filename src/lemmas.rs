use vstd::prelude::*;
use vstd::set_lib::{lemma_int_range, lemma_len_subset, set_int_range};

verus! {

pub proof fn lemma_push_no_duplicates<A>(s: Seq<A>, x: A)
    requires
        s.no_duplicates(),
        !s.contains(x),
    ensures
        s.push(x).no_duplicates(),
{
    let t = s.push(x);
    assert forall|i: int, j: int| 0 <= i < t.len() && 0 <= j < t.len() && i != j implies t[i]
        != t[j] by {
        if i == s.len() {
            assert(s[j] == t[j]);
        } else if j == s.len() {
            assert(s[i] == t[i]);
        }
    }
}

pub proof fn lemma_push_contains<A>(s: Seq<A>, x: A, d: A)
    ensures
        s.push(x).contains(d) == (s.contains(d) || d == x),
{
    if s.contains(d) {
        let k = choose|k: int| 0 <= k < s.len() && s[k] == d;
        assert(s.push(x)[k] == d);
    }
    if d == x {
        assert(s.push(x)[s.len() as int] == d);
    }
    if s.push(x).contains(d) && d != x {
        let k = choose|k: int| 0 <= k < s.push(x).len() && s.push(x)[k] == d;
        assert(s[k] == d);
    }
}

pub proof fn lemma_take_succ_contains<A>(s: Seq<A>, j: int, d: A)
    requires
        0 <= j < s.len(),
    ensures
        s.take(j + 1).contains(d) == (s.take(j).contains(d) || d == s[j]),
{
    assert(s.take(j + 1) == s.take(j).push(s[j]));
    lemma_push_contains(s.take(j), s[j], d);
}

/// `2` to the power `n`.
pub open spec fn bit_space(n: nat) -> nat
    decreases n,
{
    if n == 0 {
        1
    } else {
        2 * bit_space((n - 1) as nat)
    }
}

/// Distinct integers in `0 .. m` number at most `m`.
pub proof fn lemma_distinct_ints_bound(s: Seq<int>, m: int)
    requires
        0 <= m,
        s.no_duplicates(),
        forall|i: int| 0 <= i < s.len() ==> 0 <= #[trigger] s[i] < m,
    ensures
        s.len() <= m,
{
    s.unique_seq_to_set();
    lemma_int_range(0, m);
    assert(s.to_set().subset_of(set_int_range(0, m)));
    lemma_len_subset(s.to_set(), set_int_range(0, m));
}

/// The number whose binary digits, lowest first, are `b`.
pub open spec fn bits_value(b: Seq<bool>) -> int
    decreases b.len(),
{
    if b.len() == 0 {
        0
    } else {
        (if b[0] {
            1int
        } else {
            0int
        }) + 2 * bits_value(b.drop_first())
    }
}

pub proof fn lemma_bits_value_bound(b: Seq<bool>)
    ensures
        0 <= bits_value(b) < bit_space(b.len()),
    decreases b.len(),
{
    if b.len() > 0 {
        lemma_bits_value_bound(b.drop_first());
    }
}

pub proof fn lemma_bits_value_injective(b1: Seq<bool>, b2: Seq<bool>)
    requires
        b1.len() == b2.len(),
        bits_value(b1) == bits_value(b2),
    ensures
        b1 == b2,
    decreases b1.len(),
{
    if b1.len() > 0 {
        lemma_bits_value_injective(b1.drop_first(), b2.drop_first());
        assert(b1 =~= seq![b1[0]] + b1.drop_first());
        assert(b2 =~= seq![b2[0]] + b2.drop_first());
    } else {
        assert(b1 =~= b2);
    }
}

/// Distinct bit strings of length `n` number at most `2^n`.
pub proof fn lemma_distinct_bitmaps_bound(cs: Seq<Seq<bool>>, n: nat)
    requires
        cs.no_duplicates(),
        forall|i: int| 0 <= i < cs.len() ==> (#[trigger] cs[i]).len() == n,
    ensures
        cs.len() <= bit_space(n),
{
    let es = cs.map_values(|b: Seq<bool>| bits_value(b));
    assert forall|i: int| 0 <= i < es.len() implies 0 <= #[trigger] es[i] < bit_space(n) by {
        lemma_bits_value_bound(cs[i]);
    }
    assert forall|i: int, j: int| 0 <= i < es.len() && 0 <= j < es.len() && i != j implies es[i]
        != es[j] by {
        if es[i] == es[j] {
            lemma_bits_value_injective(cs[i], cs[j]);
        }
    }
    lemma_distinct_ints_bound(es, bit_space(n) as int);
}

} // verus!
