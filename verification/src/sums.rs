//! Sums of a quantity over a finite set, and over a sequence that lists a
//! set without repeats.
use vstd::prelude::*;

verus! {

/// The sum of `f` over the finite set `s`.
pub open spec fn set_sum<K>(s: Set<K>, f: spec_fn(K) -> nat) -> nat
    decreases s.len(),
    when s.finite()
{
    if s.len() == 0 {
        0
    } else {
        let x = s.choose();
        f(x) + set_sum(s.remove(x), f)
    }
}

/// The sum of `f` over the elements of `keys`, in order.
pub open spec fn seq_sum<K>(keys: Seq<K>, f: spec_fn(K) -> nat) -> nat
    decreases keys.len(),
{
    if keys.len() == 0 {
        0
    } else {
        seq_sum(keys.drop_last(), f) + f(keys.last())
    }
}

/// Taking any one element out of a finite set splits its sum.
pub proof fn lemma_set_sum_remove<K>(s: Set<K>, f: spec_fn(K) -> nat, a: K)
    requires
        s.finite(),
        s.contains(a),
    ensures
        set_sum(s, f) == f(a) + set_sum(s.remove(a), f),
    decreases s.len(),
{
    let x = s.choose();
    assert(s.len() != 0);
    if x != a {
        lemma_set_sum_remove(s.remove(x), f, a);
        lemma_set_sum_remove(s.remove(a), f, x);
        assert(s.remove(x).remove(a) =~= s.remove(a).remove(x));
    }
}

/// The sum over a repeat-free sequence is the sum over its set.
pub proof fn lemma_seq_sum_is_set_sum<K>(keys: Seq<K>, f: spec_fn(K) -> nat)
    requires
        keys.no_duplicates(),
    ensures
        seq_sum(keys, f) == set_sum(keys.to_set(), f),
    decreases keys.len(),
{
    if keys.len() == 0 {
        assert(keys.to_set() =~= Set::empty());
    } else {
        let init = keys.drop_last();
        let x = keys.last();
        assert(init.no_duplicates());
        lemma_seq_sum_is_set_sum(init, f);
        assert(keys.to_set().contains(x));
        assert(keys.to_set().remove(x) =~= init.to_set()) by {
            assert forall|k: K| keys.to_set().remove(x).contains(k) implies init.to_set().contains(k) by {
                let i = choose|i: int| 0 <= i < keys.len() && keys[i] == k;
                assert(i != keys.len() - 1);
                assert(init[i] == k);
            }
            assert forall|k: K| init.to_set().contains(k) implies keys.to_set().remove(x).contains(k) by {
                let i = choose|i: int| 0 <= i < init.len() && init[i] == k;
                assert(keys[i] == k);
                assert(k != x);
            }
        }
        init.lemma_cardinality_of_set();
        lemma_set_sum_remove(keys.to_set(), f, x);
    }
}

/// A prefix never sums to more than the whole sequence.
pub proof fn lemma_seq_sum_prefix<K>(keys: Seq<K>, f: spec_fn(K) -> nat, i: int)
    requires
        0 <= i <= keys.len(),
    ensures
        seq_sum(keys.take(i), f) <= seq_sum(keys, f),
    decreases keys.len(),
{
    if i < keys.len() {
        lemma_seq_sum_prefix(keys.drop_last(), f, i);
        assert(keys.drop_last().take(i) =~= keys.take(i));
    } else {
        assert(keys.take(i) =~= keys);
    }
}

/// Extending a prefix by one element adds that element's term.
pub proof fn lemma_seq_sum_take_next<K>(keys: Seq<K>, f: spec_fn(K) -> nat, i: int)
    requires
        0 <= i < keys.len(),
    ensures
        seq_sum(keys.take(i + 1), f) == seq_sum(keys.take(i), f) + f(keys[i]),
{
    assert(keys.take(i + 1).drop_last() =~= keys.take(i));
}

/// The sum of a pointwise sum is the sum of the sums.
pub proof fn lemma_set_sum_add<K>(s: Set<K>, f: spec_fn(K) -> nat, g: spec_fn(K) -> nat, h: spec_fn(K) -> nat)
    requires
        s.finite(),
        forall|k: K| s.contains(k) ==> h(k) == f(k) + g(k),
    ensures
        set_sum(s, h) == set_sum(s, f) + set_sum(s, g),
    decreases s.len(),
{
    if s.len() != 0 {
        let x = s.choose();
        lemma_set_sum_add(s.remove(x), f, g, h);
    }
}

/// Widening a set by elements where the term is zero leaves the sum alone.
pub proof fn lemma_set_sum_widen<K>(s: Set<K>, wide: Set<K>, f: spec_fn(K) -> nat)
    requires
        wide.finite(),
        s.subset_of(wide),
        forall|k: K| wide.contains(k) && !s.contains(k) ==> f(k) == 0,
    ensures
        set_sum(wide, f) == set_sum(s, f),
    decreases wide.len(),
{
    vstd::set_lib::lemma_len_subset(s, wide);
    if wide.len() == 0 {
        assert(s.len() == 0);
    } else {
        let x = wide.choose();
        if s.contains(x) {
            lemma_set_sum_widen(s.remove(x), wide.remove(x), f);
            lemma_set_sum_remove(s, f, x);
        } else {
            lemma_set_sum_widen(s, wide.remove(x), f);
        }
    }
}

/// Sums of two terms that agree on the set are equal.
pub proof fn lemma_set_sum_congruent<K>(s: Set<K>, f: spec_fn(K) -> nat, g: spec_fn(K) -> nat)
    requires
        s.finite(),
        forall|k: K| s.contains(k) ==> f(k) == g(k),
    ensures
        set_sum(s, f) == set_sum(s, g),
    decreases s.len(),
{
    if s.len() != 0 {
        let x = s.choose();
        lemma_set_sum_congruent(s.remove(x), f, g);
    }
}

/// The sum over the union of two disjoint finite sets is the sum of the sums.
pub proof fn lemma_set_sum_disjoint_union<K>(a: Set<K>, b: Set<K>, f: spec_fn(K) -> nat)
    requires
        a.finite(),
        b.finite(),
        a.disjoint(b),
    ensures
        set_sum(a.union(b), f) == set_sum(a, f) + set_sum(b, f),
    decreases b.len(),
{
    if b.len() == 0 {
        assert(a.union(b) =~= a);
    } else {
        let x = b.choose();
        lemma_set_sum_disjoint_union(a, b.remove(x), f);
        assert(a.union(b).remove(x) =~= a.union(b.remove(x)));
        lemma_set_sum_remove(a.union(b), f, x);
        lemma_set_sum_remove(b, f, x);
    }
}

} // verus!
