//! Facts about permutations of `0..n`, by counting.

use vstd::prelude::*;
use vstd::seq_lib::*;
use vstd::set_lib::*;

verus! {

/// Whether `s` holds each of `0..s.len()` exactly once.
pub open spec fn is_permutation(s: Seq<usize>) -> bool {
    &&& forall|i: int| 0 <= i < s.len() ==> #[trigger] s[i] < s.len()
    &&& s.no_duplicates()
}

/// The numbers below `n`.
pub open spec fn below(n: nat) -> Set<usize> {
    Set::new(|v: usize| v < n)
}

/// There are `n` numbers below `n`.
pub proof fn lemma_below_len(n: nat)
    requires
        n <= usize::MAX,
    ensures
        below(n).finite(),
        below(n).len() == n,
    decreases n,
{
    if n == 0 {
        assert(below(n) =~= Set::empty());
    } else {
        lemma_below_len((n - 1) as nat);
        assert(below((n - 1) as nat).insert((n - 1) as usize) =~= below(n));
    }
}

/// Distinct numbers below `n` are at most `n` many; when they are exactly
/// `n` many, every number below `n` is among them.
pub proof fn lemma_distinct_below(s: Seq<usize>, n: nat)
    requires
        n <= usize::MAX,
        s.no_duplicates(),
        forall|i: int| 0 <= i < s.len() ==> #[trigger] s[i] < n,
    ensures
        s.len() <= n,
        s.len() == n ==> forall|v: usize| v < n ==> s.contains(v),
{
    s.unique_seq_to_set();
    seq_to_set_is_finite(s);
    lemma_below_len(n);
    assert(s.to_set().subset_of(below(n))) by {
        assert forall|v: usize| s.to_set().contains(v) implies below(n).contains(v) by {
            let i = choose|i: int| 0 <= i < s.len() && s[i] == v;
            assert(s[i] < n);
        }
    }
    lemma_len_subset(s.to_set(), below(n));
    if s.len() == n {
        lemma_subset_equality(s.to_set(), below(n));
        assert forall|v: usize| v < n implies s.contains(v) by {
            assert(below(n).contains(v));
            assert(s.to_set().contains(v));
        }
    }
}

/// A permutation of `0..n` holds every number below `n`.
pub proof fn lemma_permutation_covers(s: Seq<usize>)
    requires
        s.len() <= usize::MAX,
        is_permutation(s),
    ensures
        forall|v: usize| v < s.len() ==> s.contains(v),
{
    lemma_distinct_below(s, s.len());
}

/// Two permutations of `0..n` hold the same numbers, each once.
pub proof fn lemma_permutations_same_multiset(a: Seq<usize>, b: Seq<usize>)
    requires
        a.len() <= usize::MAX,
        a.len() == b.len(),
        is_permutation(a),
        is_permutation(b),
    ensures
        a.to_multiset() == b.to_multiset(),
{
    broadcast use {to_multiset_contains, vstd::multiset::group_multiset_axioms};

    lemma_permutation_covers(a);
    lemma_permutation_covers(b);
    a.lemma_multiset_has_no_duplicates();
    b.lemma_multiset_has_no_duplicates();
    assert forall|v: usize| a.to_multiset().count(v) == b.to_multiset().count(v) by {
        if v < a.len() {
            assert(a.contains(v));
            assert(b.contains(v));
            assert(a.to_multiset().contains(v));
            assert(b.to_multiset().contains(v));
        } else {
            if a.contains(v) {
                let i = choose|i: int| 0 <= i < a.len() && a[i] == v;
                assert(a[i] < a.len());
            }
            if b.contains(v) {
                let i = choose|i: int| 0 <= i < b.len() && b[i] == v;
                assert(b[i] < b.len());
            }
        }
    }
    assert(a.to_multiset() =~= b.to_multiset());
}

/// A rearrangement of a permutation of `0..n` is again one.
pub proof fn lemma_rearranged_permutation(a: Seq<usize>, b: Seq<usize>)
    requires
        is_permutation(a),
        a.to_multiset() == b.to_multiset(),
    ensures
        is_permutation(b),
        b.len() == a.len(),
{
    broadcast use {to_multiset_contains, vstd::multiset::group_multiset_axioms};

    to_multiset_len(a);
    to_multiset_len(b);
    a.lemma_multiset_has_no_duplicates();
    b.lemma_multiset_has_no_duplicates_conv();
    assert forall|i: int| 0 <= i < b.len() implies #[trigger] b[i] < b.len() by {
        assert(b.contains(b[i]));
        assert(b.to_multiset().count(b[i]) > 0);
        assert(a.contains(b[i]));
        let j = choose|j: int| 0 <= j < a.len() && a[j] == b[i];
        assert(a[j] < a.len());
    }
}

/// A sequence that holds every number below `n` has at least `n` entries.
pub proof fn lemma_covering_len(s: Seq<usize>, n: nat)
    requires
        n <= usize::MAX,
        forall|v: usize| v < n ==> s.contains(v),
    ensures
        s.len() >= n,
{
    lemma_below_len(n);
    seq_to_set_is_finite(s);
    assert(below(n).subset_of(s.to_set()));
    lemma_len_subset(below(n), s.to_set());
    s.lemma_cardinality_of_set();
}

} // verus!
