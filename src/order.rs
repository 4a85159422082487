use vstd::prelude::*;

verus! {

/// Whether `s` is in non-decreasing order.
pub open spec fn sorted(s: Seq<usize>) -> bool {
    forall|i: int, j: int| 0 <= i < j < s.len() ==> s[i] <= s[j]
}

/// Whether `s` is in non-decreasing order of each element's remainder modulo `md`.
pub open spec fn sorted_mod(s: Seq<usize>, md: int) -> bool {
    forall|i: int, j: int| 0 <= i < j < s.len() ==> s[i] as int % md <= s[j] as int % md
}

/// Whether `a` and `b` hold the same elements with the same multiplicities.
pub open spec fn permutation_of(a: Seq<usize>, b: Seq<usize>) -> bool {
    a.to_multiset() == b.to_multiset()
}

/// A sorted arrangement of a multiset is unique: two sorted sequences that are
/// permutations of each other are equal. In particular, sorting a sequence that is
/// already sorted leaves it unchanged.
pub proof fn lemma_sorted_permutation_unique(a: Seq<usize>, b: Seq<usize>)
    requires
        sorted(a),
        sorted(b),
        permutation_of(a, b),
    ensures
        a == b,
    decreases a.len(),
{
    broadcast use vstd::seq_lib::group_to_multiset_ensures;

    assert(a.len() == a.to_multiset().len());
    assert(b.len() == b.to_multiset().len());
    if a.len() > 0 {
        assert(a.contains(a[0]));
        assert(b.to_multiset().count(a[0]) > 0);
        assert(b.contains(a[0]));
        let k = choose|k: int| 0 <= k < b.len() && b[k] == a[0];
        assert(b[0] <= b[k]);
        assert(b.contains(b[0]));
        assert(a.to_multiset().count(b[0]) > 0);
        assert(a.contains(b[0]));
        let l = choose|l: int| 0 <= l < a.len() && a[l] == b[0];
        assert(a[0] <= a[l]);
        assert(a[0] == b[0]);
        let ra = a.remove(0);
        let rb = b.remove(0);
        assert(ra.to_multiset() =~= a.to_multiset().remove(a[0]));
        assert(rb.to_multiset() =~= b.to_multiset().remove(b[0]));
        assert(sorted(ra));
        assert(sorted(rb));
        lemma_sorted_permutation_unique(ra, rb);
        assert forall|i: int| 0 <= i < a.len() implies a[i] == b[i] by {
            if i > 0 {
                assert(ra[i - 1] == a[i]);
                assert(rb[i - 1] == b[i]);
            }
        }
        assert(a =~= b);
    } else {
        assert(a =~= b);
    }
}

/// Every element of a permutation of `b` is bounded as the elements of `b` are.
pub proof fn lemma_permutation_bounded(a: Seq<usize>, b: Seq<usize>, max: usize)
    requires
        permutation_of(a, b),
        forall|i: int| 0 <= i < b.len() ==> b[i] <= max,
    ensures
        forall|i: int| 0 <= i < a.len() ==> a[i] <= max,
{
    broadcast use vstd::seq_lib::group_to_multiset_ensures;

    assert forall|i: int| 0 <= i < a.len() implies a[i] <= max by {
        assert(a.contains(a[i]));
        assert(a.to_multiset().count(a[i]) > 0);
        assert(b.contains(a[i]));
    }
}

} // verus!
