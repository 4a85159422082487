use vstd::multiset::Multiset;
use vstd::prelude::*;

use crate::order::sorted;

verus! {

/// The two-pointer merge of `a` and `b`: the smaller front element goes first, and
/// on a tie the element of `a` goes first.
pub open spec fn merge_spec(a: Seq<usize>, b: Seq<usize>) -> Seq<usize>
    decreases a.len() + b.len(),
{
    if a.len() == 0 {
        b
    } else if b.len() == 0 {
        a
    } else if a[0] <= b[0] {
        seq![a[0]] + merge_spec(a.drop_first(), b)
    } else {
        seq![b[0]] + merge_spec(a, b.drop_first())
    }
}

/// Merging two non-decreasing sequences gives a non-decreasing sequence that holds
/// exactly the elements of both: its length is the sum of theirs and its multiset
/// the union of theirs.
pub proof fn lemma_merge_sorted_permutation(a: Seq<usize>, b: Seq<usize>)
    requires
        sorted(a),
        sorted(b),
    ensures
        sorted(merge_spec(a, b)),
        merge_spec(a, b).len() == a.len() + b.len(),
        merge_spec(a, b).to_multiset() == a.to_multiset().add(b.to_multiset()),
        merge_spec(a, b).len() > 0 ==> (a.len() > 0 && merge_spec(a, b)[0] == a[0]) || (b.len()
            > 0 && merge_spec(a, b)[0] == b[0]),
    decreases a.len() + b.len(),
{
    broadcast use vstd::seq_lib::lemma_multiset_commutative;
    broadcast use vstd::multiset::group_multiset_axioms;
    broadcast use vstd::seq_lib::group_to_multiset_ensures;

    let m = merge_spec(a, b);
    if a.len() == 0 {
        assert(a.to_multiset().len() == 0);
        assert(a.to_multiset() =~= Multiset::empty());
        assert(m.to_multiset() =~= a.to_multiset().add(b.to_multiset()));
    } else if b.len() == 0 {
        assert(b.to_multiset().len() == 0);
        assert(b.to_multiset() =~= Multiset::empty());
        assert(m.to_multiset() =~= a.to_multiset().add(b.to_multiset()));
    } else if a[0] <= b[0] {
        let rest = a.drop_first();
        lemma_merge_sorted_permutation(rest, b);
        let mr = merge_spec(rest, b);
        assert(a =~= seq![a[0]] + rest);
        assert(m.to_multiset() =~= seq![a[0]].to_multiset().add(mr.to_multiset()));
        assert(a.to_multiset() =~= seq![a[0]].to_multiset().add(rest.to_multiset()));
        assert(m.to_multiset() =~= a.to_multiset().add(b.to_multiset()));
        assert forall|i: int, j: int| 0 <= i < j < m.len() implies m[i] <= m[j] by {
            if i > 0 {
                assert(m[i] == mr[i - 1]);
            }
            assert(m[j] == mr[j - 1]);
            assert(mr[0] <= mr[j - 1]);
        }
    } else {
        let rest = b.drop_first();
        lemma_merge_sorted_permutation(a, rest);
        let mr = merge_spec(a, rest);
        assert(b =~= seq![b[0]] + rest);
        assert(m.to_multiset() =~= seq![b[0]].to_multiset().add(mr.to_multiset()));
        assert(b.to_multiset() =~= seq![b[0]].to_multiset().add(rest.to_multiset()));
        assert(m.to_multiset() =~= a.to_multiset().add(b.to_multiset()));
        assert forall|i: int, j: int| 0 <= i < j < m.len() implies m[i] <= m[j] by {
            if i > 0 {
                assert(m[i] == mr[i - 1]);
            }
            assert(m[j] == mr[j - 1]);
            assert(mr[0] <= mr[j - 1]);
        }
    }
}

proof fn lemma_merge_step(a: Seq<usize>, b: Seq<usize>, i: int, j: int)
    requires
        0 <= i < a.len(),
        0 <= j < b.len(),
    ensures
        a[i] <= b[j] ==> merge_spec(a.subrange(i, a.len() as int), b.subrange(j, b.len() as int))
            == seq![a[i]] + merge_spec(a.subrange(i + 1, a.len() as int), b.subrange(j, b.len() as int)),
        a[i] > b[j] ==> merge_spec(a.subrange(i, a.len() as int), b.subrange(j, b.len() as int))
            == seq![b[j]] + merge_spec(a.subrange(i, a.len() as int), b.subrange(j + 1, b.len() as int)),
{
    assert(a.subrange(i, a.len() as int).drop_first() =~= a.subrange(i + 1, a.len() as int));
    assert(b.subrange(j, b.len() as int).drop_first() =~= b.subrange(j + 1, b.len() as int));
}

/// Merges two sequences with the two-pointer scan; on equal elements the one of
/// `arr1` goes first.
pub fn merge(arr1: &[usize], arr2: &[usize]) -> (merged: Vec<usize>)
    ensures
        merged@ == merge_spec(arr1@, arr2@),
{
    let ghost a = arr1@;
    let ghost b = arr2@;
    let mut merged: Vec<usize> = Vec::new();
    let mut i: usize = 0;
    let mut j: usize = 0;
    proof {
        assert(a.subrange(0, a.len() as int) =~= a);
        assert(b.subrange(0, b.len() as int) =~= b);
        assert(merged@ + merge_spec(a, b) =~= merge_spec(a, b));
    }
    while i < arr1.len() && j < arr2.len()
        invariant
            a == arr1@,
            b == arr2@,
            i <= a.len(),
            j <= b.len(),
            merged@ + merge_spec(a.subrange(i as int, a.len() as int), b.subrange(
                j as int,
                b.len() as int,
            )) == merge_spec(a, b),
        decreases a.len() + b.len() - i - j,
    {
        let ghost before = merged@;
        proof {
            lemma_merge_step(a, b, i as int, j as int);
        }
        if arr1[i] <= arr2[j] {
            merged.push(arr1[i]);
            proof {
                assert(before + (seq![a[i as int]] + merge_spec(
                    a.subrange(i + 1, a.len() as int),
                    b.subrange(j as int, b.len() as int),
                )) =~= merged@ + merge_spec(
                    a.subrange(i + 1, a.len() as int),
                    b.subrange(j as int, b.len() as int),
                ));
            }
            i += 1;
        } else {
            merged.push(arr2[j]);
            proof {
                assert(before + (seq![b[j as int]] + merge_spec(
                    a.subrange(i as int, a.len() as int),
                    b.subrange(j + 1, b.len() as int),
                )) =~= merged@ + merge_spec(
                    a.subrange(i as int, a.len() as int),
                    b.subrange(j + 1, b.len() as int),
                ));
            }
            j += 1;
        }
    }
    proof {
        let ra = a.subrange(i as int, a.len() as int);
        let rb = b.subrange(j as int, b.len() as int);
        if ra.len() == 0 {
            assert(merge_spec(ra, rb) == rb);
        } else {
            assert(merge_spec(ra, rb) == ra);
            assert(rb =~= Seq::<usize>::empty());
        }
        assert(merged@ + ra + rb =~= merge_spec(a, b));
    }
    while i < arr1.len()
        invariant
            a == arr1@,
            b == arr2@,
            i <= a.len(),
            j <= b.len(),
            merged@ + a.subrange(i as int, a.len() as int) + b.subrange(j as int, b.len() as int)
                == merge_spec(a, b),
        decreases a.len() - i,
    {
        let ghost before = merged@;
        merged.push(arr1[i]);
        proof {
            assert(before + a.subrange(i as int, a.len() as int) =~= merged@ + a.subrange(
                i + 1,
                a.len() as int,
            ));
        }
        i += 1;
    }
    while j < arr2.len()
        invariant
            a == arr1@,
            b == arr2@,
            i == a.len(),
            j <= b.len(),
            merged@ + a.subrange(i as int, a.len() as int) + b.subrange(j as int, b.len() as int)
                == merge_spec(a, b),
        decreases b.len() - j,
    {
        let ghost before = merged@;
        merged.push(arr2[j]);
        proof {
            assert(a.subrange(i as int, a.len() as int) =~= Seq::<usize>::empty());
            assert(before + a.subrange(i as int, a.len() as int) + b.subrange(
                j as int,
                b.len() as int,
            ) =~= merged@ + a.subrange(i as int, a.len() as int) + b.subrange(
                j + 1,
                b.len() as int,
            ));
        }
        j += 1;
    }
    proof {
        assert(merged@ + a.subrange(i as int, a.len() as int) + b.subrange(
            j as int,
            b.len() as int,
        ) =~= merged@);
    }
    merged
}

} // verus!
