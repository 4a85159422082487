use vstd::prelude::*;

use crate::bucket::{
    key,
    lemma_digit_pass_sorted,
    lemma_stable_by_key_ordered,
    lemma_stable_by_key_permutation,
    stable_by_key,
    stable_counting_pass,
};
use crate::order::{
    lemma_permutation_bounded,
    lemma_sorted_permutation_unique,
    permutation_of,
    sorted,
    sorted_mod,
};

verus! {

/// What every local sort promises: `after` is the sorted arrangement of `before`.
pub open spec fn sorts(before: Seq<usize>, after: Seq<usize>) -> bool {
    &&& sorted(after)
    &&& permutation_of(after, before)
}

/// Whether every element of `s` is below `usize::MAX`, so that a table with one
/// slot per value up to the maximum can be sized.
pub open spec fn countable(s: Seq<usize>) -> bool {
    forall|i: int| 0 <= i < s.len() ==> s[i] < usize::MAX
}

/// The largest element of a non-empty sequence.
fn max_element(arr: &[usize]) -> (r: usize)
    requires
        arr.len() > 0,
    ensures
        forall|i: int| 0 <= i < arr.len() ==> arr@[i] <= r,
        exists|i: int| 0 <= i < arr.len() && arr@[i] == r,
{
    let mut r = arr[0];
    let mut i: usize = 1;
    while i < arr.len()
        invariant
            1 <= i <= arr.len(),
            forall|k: int| 0 <= k < i ==> arr@[k] <= r,
            exists|k: int| 0 <= k < i && arr@[k] == r,
        decreases arr.len() - i,
    {
        if arr[i] > r {
            r = arr[i];
        }
        i += 1;
    }
    r
}

/// Sorts `arr` by counting: a single stable counting pass keyed on the value itself,
/// with one table slot per value from zero to the maximum.
pub fn counting_sort(arr: &mut [usize])
    requires
        countable(old(arr)@),
    ensures
        sorts(old(arr)@, final(arr)@),
        sorted(old(arr)@) ==> final(arr)@ == old(arr)@,
{
    let ghost s = arr@;
    if arr.len() == 0 {
        proof {
            lemma_sorted_permutation_unique(arr@, s);
        }
        return ;
    }
    let max = max_element(arr);
    stable_counting_pass(arr, 1, max + 1);
    proof {
        lemma_stable_by_key_permutation(s, 1, (max + 1) as usize);
        lemma_permutation_bounded(arr@, s, max);
        assert forall|p: int, q: int| 0 <= p < q < arr@.len() implies arr@[p] <= arr@[q] by {
            lemma_stable_by_key_ordered(s, 1, (max + 1) as usize, p, q);
            vstd::arithmetic::div_mod::lemma_small_mod(arr@[p] as nat, (max + 1) as nat);
            vstd::arithmetic::div_mod::lemma_small_mod(arr@[q] as nat, (max + 1) as nat);
        }
        if sorted(s) {
            lemma_sorted_permutation_unique(arr@, s);
        }
    }
}

/// Sorts `arr` digit by digit: one stable counting pass per decimal digit of the
/// maximum, from the least significant digit up.
pub fn radix_sort(arr: &mut [usize])
    ensures
        sorts(old(arr)@, final(arr)@),
        sorted(old(arr)@) ==> final(arr)@ == old(arr)@,
{
    let ghost s = arr@;
    if arr.len() == 0 {
        proof {
            lemma_sorted_permutation_unique(arr@, s);
        }
        return ;
    }
    let max_number = max_element(arr);
    let mut significant_digit: usize = 1;
    let mut more = true;
    proof {
        assert forall|i: int, j: int| 0 <= i < j < arr@.len() implies arr@[i] as int % 1
            <= arr@[j] as int % 1 by {
            assert(arr@[i] as int % 1 == 0 && arr@[j] as int % 1 == 0);
        }
    }
    while more
        invariant
            significant_digit > 0,
            permutation_of(arr@, s),
            forall|i: int| 0 <= i < s.len() ==> s[i] <= max_number,
            more ==> sorted_mod(arr@, significant_digit as int),
            !more ==> sorted(arr@),
        decreases max_number / significant_digit + if more {
            1int
        } else {
            0int
        },
    {
        let ghost before = arr@;
        stable_counting_pass(arr, significant_digit, 10);
        proof {
            lemma_stable_by_key_permutation(before, significant_digit, 10);
            lemma_digit_pass_sorted(before, significant_digit);
            lemma_permutation_bounded(arr@, s, max_number);
        }
        if max_number / significant_digit >= 10 {
            proof {
                let m = max_number as int;
                let d = significant_digit as int;
                assert(d * 10 <= m) by (nonlinear_arith)
                    requires
                        d > 0,
                        m / d >= 10,
                        m >= 0,
                ;
                vstd::arithmetic::div_mod::lemma_div_denominator(m, d, 10);
                assert(m / (d * 10) < m / d) by (nonlinear_arith)
                    requires
                        m / (d * 10) == (m / d) / 10,
                        m / d >= 10,
                ;
            }
            significant_digit = significant_digit * 10;
        } else {
            proof {
                let m = max_number as int;
                let d = significant_digit as int;
                assert(m < d * 10) by (nonlinear_arith)
                    requires
                        d > 0,
                        m / d < 10,
                        m >= 0,
                ;
                assert forall|p: int, q: int| 0 <= p < q < arr@.len() implies arr@[p]
                    <= arr@[q] by {
                    vstd::arithmetic::div_mod::lemma_small_mod(arr@[p] as nat, (d * 10) as nat);
                    vstd::arithmetic::div_mod::lemma_small_mod(arr@[q] as nat, (d * 10) as nat);
                }
            }
            more = false;
        }
    }
    proof {
        if sorted(s) {
            lemma_sorted_permutation_unique(arr@, s);
        }
    }
}

/// The interchangeable ways of sorting one chunk.
#[derive(Clone, Copy, Debug, PartialEq, Eq, Structural)]
pub enum SortStrategy {
    Counting,
    Radix,
}

/// Sorts one chunk in place with the chosen strategy.
pub fn sort_chunk(arr: &mut [usize], strategy: SortStrategy)
    requires
        strategy == SortStrategy::Counting ==> countable(old(arr)@),
    ensures
        sorts(old(arr)@, final(arr)@),
        sorted(old(arr)@) ==> final(arr)@ == old(arr)@,
{
    match strategy {
        SortStrategy::Counting => counting_sort(arr),
        SortStrategy::Radix => radix_sort(arr),
    }
}

} // verus!
