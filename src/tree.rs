use vstd::multiset::Multiset;
use vstd::prelude::*;

use crate::local_sort::{countable, sort_chunk, sorts, SortStrategy};
use crate::merge::{lemma_merge_sorted_permutation, merge, merge_spec};
use crate::order::sorted;

verus! {

/// The contents of each chunk, in order.
pub open spec fn chunk_views(chunks: Seq<Vec<usize>>) -> Seq<Seq<usize>> {
    chunks.map_values(|c: Vec<usize>| c@)
}

/// All the elements held by a chunk set, with their multiplicities.
pub open spec fn chunks_multiset(cs: Seq<Seq<usize>>) -> Multiset<usize>
    decreases cs.len(),
{
    if cs.len() == 0 {
        Multiset::empty()
    } else {
        cs[0].to_multiset().add(chunks_multiset(cs.drop_first()))
    }
}

/// Whether every chunk of a chunk set is in non-decreasing order.
pub open spec fn all_sorted(cs: Seq<Seq<usize>>) -> bool {
    forall|k: int| 0 <= k < cs.len() ==> #[trigger] sorted(cs[k])
}

/// The length of every chunk but the last: `ceil(n / thread_count)`.
pub open spec fn chunk_size(n: nat, thread_count: nat) -> nat {
    if n % thread_count == 0 {
        n / thread_count
    } else {
        n / thread_count + 1
    }
}

/// Where chunk `k` of a partition of `n` elements into `thread_count` chunks starts.
pub open spec fn chunk_start(n: nat, thread_count: nat, k: int) -> int {
    let p = k * chunk_size(n, thread_count);
    if p < n {
        p
    } else {
        n as int
    }
}

/// The partition of `s` into `thread_count` contiguous chunks of `ceil(n / thread_count)`
/// elements, the last holding what remains (possibly nothing).
pub open spec fn partition_spec(s: Seq<usize>, thread_count: nat) -> Seq<Seq<usize>> {
    Seq::new(
        thread_count,
        |k: int|
            s.subrange(
                chunk_start(s.len(), thread_count, k),
                chunk_start(s.len(), thread_count, k + 1),
            ),
    )
}

proof fn lemma_chunk_start_bounds(n: nat, t: nat, k: int)
    requires
        t > 0,
        0 <= k,
    ensures
        0 <= chunk_start(n, t, k) <= chunk_start(n, t, k + 1) <= n,
        chunk_start(n, t, t as int) == n,
{
    let c = chunk_size(n, t);
    assert(k * c <= (k + 1) * c) by (nonlinear_arith)
        requires
            0 <= k,
            0 <= c,
    ;
    assert(0 <= k * c) by (nonlinear_arith)
        requires
            0 <= k,
            0 <= c,
    ;
    assert(t * c >= n) by (nonlinear_arith)
        requires
            t > 0,
            c == if n % t == 0 {
                n / t
            } else {
                n / t + 1
            },
    {
        vstd::arithmetic::div_mod::lemma_fundamental_div_mod(n as int, t as int);
    }
}

/// Concatenating the chunks from `k` on gives back the input from where chunk `k` starts.
proof fn lemma_partition_multiset_from(s: Seq<usize>, t: nat, k: int)
    requires
        t > 0,
        0 <= k <= t,
    ensures
        chunks_multiset(partition_spec(s, t).subrange(k, t as int)) == s.subrange(
            chunk_start(s.len(), t, k),
            s.len() as int,
        ).to_multiset(),
    decreases t - k,
{
    broadcast use vstd::seq_lib::lemma_multiset_commutative;
    broadcast use vstd::seq_lib::group_to_multiset_ensures;
    broadcast use vstd::multiset::group_multiset_axioms;

    let n = s.len();
    let p = partition_spec(s, t);
    lemma_chunk_start_bounds(n, t, k);
    if k == t {
        let rest = s.subrange(chunk_start(n, t, k), n as int);
        assert(rest.to_multiset().len() == 0);
        assert(rest.to_multiset() =~= Multiset::empty());
    } else {
        lemma_partition_multiset_from(s, t, k + 1);
        lemma_chunk_start_bounds(n, t, k + 1);
        let a = chunk_start(n, t, k);
        let b = chunk_start(n, t, k + 1);
        assert(p.subrange(k, t as int).drop_first() =~= p.subrange(k + 1, t as int));
        assert(s.subrange(a, n as int) =~= s.subrange(a, b) + s.subrange(b, n as int));
    }
}

/// A partition holds exactly the elements of its input.
pub proof fn lemma_partition_multiset(s: Seq<usize>, t: nat)
    requires
        t > 0,
    ensures
        chunks_multiset(partition_spec(s, t)) == s.to_multiset(),
{
    lemma_partition_multiset_from(s, t, 0);
    assert(partition_spec(s, t).subrange(0, t as int) =~= partition_spec(s, t));
    assert(s.subrange(0, s.len() as int) =~= s);
}

/// A copy of `input[start..end]`.
fn copy_range(input: &Vec<usize>, start: usize, end: usize) -> (r: Vec<usize>)
    requires
        start <= end <= input.len(),
    ensures
        r@ == input@.subrange(start as int, end as int),
{
    let mut r: Vec<usize> = Vec::new();
    let mut i = start;
    while i < end
        invariant
            start <= i <= end <= input.len(),
            r@ == input@.subrange(start as int, i as int),
        decreases end - i,
    {
        r.push(input[i]);
        i += 1;
        proof {
            assert(r@ =~= input@.subrange(start as int, i as int));
        }
    }
    r
}

/// Splits `input` into `thread_count` contiguous chunks of `ceil(n / thread_count)`
/// elements each; the last chunk holds what remains and may be shorter or empty.
pub fn partition(input: &Vec<usize>, thread_count: usize) -> (chunks: Vec<Vec<usize>>)
    requires
        thread_count > 0,
    ensures
        chunk_views(chunks@) == partition_spec(input@, thread_count as nat),
{
    let n = input.len();
    proof {
        let (ni, ti) = (n as int, thread_count as int);
        assert(ni % ti != 0 ==> ni / ti < ni) by (nonlinear_arith)
            requires
                ti > 0,
                ni >= 0,
        ;
    }
    let size = if n % thread_count == 0 {
        n / thread_count
    } else {
        n / thread_count + 1
    };
    let ghost t = thread_count as nat;
    let mut chunks: Vec<Vec<usize>> = Vec::new();
    let mut start: usize = 0;
    let mut k: usize = 0;
    proof {
        assert(0 * size == 0);
    }
    while k < thread_count
        invariant
            n == input.len(),
            t == thread_count,
            t > 0,
            size == chunk_size(n as nat, t),
            k <= thread_count,
            start == chunk_start(n as nat, t, k as int),
            chunks.len() == k,
            forall|i: int|
                0 <= i < k ==> (#[trigger] chunks@[i])@ == partition_spec(input@, t)[i],
        decreases thread_count - k,
    {
        proof {
            lemma_chunk_start_bounds(n as nat, t, k as int);
            assert((k + 1) * size == k * size + size) by (nonlinear_arith);
        }
        let end = if n - start > size {
            start + size
        } else {
            n
        };
        let chunk = copy_range(input, start, end);
        chunks.push(chunk);
        start = end;
        k += 1;
    }
    proof {
        assert(chunk_views(chunks@) =~= partition_spec(input@, t));
    }
    chunks
}

/// Sorts every chunk in place, each on its own, with the chosen strategy.
pub fn local_sort_phase(chunks: &mut Vec<Vec<usize>>, strategy: SortStrategy)
    requires
        strategy == SortStrategy::Counting ==> forall|k: int|
            0 <= k < old(chunks).len() ==> countable(#[trigger] old(chunks)@[k]@),
    ensures
        final(chunks).len() == old(chunks).len(),
        forall|k: int|
            0 <= k < final(chunks).len() ==> sorts(
                #[trigger] old(chunks)@[k]@,
                final(chunks)@[k]@,
            ),
{
    let ghost orig = chunks@;
    let mut k: usize = 0;
    while k < chunks.len()
        invariant
            chunks.len() == orig.len(),
            strategy == SortStrategy::Counting ==> forall|i: int|
                0 <= i < orig.len() ==> countable(#[trigger] orig[i]@),
            forall|i: int| 0 <= i < k ==> sorts(#[trigger] orig[i]@, chunks@[i]@),
            forall|i: int| k <= i < orig.len() ==> #[trigger] chunks@[i] == orig[i],
        decreases orig.len() - k,
    {
        sort_chunk(chunks[k].as_mut_slice(), strategy);
        k += 1;
    }
}

/// One round of the tree merge: adjacent chunks `(0, 1), (2, 3), ...` are merged in
/// pair order, and an unpaired last chunk passes through unchanged at the end.
pub open spec fn round_spec(cs: Seq<Seq<usize>>) -> Seq<Seq<usize>> {
    Seq::new(
        ((cs.len() + 1) / 2) as nat,
        |k: int|
            if 2 * k + 1 < cs.len() {
                merge_spec(cs[2 * k], cs[2 * k + 1])
            } else {
                cs[2 * k]
            },
    )
}

/// The chunk set after `r` rounds.
pub open spec fn after_rounds(cs: Seq<Seq<usize>>, r: nat) -> Seq<Seq<usize>>
    decreases r,
{
    if r == 0 {
        cs
    } else {
        round_spec(after_rounds(cs, (r - 1) as nat))
    }
}

/// How many chunks remain after `r` rounds that start from `n`.
pub open spec fn width_after(n: nat, r: nat) -> nat
    decreases r,
{
    if r == 0 {
        n
    } else {
        ((width_after(n, (r - 1) as nat) + 1) / 2) as nat
    }
}

/// How many rounds the tree merge of `n` chunks runs: none for one chunk, else one
/// more than for the half, rounded up.
pub open spec fn round_count(n: nat) -> nat
    decreases n,
{
    if n <= 1 {
        0
    } else {
        1 + round_count(((n + 1) / 2) as nat)
    }
}

/// Two to the power `k`.
pub open spec fn pow2(k: nat) -> nat
    decreases k,
{
    if k == 0 {
        1
    } else {
        2 * pow2((k - 1) as nat)
    }
}

/// The result of the tree merge: the one chunk left once all rounds have run.
pub open spec fn tree_merge_spec(cs: Seq<Seq<usize>>) -> Seq<usize> {
    after_rounds(cs, round_count(cs.len()))[0]
}

proof fn lemma_after_rounds_len(cs: Seq<Seq<usize>>, r: nat)
    ensures
        after_rounds(cs, r).len() == width_after(cs.len(), r),
    decreases r,
{
    if r > 0 {
        lemma_after_rounds_len(cs, (r - 1) as nat);
    }
}

proof fn lemma_width_shift(n: nat, r: nat)
    ensures
        width_after(n, r + 1) == width_after(((n + 1) / 2) as nat, r),
    decreases r,
{
    let m = ((n + 1) / 2) as nat;
    assert(width_after(n, r + 1) == ((width_after(n, r) + 1) / 2) as nat);
    if r > 0 {
        lemma_width_shift(n, (r - 1) as nat);
        assert(width_after(m, r) == ((width_after(m, (r - 1) as nat) + 1) / 2) as nat);
    } else {
        assert(width_after(n, 0) == n);
        assert(width_after(m, 0) == m);
    }
}

proof fn lemma_round_count_width(n: nat)
    requires
        n >= 1,
    ensures
        width_after(n, round_count(n)) == 1,
        forall|r: nat| r < round_count(n) ==> #[trigger] width_after(n, r) > 1,
        n <= pow2(round_count(n)),
        round_count(n) > 0 ==> pow2((round_count(n) - 1) as nat) < n,
    decreases n,
{
    if n > 1 {
        let m = ((n + 1) / 2) as nat;
        lemma_round_count_width(m);
        lemma_width_shift(n, round_count(m));
        assert forall|r: nat| r < round_count(n) implies #[trigger] width_after(n, r) > 1 by {
            if r > 0 {
                lemma_width_shift(n, (r - 1) as nat);
            }
        }
    }
}

/// The tree merge of `n >= 1` chunks runs exactly `ceil(log2(n))` rounds: after
/// `round_count(n)` rounds one chunk is left, before that more than one, and
/// `round_count(n)` is the least `k` with `n <= 2^k`.
pub proof fn lemma_tree_merge_round_count(cs: Seq<Seq<usize>>)
    requires
        cs.len() >= 1,
    ensures
        after_rounds(cs, round_count(cs.len())).len() == 1,
        forall|r: nat| r < round_count(cs.len()) ==> #[trigger] after_rounds(cs, r).len() > 1,
        cs.len() <= pow2(round_count(cs.len())),
        round_count(cs.len()) > 0 ==> pow2((round_count(cs.len()) - 1) as nat) < cs.len(),
{
    lemma_round_count_width(cs.len());
    lemma_after_rounds_len(cs, round_count(cs.len()));
    assert forall|r: nat| r < round_count(cs.len()) implies #[trigger] after_rounds(
        cs,
        r,
    ).len() > 1 by {
        lemma_after_rounds_len(cs, r);
    }
}

proof fn lemma_chunks_multiset_cons(x: Seq<usize>, rest: Seq<Seq<usize>>)
    ensures
        chunks_multiset(seq![x] + rest) == x.to_multiset().add(chunks_multiset(rest)),
{
    assert((seq![x] + rest).drop_first() =~= rest);
}

/// A round keeps every chunk sorted and loses and adds no element.
pub proof fn lemma_round_preserves(cs: Seq<Seq<usize>>)
    requires
        all_sorted(cs),
    ensures
        all_sorted(round_spec(cs)),
        chunks_multiset(round_spec(cs)) == chunks_multiset(cs),
    decreases cs.len(),
{
    broadcast use vstd::multiset::group_multiset_axioms;

    let r = round_spec(cs);
    assert forall|k: int| 0 <= k < r.len() implies #[trigger] sorted(r[k]) by {
        if 2 * k + 1 < cs.len() {
            assert(sorted(cs[2 * k]));
            assert(sorted(cs[2 * k + 1]));
            lemma_merge_sorted_permutation(cs[2 * k], cs[2 * k + 1]);
        } else {
            assert(sorted(cs[2 * k]));
        }
    }
    if cs.len() == 1 {
        assert(r =~= cs);
    } else if cs.len() == 0 {
        assert(r =~= cs);
    } else {
        let tail = cs.subrange(2, cs.len() as int);
        assert(all_sorted(tail)) by {
            assert forall|k: int| 0 <= k < tail.len() implies #[trigger] sorted(tail[k]) by {
                assert(sorted(cs[k + 2]));
            }
        }
        lemma_round_preserves(tail);
        assert(sorted(cs[0]));
        assert(sorted(cs[1]));
        lemma_merge_sorted_permutation(cs[0], cs[1]);
        let m = merge_spec(cs[0], cs[1]);
        assert(r =~= seq![m] + round_spec(tail));
        lemma_chunks_multiset_cons(m, round_spec(tail));
        assert(cs.drop_first().drop_first() =~= tail);
        assert(chunks_multiset(cs.drop_first()) == cs[1].to_multiset().add(
            chunks_multiset(tail),
        ));
        assert(chunks_multiset(cs) =~= cs[0].to_multiset().add(
            cs[1].to_multiset().add(chunks_multiset(tail)),
        ));
        assert(chunks_multiset(r) =~= chunks_multiset(cs));
    }
}

proof fn lemma_after_rounds_preserves(cs: Seq<Seq<usize>>, r: nat)
    requires
        all_sorted(cs),
    ensures
        all_sorted(after_rounds(cs, r)),
        chunks_multiset(after_rounds(cs, r)) == chunks_multiset(cs),
    decreases r,
{
    if r > 0 {
        lemma_after_rounds_preserves(cs, (r - 1) as nat);
        lemma_round_preserves(after_rounds(cs, (r - 1) as nat));
    }
}

/// The tree merge of sorted chunks is sorted and holds exactly their elements.
pub proof fn lemma_tree_merge_sorted_permutation(cs: Seq<Seq<usize>>)
    requires
        cs.len() >= 1,
        all_sorted(cs),
    ensures
        sorted(tree_merge_spec(cs)),
        tree_merge_spec(cs).to_multiset() == chunks_multiset(cs),
{
    broadcast use vstd::multiset::group_multiset_axioms;

    let last = after_rounds(cs, round_count(cs.len()));
    lemma_tree_merge_round_count(cs);
    lemma_after_rounds_preserves(cs, round_count(cs.len()));
    assert(sorted(last[0]));
    assert(last.drop_first() =~= Seq::<Seq<usize>>::empty());
    assert(chunks_multiset(last.drop_first()) == Multiset::<usize>::empty());
    assert(chunks_multiset(last) =~= last[0].to_multiset());
}

/// Builds the next round's chunk set from the merged pairs, in pair order, and
/// appends the unpaired last chunk, if any, unchanged.
pub fn next_chunk_set(merged: Vec<Vec<usize>>, chunks: &Vec<Vec<usize>>) -> (next: Vec<
    Vec<usize>,
>)
    requires
        merged.len() == chunks.len() / 2,
        forall|k: int|
            0 <= k < merged.len() ==> (#[trigger] merged@[k])@ == merge_spec(
                chunks@[2 * k]@,
                chunks@[2 * k + 1]@,
            ),
    ensures
        chunk_views(next@) == round_spec(chunk_views(chunks@)),
{
    let mut next = merged;
    let n = chunks.len();
    if n % 2 == 1 {
        let last = chunks[n - 1].clone();
        proof {
            assert(last@ =~= chunks@[n - 1]@);
        }
        next.push(last);
    }
    proof {
        assert(chunk_views(next@) =~= round_spec(chunk_views(chunks@)));
    }
    next
}

/// Runs one round of the tree merge: merges each adjacent pair of chunks.
pub fn merge_round(chunks: &Vec<Vec<usize>>) -> (next: Vec<Vec<usize>>)
    ensures
        chunk_views(next@) == round_spec(chunk_views(chunks@)),
{
    let pairs = chunks.len() / 2;
    let mut merged: Vec<Vec<usize>> = Vec::new();
    let mut k: usize = 0;
    while k < pairs
        invariant
            pairs == chunks.len() / 2,
            k <= pairs,
            merged.len() == k,
            forall|i: int|
                0 <= i < k ==> (#[trigger] merged@[i])@ == merge_spec(
                    chunks@[2 * i]@,
                    chunks@[2 * i + 1]@,
                ),
        decreases pairs - k,
    {
        let m = merge(chunks[2 * k].as_slice(), chunks[2 * k + 1].as_slice());
        merged.push(m);
        k += 1;
    }
    next_chunk_set(merged, chunks)
}

/// Merges sorted chunks round by round until one chunk is left, and returns it.
pub fn parallel_tree_based_merge(chunks: Vec<Vec<usize>>) -> (result: Vec<usize>)
    requires
        chunks.len() >= 1,
    ensures
        result@ == tree_merge_spec(chunk_views(chunks@)),
{
    let ghost cs = chunk_views(chunks@);
    let ghost mut r: nat = 0;
    let mut current = chunks;
    proof {
        lemma_tree_merge_round_count(cs);
    }
    while current.len() > 1
        invariant
            cs.len() >= 1,
            r <= round_count(cs.len()),
            chunk_views(current@) == after_rounds(cs, r),
            after_rounds(cs, round_count(cs.len())).len() == 1,
            forall|q: nat| q < round_count(cs.len()) ==> #[trigger] after_rounds(cs, q).len() > 1,
        decreases round_count(cs.len()) - r,
    {
        current = merge_round(&current);
        proof {
            r = r + 1;
        }
    }
    proof {
        if r < round_count(cs.len()) {
            assert(after_rounds(cs, r).len() > 1);
        }
    }
    current.remove(0)
}

proof fn lemma_chunks_multiset_pointwise(a: Seq<Seq<usize>>, b: Seq<Seq<usize>>)
    requires
        a.len() == b.len(),
        forall|k: int| 0 <= k < a.len() ==> (#[trigger] a[k]).to_multiset() == b[k].to_multiset(),
    ensures
        chunks_multiset(a) == chunks_multiset(b),
    decreases a.len(),
{
    if a.len() > 0 {
        let (ra, rb) = (a.drop_first(), b.drop_first());
        assert forall|k: int| 0 <= k < ra.len() implies (#[trigger] ra[k]).to_multiset()
            == rb[k].to_multiset() by {
            assert(a[k + 1].to_multiset() == b[k + 1].to_multiset());
        }
        lemma_chunks_multiset_pointwise(ra, rb);
        assert(a[0].to_multiset() == b[0].to_multiset());
    }
}

/// Sorts `input`: splits it into `thread_count` chunks, sorts each chunk with the
/// chosen strategy, then merges the chunks round by round into one.
pub fn chunked_sort(input: &Vec<usize>, thread_count: usize, strategy: SortStrategy) -> (result:
    Vec<usize>)
    requires
        thread_count > 0,
        strategy == SortStrategy::Counting ==> countable(input@),
    ensures
        sorts(input@, result@),
        input@.len() == 0 ==> result@.len() == 0,
{
    let mut chunks = partition(input, thread_count);
    let ghost parts = chunk_views(chunks@);
    proof {
        assert forall|k: int| 0 <= k < chunks.len() && countable(input@) implies countable(
            #[trigger] chunks@[k]@,
        ) by {
            assert(chunks@[k]@ == parts[k]);
            lemma_chunk_start_bounds(input.len() as nat, thread_count as nat, k);
            let lo = chunk_start(input.len() as nat, thread_count as nat, k);
            let hi = chunk_start(input.len() as nat, thread_count as nat, k + 1);
            assert(parts.len() == thread_count);
            assert(parts[k] == partition_spec(input@, thread_count as nat)[k]);
            assert(parts[k] == input@.subrange(lo, hi));
            assert forall|i: int| 0 <= i < parts[k].len() implies parts[k][i] < usize::MAX by {
                assert(parts[k][i] == input@[lo + i]);
            }
        }
    }
    local_sort_phase(&mut chunks, strategy);
    proof {
        let now = chunk_views(chunks@);
        assert forall|k: int| 0 <= k < now.len() implies #[trigger] sorted(now[k]) by {
            assert(sorts(parts[k], now[k]));
        }
        assert forall|k: int| 0 <= k < now.len() implies (#[trigger] now[k]).to_multiset()
            == parts[k].to_multiset() by {
            assert(sorts(parts[k], now[k]));
        }
        lemma_chunks_multiset_pointwise(now, parts);
        lemma_partition_multiset(input@, thread_count as nat);
        lemma_tree_merge_sorted_permutation(now);
    }
    let result = parallel_tree_based_merge(chunks);
    proof {
        broadcast use vstd::seq_lib::group_to_multiset_ensures;

        assert(result@.len() == result@.to_multiset().len());
        assert(input@.len() == input@.to_multiset().len());
    }
    result
}

} // verus!
