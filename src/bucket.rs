use vstd::multiset::Multiset;
use vstd::prelude::*;

use crate::order::sorted_mod;

verus! {

/// The digit that a counting pass keys element `x` on: `(x / divisor) % radix`.
pub open spec fn key(x: usize, divisor: usize, radix: usize) -> int {
    (x as int / divisor as int) % (radix as int)
}

/// The elements of `s` whose key is `v`, in their order in `s`.
pub open spec fn bucket(s: Seq<usize>, divisor: usize, radix: usize, v: int) -> Seq<usize>
    decreases s.len(),
{
    if s.len() == 0 {
        seq![]
    } else {
        let rest = bucket(s.drop_last(), divisor, radix, v);
        if key(s.last(), divisor, radix) == v {
            rest.push(s.last())
        } else {
            rest
        }
    }
}

/// The buckets of keys `0 .. n`, one after another.
pub open spec fn buckets(s: Seq<usize>, divisor: usize, radix: usize, n: nat) -> Seq<usize>
    decreases n,
{
    if n == 0 {
        seq![]
    } else {
        buckets(s, divisor, radix, (n - 1) as nat) + bucket(s, divisor, radix, n - 1)
    }
}

/// A stable counting pass over `s`: its elements grouped by key, in order of key,
/// each group in the order of `s`.
pub open spec fn stable_by_key(s: Seq<usize>, divisor: usize, radix: usize) -> Seq<usize> {
    buckets(s, divisor, radix, radix as nat)
}

proof fn lemma_bucket_keys(s: Seq<usize>, divisor: usize, radix: usize, v: int)
    ensures
        bucket(s, divisor, radix, v).len() <= s.len(),
        forall|j: int|
            0 <= j < bucket(s, divisor, radix, v).len() ==> key(
                #[trigger] bucket(s, divisor, radix, v)[j],
                divisor,
                radix,
            ) == v,
    decreases s.len(),
{
    if s.len() > 0 {
        lemma_bucket_keys(s.drop_last(), divisor, radix, v);
    }
}

/// The bucket of a prefix of `s` is a prefix of the bucket of `s`.
proof fn lemma_bucket_prefix(s: Seq<usize>, i: int, divisor: usize, radix: usize, v: int)
    requires
        0 <= i <= s.len(),
    ensures
        bucket(s.take(i), divisor, radix, v).len() <= bucket(s, divisor, radix, v).len(),
        forall|j: int|
            0 <= j < bucket(s.take(i), divisor, radix, v).len() ==> bucket(
                s,
                divisor,
                radix,
                v,
            )[j] == #[trigger] bucket(s.take(i), divisor, radix, v)[j],
    decreases s.len(),
{
    if i == s.len() {
        assert(s.take(i) =~= s);
    } else {
        let t = s.drop_last();
        assert(s.take(i) =~= t.take(i));
        lemma_bucket_prefix(t, i, divisor, radix, v);
    }
}

/// Taking one more element of `s` extends the bucket of its key by that element.
proof fn lemma_bucket_take_step(s: Seq<usize>, i: int, divisor: usize, radix: usize)
    requires
        0 < i <= s.len(),
    ensures
        forall|v: int|
            #[trigger] bucket(s.take(i), divisor, radix, v) == if key(s[i - 1], divisor, radix)
                == v {
                bucket(s.take(i - 1), divisor, radix, v).push(s[i - 1])
            } else {
                bucket(s.take(i - 1), divisor, radix, v)
            },
{
    assert(s.take(i).drop_last() =~= s.take(i - 1));
}

proof fn lemma_buckets_split(s: Seq<usize>, divisor: usize, radix: usize, n: nat)
    ensures
        buckets(s, divisor, radix, n + 1) == buckets(s, divisor, radix, n) + bucket(
            s,
            divisor,
            radix,
            n as int,
        ),
{
}

proof fn lemma_buckets_monotone(s: Seq<usize>, divisor: usize, radix: usize, v: nat, w: nat)
    requires
        v <= w,
    ensures
        buckets(s, divisor, radix, v).len() <= buckets(s, divisor, radix, w).len(),
    decreases w,
{
    if v < w {
        lemma_buckets_monotone(s, divisor, radix, v, (w - 1) as nat);
    }
}

/// Where the bucket of key `v` stands inside the concatenation of buckets `0 .. n`.
proof fn lemma_buckets_index(
    s: Seq<usize>,
    divisor: usize,
    radix: usize,
    n: nat,
    v: int,
    j: int,
)
    requires
        0 <= v < n,
        0 <= j < bucket(s, divisor, radix, v).len(),
    ensures
        buckets(s, divisor, radix, v as nat).len() + j < buckets(s, divisor, radix, n).len(),
        buckets(s, divisor, radix, n)[buckets(s, divisor, radix, v as nat).len() + j] == bucket(
            s,
            divisor,
            radix,
            v,
        )[j],
    decreases n,
{
    if v < n - 1 {
        lemma_buckets_index(s, divisor, radix, (n - 1) as nat, v, j);
    }
}

/// Each position of the concatenation of buckets `0 .. n` lies in the bucket of some key.
proof fn lemma_buckets_locate(s: Seq<usize>, divisor: usize, radix: usize, n: nat, p: int) -> (v:
    nat)
    requires
        0 <= p < buckets(s, divisor, radix, n).len(),
    ensures
        v < n,
        buckets(s, divisor, radix, v).len() <= p < buckets(s, divisor, radix, v).len() + bucket(
            s,
            divisor,
            radix,
            v as int,
        ).len(),
    decreases n,
{
    let m = (n - 1) as nat;
    if p >= buckets(s, divisor, radix, m).len() {
        m
    } else {
        lemma_buckets_locate(s, divisor, radix, m, p)
    }
}

proof fn lemma_buckets_push_multiset(
    s: Seq<usize>,
    x: usize,
    divisor: usize,
    radix: usize,
    n: nat,
)
    requires
        radix > 0,
    ensures
        buckets(s.push(x), divisor, radix, n).to_multiset() =~= if key(x, divisor, radix) < n {
            buckets(s, divisor, radix, n).to_multiset().insert(x)
        } else {
            buckets(s, divisor, radix, n).to_multiset()
        },
    decreases n,
{
    broadcast use vstd::seq_lib::group_to_multiset_ensures;
    broadcast use vstd::seq_lib::lemma_multiset_commutative;
    broadcast use vstd::multiset::group_multiset_axioms;

    assert(key(x, divisor, radix) >= 0) by (nonlinear_arith)
        requires
            radix > 0,
    ;
    if n > 0 {
        let m = (n - 1) as nat;
        lemma_buckets_push_multiset(s, x, divisor, radix, m);
        assert(s.push(x).drop_last() =~= s);
        let b = bucket(s, divisor, radix, m as int);
        assert(buckets(s.push(x), divisor, radix, n).to_multiset() =~= buckets(
            s.push(x),
            divisor,
            radix,
            m,
        ).to_multiset().add(bucket(s.push(x), divisor, radix, m as int).to_multiset()));
        assert(buckets(s, divisor, radix, n).to_multiset() =~= buckets(
            s,
            divisor,
            radix,
            m,
        ).to_multiset().add(b.to_multiset()));
        let prev = buckets(s, divisor, radix, m).to_multiset();
        if key(x, divisor, radix) == m {
            assert(bucket(s.push(x), divisor, radix, m as int) == b.push(x));
            assert(b.push(x).to_multiset() =~= b.to_multiset().insert(x));
            assert(prev.add(b.to_multiset().insert(x)) =~= prev.add(b.to_multiset()).insert(x));
        } else {
            assert(bucket(s.push(x), divisor, radix, m as int) == b);
            if key(x, divisor, radix) < m {
                assert(prev.insert(x).add(b.to_multiset()) =~= prev.add(b.to_multiset()).insert(
                    x,
                ));
            }
        }
    }
}

/// A counting pass loses and adds no element.
pub proof fn lemma_stable_by_key_permutation(s: Seq<usize>, divisor: usize, radix: usize)
    requires
        divisor > 0,
        radix > 0,
    ensures
        stable_by_key(s, divisor, radix).to_multiset() == s.to_multiset(),
        stable_by_key(s, divisor, radix).len() == s.len(),
    decreases s.len(),
{
    broadcast use vstd::seq_lib::group_to_multiset_ensures;

    if s.len() == 0 {
        lemma_buckets_empty(s, divisor, radix, radix as nat);
        assert(s.to_multiset() =~= Multiset::empty());
    } else {
        let t = s.drop_last();
        lemma_stable_by_key_permutation(t, divisor, radix);
        assert(t.push(s.last()) =~= s);
        assert(key(s.last(), divisor, radix) < radix) by (nonlinear_arith)
            requires
                radix > 0,
                divisor > 0,
        ;
        lemma_buckets_push_multiset(t, s.last(), divisor, radix, radix as nat);
    }
    assert(stable_by_key(s, divisor, radix).len() == stable_by_key(
        s,
        divisor,
        radix,
    ).to_multiset().len());
}

proof fn lemma_buckets_empty(s: Seq<usize>, divisor: usize, radix: usize, n: nat)
    requires
        s.len() == 0,
    ensures
        buckets(s, divisor, radix, n) == Seq::<usize>::empty(),
    decreases n,
{
    if n > 0 {
        lemma_buckets_empty(s, divisor, radix, (n - 1) as nat);
        assert(buckets(s, divisor, radix, n) =~= Seq::<usize>::empty());
    }
}

/// A counting pass orders its output by key.
pub proof fn lemma_stable_by_key_ordered(
    s: Seq<usize>,
    divisor: usize,
    radix: usize,
    p: int,
    q: int,
)
    requires
        0 <= p < q < stable_by_key(s, divisor, radix).len(),
    ensures
        key(stable_by_key(s, divisor, radix)[p], divisor, radix) <= key(
            stable_by_key(s, divisor, radix)[q],
            divisor,
            radix,
        ),
{
    let n = radix as nat;
    let r = stable_by_key(s, divisor, radix);
    let v = lemma_buckets_locate(s, divisor, radix, n, p);
    let w = lemma_buckets_locate(s, divisor, radix, n, q);
    let bv = buckets(s, divisor, radix, v).len();
    let bw = buckets(s, divisor, radix, w).len();
    lemma_buckets_index(s, divisor, radix, n, v as int, p - bv);
    lemma_buckets_index(s, divisor, radix, n, w as int, q - bw);
    lemma_bucket_keys(s, divisor, radix, v as int);
    lemma_bucket_keys(s, divisor, radix, w as int);
    if w < v {
        lemma_buckets_split(s, divisor, radix, w);
        lemma_buckets_monotone(s, divisor, radix, w + 1, v);
    }
}

/// A bucket of a sequence ordered by remainder modulo `md` keeps that order, and
/// none of its elements exceeds the last element of the sequence in that order.
proof fn lemma_bucket_sorted_mod(s: Seq<usize>, divisor: usize, radix: usize, v: int, md: int)
    requires
        md > 0,
        sorted_mod(s, md),
    ensures
        sorted_mod(bucket(s, divisor, radix, v), md),
        s.len() > 0 ==> forall|j: int|
            0 <= j < bucket(s, divisor, radix, v).len() ==> #[trigger] bucket(
                s,
                divisor,
                radix,
                v,
            )[j] as int % md <= s.last() as int % md,
    decreases s.len(),
{
    if s.len() > 0 {
        let t = s.drop_last();
        assert(sorted_mod(t, md));
        lemma_bucket_sorted_mod(t, divisor, radix, v, md);
        if t.len() > 0 {
            assert(t.last() as int % md <= s.last() as int % md);
        }
    }
}

/// A decimal digit pass on a sequence ordered by the value of its lower digits
/// (remainder modulo `divisor`) orders it by one more digit.
pub proof fn lemma_digit_pass_sorted(s: Seq<usize>, divisor: usize)
    requires
        divisor > 0,
        sorted_mod(s, divisor as int),
    ensures
        sorted_mod(stable_by_key(s, divisor, 10), divisor as int * 10),
{
    let r = stable_by_key(s, divisor, 10);
    let d = divisor as int;
    assert forall|p: int, q: int| 0 <= p < q < r.len() implies r[p] as int % (d * 10) <= r[
        q
    ] as int % (d * 10) by {
        lemma_stable_by_key_ordered(s, divisor, 10, p, q);
        vstd::arithmetic::div_mod::lemma_mod_breakdown(r[p] as int, d, 10);
        vstd::arithmetic::div_mod::lemma_mod_breakdown(r[q] as int, d, 10);
        let kp = key(r[p], divisor, 10);
        let kq = key(r[q], divisor, 10);
        let lp = r[p] as int % d;
        let lq = r[q] as int % d;
        assert(0 <= lp < d && 0 <= lq) by (nonlinear_arith)
            requires
                d > 0,
                lp == r[p] as int % d,
                lq == r[q] as int % d,
        ;
        if kp < kq {
            assert(d * kp + lp <= d * kq + lq) by (nonlinear_arith)
                requires
                    kp < kq,
                    0 <= lp < d,
                    0 <= lq,
            ;
        } else {
            let v = lemma_buckets_locate(s, divisor, 10, 10, p);
            let w = lemma_buckets_locate(s, divisor, 10, 10, q);
            let bv = buckets(s, divisor, 10, v).len();
            let bw = buckets(s, divisor, 10, w).len();
            lemma_buckets_index(s, divisor, 10, 10, v as int, p - bv);
            lemma_buckets_index(s, divisor, 10, 10, w as int, q - bw);
            lemma_bucket_keys(s, divisor, 10, v as int);
            lemma_bucket_keys(s, divisor, 10, w as int);
            assert(v == w);
            lemma_bucket_sorted_mod(s, divisor, 10, v as int, d);
            assert(lp <= lq);
        }
    }
}

/// One stable counting pass keyed on `(x / divisor) % radix`: counts the keys,
/// turns the counts into prefix sums, then walks the input backwards and writes
/// each element into the last free slot of its key.
pub fn stable_counting_pass(arr: &mut [usize], divisor: usize, radix: usize)
    requires
        divisor > 0,
        radix > 0,
    ensures
        final(arr)@ == stable_by_key(old(arr)@, divisor, radix),
{
    let ghost s = arr@;
    let n = arr.len();
    let mut count: Vec<usize> = vec![0; radix];
    let mut output: Vec<usize> = vec![0; n];
    proof {
        lemma_stable_by_key_permutation(s, divisor, radix);
        assert(s.take(0) =~= Seq::<usize>::empty());
    }
    let mut i: usize = 0;
    while i < n
        invariant
            arr@ == s,
            n == s.len(),
            i <= n,
            count.len() == radix,
            divisor > 0,
            radix > 0,
            forall|v: int|
                0 <= v < radix ==> #[trigger] count@[v] == bucket(
                    s.take(i as int),
                    divisor,
                    radix,
                    v,
                ).len(),
        decreases n - i,
    {
        let k = (arr[i] / divisor) % radix;
        proof {
            lemma_bucket_take_step(s, i + 1, divisor, radix);
            lemma_bucket_keys(s.take(i as int), divisor, radix, k as int);
        }
        count.set(k, count[k] + 1);
        i += 1;
    }
    proof {
        assert(s.take(n as int) =~= s);
        lemma_buckets_split(s, divisor, radix, 0);
    }
    let mut v: usize = 1;
    while v < radix
        invariant
            count.len() == radix,
            1 <= v <= radix,
            n == s.len(),
            stable_by_key(s, divisor, radix).len() == n,
            forall|u: int|
                0 <= u < v ==> #[trigger] count@[u] == buckets(
                    s,
                    divisor,
                    radix,
                    (u + 1) as nat,
                ).len(),
            forall|u: int|
                v <= u < radix ==> #[trigger] count@[u] == bucket(s, divisor, radix, u).len(),
        decreases radix - v,
    {
        proof {
            lemma_buckets_split(s, divisor, radix, v as nat);
            lemma_buckets_monotone(s, divisor, radix, (v + 1) as nat, radix as nat);
        }
        count.set(v, count[v] + count[v - 1]);
        v += 1;
    }
    let mut i: usize = n;
    proof {
        assert forall|u: int| 0 <= u < radix implies #[trigger] count@[u] == buckets(
            s,
            divisor,
            radix,
            u as nat,
        ).len() + bucket(s.take(n as int), divisor, radix, u).len() by {
            lemma_buckets_split(s, divisor, radix, u as nat);
        }
    }
    while i > 0
        invariant
            arr@ == s,
            n == s.len(),
            i <= n,
            count.len() == radix,
            output.len() == n,
            divisor > 0,
            radix > 0,
            stable_by_key(s, divisor, radix).len() == n,
            forall|u: int|
                0 <= u < radix ==> #[trigger] count@[u] == buckets(
                    s,
                    divisor,
                    radix,
                    u as nat,
                ).len() + bucket(s.take(i as int), divisor, radix, u).len(),
            forall|u: int, j: int|
                0 <= u < radix && bucket(s.take(i as int), divisor, radix, u).len() <= j
                    < bucket(s, divisor, radix, u).len() ==> output@[buckets(
                    s,
                    divisor,
                    radix,
                    u as nat,
                ).len() + j] == #[trigger] bucket(s, divisor, radix, u)[j],
        decreases i,
    {
        let x = arr[i - 1];
        let k = (x / divisor) % radix;
        let ghost old_output = output@;
        let ghost jk = bucket(s.take(i - 1), divisor, radix, k as int).len();
        let ghost base = buckets(s, divisor, radix, k as nat).len();
        proof {
            lemma_bucket_take_step(s, i as int, divisor, radix);
            lemma_bucket_prefix(s, i as int, divisor, radix, k as int);
            lemma_buckets_split(s, divisor, radix, k as nat);
            lemma_buckets_monotone(s, divisor, radix, (k + 1) as nat, radix as nat);
            assert(key(x, divisor, radix) == k as int);
            assert(bucket(s.take(i as int), divisor, radix, k as int) == bucket(
                s.take(i - 1),
                divisor,
                radix,
                k as int,
            ).push(x));
            assert(bucket(s.take(i as int), divisor, radix, k as int)[jk as int] == x);
            assert(bucket(s, divisor, radix, k as int)[jk as int] == x);
        }
        let pos = count[k] - 1;
        output.set(pos, x);
        count.set(k, pos);
        i -= 1;
        proof {
            assert forall|u: int, j: int|
                0 <= u < radix && bucket(s.take(i as int), divisor, radix, u).len() <= j
                    < bucket(s, divisor, radix, u).len() implies output@[buckets(
                s,
                divisor,
                radix,
                u as nat,
            ).len() + j] == #[trigger] bucket(s, divisor, radix, u)[j] by {
                lemma_buckets_index(s, divisor, radix, radix as nat, u, j);
                if u == k {
                    if j == jk {
                        assert(output@[base + j] == x);
                    } else {
                        assert(old_output[base + j] == bucket(s, divisor, radix, u)[j]);
                        assert(base + j != pos);
                    }
                } else {
                    assert(bucket(s.take(i + 1), divisor, radix, u) == bucket(
                        s.take(i as int),
                        divisor,
                        radix,
                        u,
                    ));
                    let at = buckets(s, divisor, radix, u as nat).len() + j;
                    if u < k {
                        lemma_buckets_split(s, divisor, radix, u as nat);
                        lemma_buckets_monotone(s, divisor, radix, (u + 1) as nat, k as nat);
                    } else {
                        lemma_buckets_monotone(s, divisor, radix, (k + 1) as nat, u as nat);
                    }
                    assert(at != pos);
                    assert(old_output[at] == bucket(s, divisor, radix, u)[j]);
                }
            }
        }
    }
    proof {
        assert(s.take(0) =~= Seq::<usize>::empty());
        assert forall|p: int| 0 <= p < n implies output@[p] == stable_by_key(
            s,
            divisor,
            radix,
        )[p] by {
            let u = lemma_buckets_locate(s, divisor, radix, radix as nat, p);
            let j = p - buckets(s, divisor, radix, u).len();
            lemma_buckets_index(s, divisor, radix, radix as nat, u as int, j);
            assert(bucket(s.take(0), divisor, radix, u as int).len() == 0);
        }
        assert(output@ =~= stable_by_key(s, divisor, radix));
    }
    let mut p: usize = 0;
    while p < n
        invariant
            arr@.len() == n,
            output@.len() == n,
            p <= n,
            forall|j: int| 0 <= j < p ==> arr@[j] == output@[j],
        decreases n - p,
    {
        arr[p] = output[p];
        p += 1;
    }
    proof {
        assert(arr@ =~= output@);
    }
}

} // verus!
