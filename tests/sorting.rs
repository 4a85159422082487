use tree_sort::{
    chunked_sort, counting_sort, local_sort_phase, merge, merge_round, next_chunk_set,
    parallel_tree_based_merge, partition, radix_sort, sort_chunk, stable_counting_pass,
    SortStrategy,
};

fn is_sorted(v: &[usize]) -> bool {
    v.windows(2).all(|w| w[0] <= w[1])
}

fn same_elements(a: &[usize], b: &[usize]) -> bool {
    let mut x = a.to_vec();
    let mut y = b.to_vec();
    x.sort();
    y.sort();
    x == y
}

#[test]
fn single_chunk_sorts_whole_input() {
    for strategy in [SortStrategy::Counting, SortStrategy::Radix] {
        let input = vec![5, 3, 8, 3, 1];
        assert_eq!(chunked_sort(&input, 1, strategy), vec![1, 3, 3, 5, 8]);
    }
}

#[test]
fn five_chunks_round_by_round() {
    let input = vec![9, 7, 5, 3, 1, 2, 4, 6, 8, 0];
    let mut chunks = partition(&input, 5);
    assert_eq!(chunks, vec![vec![9, 7], vec![5, 3], vec![1, 2], vec![4, 6], vec![8, 0]]);
    local_sort_phase(&mut chunks, SortStrategy::Counting);
    assert_eq!(chunks, vec![vec![7, 9], vec![3, 5], vec![1, 2], vec![4, 6], vec![0, 8]]);
    let round1 = merge_round(&chunks);
    assert_eq!(round1, vec![vec![3, 5, 7, 9], vec![1, 2, 4, 6], vec![0, 8]]);
    let round2 = merge_round(&round1);
    assert_eq!(round2, vec![vec![1, 2, 3, 4, 5, 6, 7, 9], vec![0, 8]]);
    let round3 = merge_round(&round2);
    assert_eq!(round3, vec![vec![0, 1, 2, 3, 4, 5, 6, 7, 8, 9]]);
    assert_eq!(parallel_tree_based_merge(chunks), vec![0, 1, 2, 3, 4, 5, 6, 7, 8, 9]);
    assert_eq!(chunked_sort(&input, 5, SortStrategy::Radix), vec![0, 1, 2, 3, 4, 5, 6, 7, 8, 9]);
}

#[test]
fn empty_input_gives_empty_output() {
    let input: Vec<usize> = vec![];
    assert_eq!(chunked_sort(&input, 4, SortStrategy::Counting), Vec::<usize>::new());
    assert_eq!(chunked_sort(&input, 4, SortStrategy::Radix), Vec::<usize>::new());
    assert_eq!(partition(&input, 4), vec![Vec::<usize>::new(); 4]);
}

#[test]
fn equal_elements_survive() {
    let input = vec![1, 1, 1, 1];
    assert_eq!(chunked_sort(&input, 2, SortStrategy::Counting), vec![1, 1, 1, 1]);
    assert_eq!(chunked_sort(&input, 2, SortStrategy::Radix), vec![1, 1, 1, 1]);
}

#[test]
fn partition_remainder_goes_last() {
    let input = vec![1, 2, 3, 4, 5, 6, 7, 8, 9, 10];
    assert_eq!(
        partition(&input, 4),
        vec![vec![1, 2, 3], vec![4, 5, 6], vec![7, 8, 9], vec![10]]
    );
    let short = vec![1, 2, 3, 4, 5];
    assert_eq!(partition(&short, 4), vec![vec![1, 2], vec![3, 4], vec![5], vec![]]);
}

#[test]
fn fewer_elements_than_chunks() {
    let input = vec![4, 2];
    assert_eq!(partition(&input, 4), vec![vec![4], vec![2], vec![], vec![]]);
    assert_eq!(chunked_sort(&input, 4, SortStrategy::Counting), vec![2, 4]);
    assert_eq!(chunked_sort(&input, 7, SortStrategy::Radix), vec![2, 4]);
}

#[test]
fn counting_sort_orders_values() {
    let mut v = vec![3, 0, 7, 3, 2, 9, 0];
    counting_sort(&mut v);
    assert_eq!(v, vec![0, 0, 2, 3, 3, 7, 9]);
    let mut e: Vec<usize> = vec![];
    counting_sort(&mut e);
    assert!(e.is_empty());
}

#[test]
fn radix_sort_orders_values_of_many_digits() {
    let mut v = vec![170, 45, 75, 90, 802, 24, 2, 66, 100000, 0];
    radix_sort(&mut v);
    assert_eq!(v, vec![0, 2, 24, 45, 66, 75, 90, 170, 802, 100000]);
    let mut big = vec![usize::MAX, 1, usize::MAX - 1, 10];
    radix_sort(&mut big);
    assert_eq!(big, vec![1, 10, usize::MAX - 1, usize::MAX]);
}

#[test]
fn sorting_a_sorted_chunk_changes_nothing() {
    for strategy in [SortStrategy::Counting, SortStrategy::Radix] {
        let sorted = vec![0, 1, 1, 4, 9, 12, 12, 300];
        let mut v = sorted.clone();
        sort_chunk(&mut v, strategy);
        assert_eq!(v, sorted);
        sort_chunk(&mut v, strategy);
        assert_eq!(v, sorted);
    }
}

#[test]
fn merge_interleaves_sorted_inputs() {
    assert_eq!(merge(&[1, 4, 6], &[2, 3, 6, 10]), vec![1, 2, 3, 4, 6, 6, 10]);
    assert_eq!(merge(&[], &[2, 3]), vec![2, 3]);
    assert_eq!(merge(&[5, 7], &[]), vec![5, 7]);
    assert_eq!(merge(&[], &[]), Vec::<usize>::new());
}

#[test]
fn merge_keeps_length_and_elements() {
    let a = vec![0, 3, 3, 8, 20];
    let b = vec![1, 3, 9];
    let m = merge(&a, &b);
    assert_eq!(m.len(), a.len() + b.len());
    assert!(is_sorted(&m));
    let mut both = a.clone();
    both.extend_from_slice(&b);
    assert!(same_elements(&m, &both));
}

#[test]
fn stable_pass_groups_by_digit_in_input_order() {
    let mut v = vec![21, 13, 11, 32, 23, 10];
    stable_counting_pass(&mut v, 1, 10);
    assert_eq!(v, vec![10, 21, 11, 32, 13, 23]);
    stable_counting_pass(&mut v, 10, 10);
    assert_eq!(v, vec![10, 11, 13, 21, 23, 32]);
}

#[test]
fn odd_chunk_passes_through_round() {
    let chunks = vec![vec![2, 5], vec![1, 9], vec![3]];
    let merged = vec![merge(&chunks[0], &chunks[1])];
    assert_eq!(next_chunk_set(merged, &chunks), vec![vec![1, 2, 5, 9], vec![3]]);
    assert_eq!(merge_round(&chunks), vec![vec![1, 2, 5, 9], vec![3]]);
}

#[test]
fn round_count_matches_ceil_log2() {
    for (n, expected) in [(1usize, 0usize), (2, 1), (3, 2), (4, 2), (5, 3), (8, 3), (9, 4)] {
        let mut chunks: Vec<Vec<usize>> = (0..n).map(|i| vec![i]).collect();
        let mut rounds = 0;
        while chunks.len() > 1 {
            chunks = merge_round(&chunks);
            rounds += 1;
        }
        assert_eq!(rounds, expected);
        assert_eq!(chunks.len(), 1);
        let all: Vec<usize> = (0..n).collect();
        assert_eq!(chunks[0], all);
    }
}

#[test]
fn sorted_permutation_for_many_inputs() {
    let mut seed: u64 = 12345;
    for len in 0..40usize {
        let input: Vec<usize> = (0..len)
            .map(|_| {
                seed = seed.wrapping_mul(6364136223846793005).wrapping_add(1442695040888963407);
                ((seed >> 33) % 1000) as usize
            })
            .collect();
        for threads in 1..6usize {
            for strategy in [SortStrategy::Counting, SortStrategy::Radix] {
                let out = chunked_sort(&input, threads, strategy);
                assert!(is_sorted(&out));
                assert!(same_elements(&out, &input));
            }
        }
    }
}
