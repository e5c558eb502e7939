use simple_parallel_compute::{
    chunk_size, join_outcomes, join_parts, map_chunk, partition, runs_inline, split_chunks,
    THRESHOLD,
};

#[test]
fn threshold_is_five() {
    assert_eq!(THRESHOLD, 5);
}

#[test]
fn runs_inline_below_the_threshold_only() {
    assert!(runs_inline(0));
    assert!(runs_inline(1));
    assert!(runs_inline(4));
    assert!(!runs_inline(5));
    assert!(!runs_inline(6));
    assert!(!runs_inline(usize::MAX));
}

#[test]
fn chunk_size_rounds_up() {
    assert_eq!(chunk_size(10, 4), 3);
    assert_eq!(chunk_size(10, 5), 2);
    assert_eq!(chunk_size(10, 3), 4);
    assert_eq!(chunk_size(5, 1), 5);
    assert_eq!(chunk_size(5, 8), 1);
    assert_eq!(chunk_size(1000, 16), 63);
    assert_eq!(chunk_size(1000, 8), 125);
    assert_eq!(chunk_size(1, 1), 1);
}

#[test]
fn chunk_size_of_nothing_is_zero() {
    assert_eq!(chunk_size(0, 1), 0);
    assert_eq!(chunk_size(0, 12), 0);
}

#[test]
fn chunk_size_at_the_machine_limit() {
    assert_eq!(chunk_size(usize::MAX, 1), usize::MAX);
    assert_eq!(chunk_size(usize::MAX, 2), usize::MAX / 2 + 1);
    assert_eq!(chunk_size(usize::MAX, usize::MAX), 1);
    assert_eq!(chunk_size(usize::MAX - 1, usize::MAX), 1);
}

#[test]
fn chunk_size_is_the_least_that_covers() {
    for n in 0..200usize {
        for p in 1..40usize {
            let size = chunk_size(n, p);
            assert!(size * p >= n);
            if n > 0 {
                assert!((size - 1) * p < n);
            }
        }
    }
}

#[test]
fn split_chunks_cuts_in_order() {
    let chunks = split_chunks(vec![1, 2, 3, 4, 5, 6, 7, 8, 9, 10], 3);
    assert_eq!(chunks, vec![vec![1, 2, 3], vec![4, 5, 6], vec![7, 8, 9], vec![10]]);
}

#[test]
fn split_chunks_with_an_exact_fit() {
    let chunks = split_chunks(vec!['a', 'b', 'c', 'd'], 2);
    assert_eq!(chunks, vec![vec!['a', 'b'], vec!['c', 'd']]);
}

#[test]
fn split_chunks_with_a_size_of_the_whole_or_more() {
    assert_eq!(split_chunks(vec![1, 2, 3], 3), vec![vec![1, 2, 3]]);
    assert_eq!(split_chunks(vec![1, 2, 3], 100), vec![vec![1, 2, 3]]);
}

#[test]
fn split_chunks_of_one_item_each() {
    assert_eq!(split_chunks(vec![7, 8, 9], 1), vec![vec![7], vec![8], vec![9]]);
}

#[test]
fn split_chunks_of_nothing_gives_no_chunk() {
    let chunks: Vec<Vec<u8>> = split_chunks(Vec::new(), 4);
    assert!(chunks.is_empty());
}

#[test]
fn partition_spreads_over_the_workers() {
    let chunks = partition(vec![1, 2, 3, 4, 5, 6, 7, 8, 9, 10], 4);
    assert_eq!(chunks, vec![vec![1, 2, 3], vec![4, 5, 6], vec![7, 8, 9], vec![10]]);
}

#[test]
fn partition_may_need_fewer_workers_than_there_are() {
    let chunks = partition(vec![1, 2, 3, 4, 5, 6, 7, 8, 9], 4);
    assert_eq!(chunks, vec![vec![1, 2, 3], vec![4, 5, 6], vec![7, 8, 9]]);
    let chunks = partition(vec![1, 2, 3, 4, 5], 8);
    assert_eq!(chunks, vec![vec![1], vec![2], vec![3], vec![4], vec![5]]);
}

#[test]
fn partition_for_one_worker_is_one_chunk() {
    assert_eq!(partition(vec![1, 2, 3, 4, 5], 1), vec![vec![1, 2, 3, 4, 5]]);
}

#[test]
fn partition_of_nothing_gives_no_chunk() {
    let chunks: Vec<Vec<i32>> = partition(Vec::new(), 3);
    assert!(chunks.is_empty());
}

#[test]
fn partition_never_exceeds_the_chunk_size_or_the_worker_count() {
    for n in 0..150usize {
        for p in 1..33usize {
            let input: Vec<usize> = (0..n).collect();
            let chunks = partition(input.clone(), p);
            let size = (n + p - 1) / p;
            assert!(chunks.len() <= p);
            for (k, chunk) in chunks.iter().enumerate() {
                assert!(!chunk.is_empty());
                assert!(chunk.len() <= size);
                if k + 1 < chunks.len() {
                    assert_eq!(chunk.len(), size);
                }
            }
            assert_eq!(chunks.concat(), input);
        }
    }
}

#[test]
fn map_chunk_applies_in_order() {
    assert_eq!(map_chunk(vec![1, 2, 3], &|x| x * 2), vec![2, 4, 6]);
    assert_eq!(map_chunk(vec![3, 2, 1], &|x: i32| x.to_string()), vec!["3", "2", "1"]);
}

#[test]
fn map_chunk_of_nothing_is_nothing() {
    let out: Vec<u8> = map_chunk(Vec::<u8>::new(), &|x| x + 1);
    assert!(out.is_empty());
}

#[test]
fn join_parts_keeps_the_order_of_the_parts() {
    let joined = join_parts(vec![vec![1, 2], vec![], vec![3], vec![4, 5, 6]]);
    assert_eq!(joined, vec![1, 2, 3, 4, 5, 6]);
}

#[test]
fn join_parts_of_nothing_is_nothing() {
    let joined: Vec<u8> = join_parts(Vec::new());
    assert!(joined.is_empty());
    let joined: Vec<u8> = join_parts(vec![vec![], vec![]]);
    assert!(joined.is_empty());
}

#[test]
fn parts_mapped_apart_join_to_the_map_of_the_whole() {
    for size in 1..12usize {
        let input: Vec<u32> = (0..10).collect();
        let expected: Vec<u32> = input.iter().map(|x| x * x).collect();
        let parts: Vec<Vec<u32>> = split_chunks(input, size)
            .into_iter()
            .rev()
            .map(|chunk| map_chunk(chunk, &|x| x * x))
            .collect::<Vec<_>>()
            .into_iter()
            .rev()
            .collect();
        assert_eq!(join_parts(parts), expected);
    }
}

#[test]
fn join_outcomes_joins_where_no_worker_failed() {
    let outcomes: Vec<Result<Vec<i32>, String>> =
        vec![Ok(vec![1, 2]), Ok(vec![3]), Ok(vec![]), Ok(vec![4, 5])];
    assert_eq!(join_outcomes(outcomes), Ok(vec![1, 2, 3, 4, 5]));
}

#[test]
fn join_outcomes_of_no_worker_is_an_empty_output() {
    let outcomes: Vec<Result<Vec<i32>, String>> = Vec::new();
    assert_eq!(join_outcomes(outcomes), Ok(vec![]));
}

#[test]
fn join_outcomes_hands_on_the_first_failure() {
    let outcomes: Vec<Result<Vec<i32>, &str>> =
        vec![Ok(vec![1, 2]), Err("second"), Ok(vec![3]), Err("fourth")];
    assert_eq!(join_outcomes(outcomes), Err("second"));
}

#[test]
fn join_outcomes_gives_no_part_of_the_output_after_a_failure() {
    let outcomes: Vec<Result<Vec<i32>, u8>> = vec![Ok(vec![1]), Ok(vec![2]), Err(7)];
    assert_eq!(join_outcomes(outcomes), Err(7));
    let outcomes: Vec<Result<Vec<i32>, u8>> = vec![Err(1), Ok(vec![2]), Ok(vec![3])];
    assert_eq!(join_outcomes(outcomes), Err(1));
}
