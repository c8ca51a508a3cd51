use krpsim::utils::{fibonacci_n, merge_sort};
use rand::seq::SliceRandom;
use rand::thread_rng;

#[test]
fn test_basic_merge_sort() {
    let i1_vec = vec![1, 2, 3, 4, 5, 6];
    let i2_vec = vec![6, 5, 4, 3, 2, 1];
    let i3_vec = vec![5, 6, 3, 2, 1, 4];
    let i4_vec = vec![2, 3, 4, 5, 6, 1];

    assert_eq!(merge_sort(i1_vec.clone()), i1_vec);
    assert_eq!(merge_sort(i2_vec), i1_vec);
    assert_eq!(merge_sort(i3_vec), i1_vec);
    assert_eq!(merge_sort(i4_vec), i1_vec);
}

#[test]
fn test_big_merge_sort() {
    let mut rng = thread_rng();

    let truth: Vec<i32> = (0..10000).collect();
    let mut i1 = truth.clone();

    i1.shuffle(&mut rng);

    assert_eq!(merge_sort(i1), truth);
}

#[test]
fn test_edge_merge_sort() {
    let v1: Vec<i32> = vec![];

    assert_eq!(merge_sort(v1), Vec::<i32>::new());
}

#[test]
fn merge_sort_keeps_repeated_items() {
    assert_eq!(merge_sort(vec![3, 1, 3, 2, 1]), vec![1, 1, 2, 3, 3]);
    assert_eq!(merge_sort(vec![7usize]), vec![7usize]);
}

#[test]
fn fibonacci_weights_add_up() {
    assert_eq!(fibonacci_n(0), Vec::<usize>::new());
    assert_eq!(fibonacci_n(1), vec![1]);
    assert_eq!(fibonacci_n(2), vec![1, 1]);
    assert_eq!(fibonacci_n(3), vec![1, 1, 1]);
    assert_eq!(fibonacci_n(4), vec![1, 1, 2]);
    assert_eq!(fibonacci_n(10), vec![1, 1, 1, 1, 1, 2, 3]);
    assert_eq!(fibonacci_n(12), vec![1, 1, 2, 3, 5]);
    let weights = fibonacci_n(1000);
    assert_eq!(weights.iter().sum::<usize>(), 1000);
    assert_eq!(weights[weights.len() - 1], 377);
}
