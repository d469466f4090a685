use sort::{
    bubble_sort, gnome_sort, heap_sort, insertion_sort, insertion_sort_range, merge_sort_bottom_up,
    merge_sort_bottom_up_insert, merge_sort_top_down, merge_sort_top_down_insert, native_sort,
    native_unstable_sort, quick_sort, quick_sort_3, selection_sort, shell_sort,
};

type SortFn = fn(&mut Vec<u64>);

fn algorithms() -> Vec<(&'static str, SortFn)> {
    vec![
        ("gnome_sort", gnome_sort as SortFn),
        ("bubble_sort", bubble_sort),
        ("insertion_sort", insertion_sort),
        ("shell_sort", shell_sort),
        ("selection_sort", selection_sort),
        ("quick_sort_3", quick_sort_3),
        ("quick_sort", quick_sort),
        ("heap_sort", heap_sort),
        ("merge_sort_top_down", merge_sort_top_down),
        ("merge_sort_top_down_insert", merge_sort_top_down_insert),
        ("merge_sort_bottom_up", merge_sort_bottom_up),
        ("merge_sort_bottom_up_insert", merge_sort_bottom_up_insert),
        ("native_sort", native_sort),
        ("native_unstable_sort", native_unstable_sort),
    ]
}

fn check_all(input: &[u64], expected: &[u64]) {
    for (name, f) in algorithms() {
        let mut v = input.to_vec();
        f(&mut v);
        assert_eq!(v, expected, "{name} on {input:?}");
    }
}

/// A fixed pseudo-random sequence (linear congruential), values below `modulus`.
fn pseudo_random(n: usize, seed: u64, modulus: u64) -> Vec<u64> {
    let mut x = seed;
    let mut v = Vec::with_capacity(n);
    for _ in 0..n {
        x = x.wrapping_mul(6364136223846793005).wrapping_add(1442695040888963407);
        v.push((x >> 33) % modulus);
    }
    v
}

fn sorted_copy(v: &[u64]) -> Vec<u64> {
    let mut w = v.to_vec();
    w.sort();
    w
}

#[test]
fn shuffled_five() {
    check_all(&[5, 3, 1, 4, 2], &[1, 2, 3, 4, 5]);
}

#[test]
fn already_sorted_five() {
    check_all(&[1, 2, 3, 4, 5], &[1, 2, 3, 4, 5]);
}

#[test]
fn reverse_sorted_five() {
    check_all(&[5, 4, 3, 2, 1], &[1, 2, 3, 4, 5]);
}

#[test]
fn all_equal_five() {
    check_all(&[7, 7, 7, 7, 7], &[7, 7, 7, 7, 7]);
}

#[test]
fn last_out_of_order_five() {
    check_all(&[7, 7, 7, 7, 6], &[6, 7, 7, 7, 7]);
}

#[test]
fn first_out_of_order_five() {
    check_all(&[8, 7, 7, 7, 7], &[7, 7, 7, 7, 8]);
}

#[test]
fn empty_input() {
    check_all(&[], &[]);
}

#[test]
fn singleton_input() {
    check_all(&[9], &[9]);
}

#[test]
fn every_length_up_to_seventy() {
    for n in 0..=70 {
        let input = pseudo_random(n, n as u64 + 1, 50);
        check_all(&input, &sorted_copy(&input));
    }
}

#[test]
fn large_random_input() {
    // long enough for several rounds of partitioning and merging
    let input = pseudo_random(2000, 42, 10000);
    check_all(&input, &sorted_copy(&input));
}

#[test]
fn large_input_with_many_duplicates() {
    let input = pseudo_random(1500, 7, 4);
    check_all(&input, &sorted_copy(&input));
}

#[test]
fn large_increasing_and_decreasing() {
    let inc: Vec<u64> = (0..1000).collect();
    let dec: Vec<u64> = (0..1000).rev().collect();
    check_all(&inc, &inc);
    check_all(&dec, &inc);
}

#[test]
fn large_equal_input() {
    let v = vec![42u64; 500];
    check_all(&v, &v);
}

#[test]
fn large_single_misplaced() {
    let mut last = vec![42u64; 300];
    *last.last_mut().unwrap() = 41;
    let mut expected = vec![42u64; 300];
    expected[0] = 41;
    check_all(&last, &expected);

    let mut first = vec![42u64; 300];
    first[0] = 43;
    let mut expected = vec![42u64; 300];
    *expected.last_mut().unwrap() = 43;
    check_all(&first, &expected);
}

#[test]
fn extreme_values() {
    check_all(&[u64::MAX, 0, u64::MAX, 1, 0], &[0, 0, 1, u64::MAX, u64::MAX]);
}

#[test]
fn sorting_twice_changes_nothing() {
    let input = pseudo_random(300, 3, 100);
    for (name, f) in algorithms() {
        let mut v = input.clone();
        f(&mut v);
        let once = v.clone();
        f(&mut v);
        assert_eq!(v, once, "{name}");
    }
}

#[test]
fn results_keep_the_values() {
    let input = pseudo_random(500, 11, 30);
    for (name, f) in algorithms() {
        let mut v = input.clone();
        f(&mut v);
        for w in v.windows(2) {
            assert!(w[0] <= w[1], "{name}");
        }
        let mut counts_in = [0usize; 30];
        let mut counts_out = [0usize; 30];
        for &x in &input {
            counts_in[x as usize] += 1;
        }
        for &x in &v {
            counts_out[x as usize] += 1;
        }
        assert_eq!(counts_in, counts_out, "{name}");
    }
}

#[test]
fn insertion_sort_range_leaves_the_rest() {
    let mut v = vec![9, 8, 5, 3, 4, 1, 0];
    insertion_sort_range(&mut v, 2, 5);
    assert_eq!(v, vec![9, 8, 3, 4, 5, 1, 0]);
    insertion_sort_range(&mut v, 6, 6);
    assert_eq!(v, vec![9, 8, 3, 4, 5, 1, 0]);
}

#[test]
fn quick_sorts_on_random_pivots_repeatedly() {
    // the pivots are drawn at random: every run must still sort
    let input = pseudo_random(400, 5, 1000);
    let expected = sorted_copy(&input);
    for _ in 0..20 {
        let mut a = input.clone();
        quick_sort(&mut a);
        assert_eq!(a, expected);
        let mut b = input.clone();
        quick_sort_3(&mut b);
        assert_eq!(b, expected);
    }
}
