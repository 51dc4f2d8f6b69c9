use riscv_benchmarks::marchid::get_march;
use riscv_benchmarks::median::median;
use riscv_benchmarks::multiply::multiply;
use riscv_benchmarks::qsort::{insertion_sort, selection_sort, sort, swap_if_greater};
use riscv_benchmarks::sorting::{radix_sort, rsort_benchmark, sort_benchmark, sort_unstable};
use riscv_benchmarks::bench::VerifyError;
use riscv_benchmarks::vvadd::{vvadd, vvadd_unrolled, DATA_SIZE};

fn scrambled() -> Vec<i64> {
    let mut v = Vec::new();
    let mut x: i64 = 7;
    for _ in 0..57 {
        x = (x * 1103515245 + 12345) % 2147483648;
        v.push((x % 1000) - 500);
    }
    v
}

fn sorted_copy(v: &[i64]) -> Vec<i64> {
    let mut w = v.to_vec();
    w.sort();
    w
}

#[test]
fn test_get_march_names() {
    assert_eq!(get_march(1), "rocket");
    assert_eq!(get_march(2), "sonicboom");
    assert_eq!(get_march(5), "spike");
    assert_eq!(get_march(0), "unknown");
    assert_eq!(get_march(3), "unknown");
}

#[test]
fn test_median_filter() {
    let input = [3, 1, 2, 5, 4];
    let mut results = [9; 5];
    median(5, &input, &mut results);
    assert_eq!(results, [0, 2, 2, 4, 0]);
}

#[test]
fn test_median_single_element() {
    let input = [42];
    let mut results = [7];
    median(1, &input, &mut results);
    assert_eq!(results, [0]);
}

#[test]
fn test_median_short_runs_read_no_input() {
    let mut results = [7, 7, 7];
    median(2, &[], &mut results);
    assert_eq!(results, [0, 0, 7]);
    median(1, &[], &mut results);
    assert_eq!(results, [0, 0, 7]);
}

#[test]
fn test_median_equal_neighbours() {
    let input = [5, 5, 1, 1, 9, 9];
    let mut results = [1; 6];
    median(6, &input, &mut results);
    assert_eq!(results, [0, 5, 1, 1, 9, 0]);
}

#[test]
fn test_multiply_small() {
    assert_eq!(multiply(3, 4), 12);
    assert_eq!(multiply(7, -3), -21);
    assert_eq!(multiply(0, 123), 0);
}

#[test]
fn test_multiply_uses_low_32_bits_of_x() {
    assert_eq!(multiply((1i64 << 32) + 5, 10), 50);
    assert_eq!(multiply(-1, 1), 0xffff_ffff);
}

#[test]
fn test_multiply_wraps() {
    let expected = (0xffff_ffffi64).wrapping_mul(i64::MAX);
    assert_eq!(multiply(-1, i64::MAX), expected);
}

#[test]
fn test_vvadd() {
    let a = [1, 2, 3, 4];
    let b = [10, 20, 30, 40];
    let mut r = [0; 4];
    vvadd(3, &a, &b, &mut r);
    assert_eq!(r, [11, 22, 33, 0]);
}

#[test]
fn test_vvadd_unrolled_matches() {
    let a: Vec<i64> = (0..DATA_SIZE as i64).collect();
    let b: Vec<i64> = (0..DATA_SIZE as i64).map(|x| 100 * x).collect();
    let mut r1 = vec![0; DATA_SIZE];
    let mut r2 = vec![0; DATA_SIZE];
    vvadd(DATA_SIZE, &a, &b, &mut r1);
    vvadd_unrolled(DATA_SIZE, &a, &b, &mut r2);
    assert_eq!(r1, r2);
    assert_eq!(r2[999], 100_899);
}

#[test]
fn test_vvadd_unrolled_ignores_count() {
    let a: Vec<i64> = (0..1003).collect();
    let b: Vec<i64> = vec![1; 1003];
    let mut r = vec![-1; 1003];
    vvadd_unrolled(5, &a, &b, &mut r);
    assert_eq!(r[5], 6);
    assert_eq!(r[999], 1000);
    assert_eq!(&r[1000..], &[-1, -1, -1]);
}

#[test]
fn test_swap_if_greater() {
    let mut v = [5, 3];
    swap_if_greater(&mut v, 0, 1);
    assert_eq!(v, [3, 5]);
    swap_if_greater(&mut v, 0, 1);
    assert_eq!(v, [3, 5]);
}

#[test]
fn test_quicksort() {
    let mut v = scrambled();
    let expected = sorted_copy(&v);
    sort(&mut v);
    assert_eq!(v, expected);
}

#[test]
fn test_quicksort_short_and_empty() {
    let mut e: [i64; 0] = [];
    sort(&mut e);
    let mut v = [3, -2, 9, 0];
    sort(&mut v);
    assert_eq!(v, [-2, 0, 3, 9]);
}

#[test]
fn test_insertion_and_selection_sort() {
    let mut v = scrambled();
    let mut w = v.clone();
    let expected = sorted_copy(&v);
    insertion_sort(&mut v);
    selection_sort(&mut w);
    assert_eq!(v, expected);
    assert_eq!(w, expected);
}

#[test]
fn test_library_sorts() {
    let mut v = scrambled();
    let mut w = v.clone();
    let expected = sorted_copy(&v);
    radix_sort(&mut v);
    sort_unstable(&mut w);
    assert_eq!(v, expected);
    assert_eq!(w, expected);
}

#[test]
fn test_radix_sort_negatives() {
    let mut v = [3, -1, i64::MIN, 2, i64::MAX, -1];
    radix_sort(&mut v);
    assert_eq!(v, [i64::MIN, -1, -1, 2, 3, i64::MAX]);
}

#[test]
fn test_sort_benchmarks_verdicts() {
    let input = [4, 1, 3, 2];
    assert_eq!(rsort_benchmark(&input, &[1, 2, 3, 4]), Ok(()));
    assert_eq!(sort_benchmark(&input, &[1, 2, 3, 4]), Ok(()));
    assert_eq!(sort_benchmark(&input, &[1, 2, 4, 3]), Err(VerifyError::Mismatch { index: 2 }));
    assert_eq!(
        rsort_benchmark(&input, &[1, 2, 3]),
        Err(VerifyError::LengthMismatch { expected_len: 3, actual_len: 4 })
    );
}

#[test]
fn test_quicksort_large_inputs() {
    let mut desc: Vec<i64> = (0..100_000).rev().collect();
    sort(&mut desc);
    assert!(desc.windows(2).all(|w| w[0] <= w[1]));
    assert_eq!(desc[0], 0);
    assert_eq!(desc[99_999], 99_999);
    let mut same = vec![7i64; 50_000];
    sort(&mut same);
    assert!(same.iter().all(|&x| x == 7));
    let mut organ: Vec<i64> = (0..30_000).chain((0..30_000).rev()).collect();
    sort(&mut organ);
    assert!(organ.windows(2).all(|w| w[0] <= w[1]));
}
