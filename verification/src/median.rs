//! Three-point median filter.

use vstd::prelude::*;

verus! {

/// The median of three values: the one that is neither strictly the least nor strictly
/// the greatest.
pub open spec fn median_of_three(a: i32, b: i32, c: i32) -> i32 {
    let lo = if a <= b { a } else { b };
    let hi = if a <= b { b } else { a };
    if c <= lo {
        lo
    } else if c >= hi {
        hi
    } else {
        c
    }
}

/// `m` is a median of `a`, `b` and `c`: it is one of the three, and of the other two one
/// is at most `m` and the other at least `m`.
pub open spec fn is_median(m: int, a: int, b: int, c: int) -> bool {
    ||| m == a && ((b <= m && m <= c) || (c <= m && m <= b))
    ||| m == b && ((a <= m && m <= c) || (c <= m && m <= a))
    ||| m == c && ((a <= m && m <= b) || (b <= m && m <= a))
}

/// `median_of_three` picks the median: the value that is one of the three with one of the
/// others at most it and the other at least it. That value is unique, and it is also the
/// least of the larger of `a` and `b` and the larger of the smaller of them and `c`.
pub proof fn lemma_median_of_three(a: i32, b: i32, c: i32)
    ensures
        is_median(median_of_three(a, b, c) as int, a as int, b as int, c as int),
        forall|m: int| #[trigger] is_median(m, a as int, b as int, c as int) ==> m == median_of_three(a, b, c),
        median_of_three(a, b, c) as int == min_int(max_int(a as int, b as int), max_int(min_int(a as int, b as int), c as int)),
{
}

/// The smaller of two integers.
pub open spec fn min_int(x: int, y: int) -> int {
    if x <= y { x } else { y }
}

/// The larger of two integers.
pub open spec fn max_int(x: int, y: int) -> int {
    if x <= y { y } else { x }
}

/// Median filter of width three over the first `n` elements of `input`: `results[i]` is
/// the median of `input[i - 1]`, `input[i]` and `input[i + 1]`, and the two ends are zero.
/// With `n` at most 2 only the ends are written and `input` is not read.
pub fn median(n: usize, input: &[i32], results: &mut [i32])
    requires
        1 <= n,
        n <= 2 || n <= input@.len(),
        n <= old(results)@.len(),
    ensures
        final(results)@.len() == old(results)@.len(),
        final(results)@[0] == 0,
        final(results)@[n - 1] == 0,
        forall|i: int|
            1 <= i < n - 1 ==> #[trigger] final(results)@[i] == median_of_three(
                input@[i - 1],
                input@[i],
                input@[i + 1],
            ),
        forall|i: int|
            1 <= i < n - 1 ==> is_median(
                #[trigger] final(results)@[i] as int,
                input@[i - 1] as int,
                input@[i] as int,
                input@[i + 1] as int,
            ),
        forall|i: int| n <= i < old(results)@.len() ==> #[trigger] final(results)@[i] == old(
            results,
        )@[i],
{
    let ghost r0 = results@;
    // Zero the ends
    results[0] = 0;
    results[n - 1] = 0;

    // Do the filter
    let mut i: usize = 1;
    while i < n - 1
        invariant
            1 <= i <= n,
            n <= 2 || n <= input@.len(),
            1 <= n <= results@.len(),
            results@.len() == r0.len(),
            results@[0] == 0,
            results@[n - 1] == 0,
            forall|k: int|
                1 <= k < i ==> #[trigger] results@[k] == median_of_three(
                    input@[k - 1],
                    input@[k],
                    input@[k + 1],
                ),
            forall|k: int| n <= k < r0.len() ==> #[trigger] results@[k] == r0[k],
        decreases n - i,
    {
        let a = input[i - 1];
        let b = input[i];
        let c = input[i + 1];

        results[i] = if a < b {
            if b < c {
                b
            } else if c < a {
                a
            } else {
                c
            }
        } else {
            if a < c {
                a
            } else if c < b {
                b
            } else {
                c
            }
        };
        i += 1;
    }
    proof {
        assert forall|k: int| 1 <= k < n - 1 implies is_median(
            #[trigger] results@[k] as int,
            input@[k - 1] as int,
            input@[k] as int,
            input@[k + 1] as int,
        ) by {
            lemma_median_of_three(input@[k - 1], input@[k], input@[k + 1]);
        }
    }
}

} // verus!
