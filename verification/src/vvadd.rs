//! Element-wise addition of two vectors.

use vstd::prelude::*;

verus! {

/// The sums of the first `n` pairs of elements of `input1` and `input2` fit in an `i64`.
pub open spec fn sums_fit(n: int, input1: Seq<i64>, input2: Seq<i64>) -> bool {
    forall|i: int| #![trigger input1[i], input2[i]] 0 <= i < n ==> i64::MIN <= input1[i] + input2[i] <= i64::MAX
}

/// `result` holds the element-wise sums of `input1` and `input2` in its first `n`
/// positions, and what `old_result` held after them.
pub open spec fn added(
    n: int,
    input1: Seq<i64>,
    input2: Seq<i64>,
    result: Seq<i64>,
    old_result: Seq<i64>,
) -> bool {
    &&& result.len() == old_result.len()
    &&& forall|i: int| 0 <= i < n ==> #[trigger] result[i] == input1[i] + input2[i]
    &&& forall|i: int| n <= i < result.len() ==> #[trigger] result[i] == old_result[i]
}

/// Adds the first `n` elements of `input1` and `input2` pairwise into `result`.
pub fn vvadd(n: usize, input1: &[i64], input2: &[i64], result: &mut [i64])
    requires
        n <= input1@.len(),
        n <= input2@.len(),
        n <= old(result)@.len(),
        sums_fit(n as int, input1@, input2@),
    ensures
        added(n as int, input1@, input2@, final(result)@, old(result)@),
{
    let ghost r0 = result@;
    for i in 0..n
        invariant
            n <= input1@.len(),
            n <= input2@.len(),
            n <= result@.len(),
            sums_fit(n as int, input1@, input2@),
            added(i as int, input1@, input2@, result@, r0),
    {
        result[i] = input1[i] + input2[i];
    }
}

/// The number of elements that the unrolled kernel adds.
pub const DATA_SIZE: usize = 1000;

/// Adds the first `DATA_SIZE` elements of `input1` and `input2` pairwise into `result`,
/// eight elements per step while at least eight remain, then one at a time. The count
/// is fixed by `DATA_SIZE`; the first argument is not read.
pub fn vvadd_unrolled(_n: usize, input1: &[i64], input2: &[i64], result: &mut [i64])
    requires
        DATA_SIZE <= input1@.len(),
        DATA_SIZE <= input2@.len(),
        DATA_SIZE <= old(result)@.len(),
        sums_fit(DATA_SIZE as int, input1@, input2@),
    ensures
        added(DATA_SIZE as int, input1@, input2@, final(result)@, old(result)@),
{
    let ghost r0 = result@;
    let mut i: usize = 0;
    while i < DATA_SIZE - 7
        invariant
            DATA_SIZE <= input1@.len(),
            DATA_SIZE <= input2@.len(),
            DATA_SIZE <= result@.len(),
            i <= DATA_SIZE,
            i % 8 == 0,
            sums_fit(DATA_SIZE as int, input1@, input2@),
            added(i as int, input1@, input2@, result@, r0),
        decreases DATA_SIZE - i,
    {
        result[i] = input1[i] + input2[i];
        result[i + 1] = input1[i + 1] + input2[i + 1];
        result[i + 2] = input1[i + 2] + input2[i + 2];
        result[i + 3] = input1[i + 3] + input2[i + 3];
        result[i + 4] = input1[i + 4] + input2[i + 4];
        result[i + 5] = input1[i + 5] + input2[i + 5];
        result[i + 6] = input1[i + 6] + input2[i + 6];
        result[i + 7] = input1[i + 7] + input2[i + 7];
        i += 8;
    }
    assert(i == DATA_SIZE / 8 * 8);
    for k in (DATA_SIZE / 8 * 8)..DATA_SIZE
        invariant
            DATA_SIZE <= input1@.len(),
            DATA_SIZE <= input2@.len(),
            DATA_SIZE <= result@.len(),
            sums_fit(DATA_SIZE as int, input1@, input2@),
            added(k as int, input1@, input2@, result@, r0),
    {
        result[k] = input1[k] + input2[k];
    }
}

} // verus!
