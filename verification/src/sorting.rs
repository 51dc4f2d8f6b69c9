//! The sorting benchmarks that sort with a library routine: radix sort from `radsort`, and
//! the standard library's unstable sort.

use vstd::prelude::*;
use crate::bench::{verify_data, verdict, VerifyError};
use crate::qsort::{permutes, sorted};

verus! {

/// Calls `radsort::sort`. Trusted: as the crate documents, the slice ends up sorted in
/// ascending order, holding the same elements as before.
#[verifier::external_body]
fn radsort_sort(v: &mut [i64])
    ensures
        sorted(final(v)@),
        permutes(final(v)@, old(v)@),
{
    radsort::sort(v)
}

/// Calls `<[i64]>::sort_unstable`. Trusted: as the standard library documents, the slice
/// ends up sorted in ascending order, holding the same elements as before.
#[verifier::external_body]
fn std_sort_unstable(v: &mut [i64])
    ensures
        sorted(final(v)@),
        permutes(final(v)@, old(v)@),
{
    v.sort_unstable()
}

/// Sorts `v` in ascending order by radix sort.
pub fn radix_sort(v: &mut [i64])
    ensures
        sorted(final(v)@),
        permutes(final(v)@, old(v)@),
{
    radsort_sort(v);
}

/// Sorts `v` in ascending order with the standard library's unstable sort.
pub fn sort_unstable(v: &mut [i64])
    ensures
        sorted(final(v)@),
        permutes(final(v)@, old(v)@),
{
    std_sort_unstable(v);
}

/// The radix sort benchmark: sorts a copy of `input` and checks it against `expected`.
pub fn rsort_benchmark(input: &[i64], expected: &[i64]) -> (res: Result<(), VerifyError>)
    ensures
        exists|r: Seq<i64>| sorted(r) && permutes(r, input@) && verdict(r, expected@, res),
{
    let mut result = vstd::slice::slice_to_vec(input);
    radix_sort(result.as_mut_slice());
    verify_data(result.as_slice(), expected)
}

/// The standard sort benchmark: sorts a copy of `input` with the standard library's
/// unstable sort and checks it against `expected`.
pub fn sort_benchmark(input: &[i64], expected: &[i64]) -> (res: Result<(), VerifyError>)
    ensures
        exists|r: Seq<i64>| sorted(r) && permutes(r, input@) && verdict(r, expected@, res),
{
    let mut result = vstd::slice::slice_to_vec(input);
    sort_unstable(result.as_mut_slice());
    verify_data(result.as_slice(), expected)
}

} // verus!
