//! Bookkeeping of a benchmark run: the counters it reports and the check of its output.

use vstd::prelude::*;
use crate::htif::{self, HostRequest};
use vstd::std_specs::cmp::PartialEqSpec;

verus! {

/// How a benchmark's output differs from the expected output.
#[derive(Debug, Clone, Copy, PartialEq, Eq, Structural)]
pub enum VerifyError {
    /// The first position at which the output and the expected output differ.
    Mismatch { index: usize },
    /// The output agrees with the expected output as far as both go, but the lengths differ.
    LengthMismatch { expected_len: usize, actual_len: usize },
}

/// The elements of `result` and `expected` agree (by `==`) at every position before `n`.
pub open spec fn agree_before<T: PartialEq>(result: Seq<T>, expected: Seq<T>, n: int) -> bool {
    forall|k: int| 0 <= k < n ==> #[trigger] result[k].eq_spec(&expected[k])
}

/// `res` is the outcome of checking `result` against `expected`: `Ok` when they have the
/// same length and agree everywhere; otherwise the first position where they differ, or,
/// where they agree as far as both go, the two lengths.
pub open spec fn verdict<T: PartialEq>(
    result: Seq<T>,
    expected: Seq<T>,
    res: Result<(), VerifyError>,
) -> bool {
    match res {
        Ok(()) => result.len() == expected.len() && agree_before(result, expected, result.len() as int),
        Err(VerifyError::Mismatch { index }) => {
            &&& index < result.len()
            &&& index < expected.len()
            &&& agree_before(result, expected, index as int)
            &&& !result[index as int].eq_spec(&expected[index as int])
        },
        Err(VerifyError::LengthMismatch { expected_len, actual_len }) => {
            &&& expected_len == expected.len()
            &&& actual_len == result.len()
            &&& expected_len != actual_len
            &&& agree_before(
                result,
                expected,
                if actual_len < expected_len {
                    actual_len as int
                } else {
                    expected_len as int
                },
            )
        },
    }
}

/// Checks a benchmark's output against the expected output: position by position as far
/// as the output goes, then the lengths.
pub fn verify_data<T: PartialEq>(result: &[T], expected: &[T]) -> (res: Result<(), VerifyError>)
    ensures
        T::obeys_eq_spec() ==> verdict(result@, expected@, res),
{
    let n = result.len();
    let m = expected.len();
    let mut i: usize = 0;
    while i < n
        invariant
            i <= n,
            n == result@.len(),
            m == expected@.len(),
            i <= m,
            T::obeys_eq_spec() ==> agree_before(result@, expected@, i as int),
        decreases n - i,
    {
        if i >= m {
            return Err(VerifyError::LengthMismatch { expected_len: m, actual_len: n });
        }
        if result[i] != expected[i] {
            return Err(VerifyError::Mismatch { index: i });
        }
        i += 1;
    }
    if n != m {
        return Err(VerifyError::LengthMismatch { expected_len: m, actual_len: n });
    }
    Ok(())
}

/// The increments of the performance counters between the readings `start` and `now`,
/// modulo the counters' width.
pub open spec fn spec_elapsed(start: Seq<usize>, now: Seq<usize>) -> Seq<usize> {
    Seq::new(
        start.len(),
        |i: int|
            if now[i] >= start[i] {
                (now[i] - start[i]) as usize
            } else {
                (now[i] - start[i] + usize::MAX + 1) as usize
            },
    )
}

/// How a benchmark ends: the counters' increments it reports, and the verdict on its
/// output.
#[derive(Debug, PartialEq, Eq)]
pub struct BenchmarkEnd {
    pub elapsed: Vec<usize>,
    pub verdict: Result<(), VerifyError>,
}

/// The increments of the performance counters between the readings `start` and `now`.
pub fn benchmark_elapsed(start: &[usize], now: &[usize]) -> (elapsed: Vec<usize>)
    requires
        start@.len() == now@.len(),
    ensures
        elapsed@ == spec_elapsed(start@, now@),
{
    let mut elapsed: Vec<usize> = Vec::new();
    let n = start.len();
    for i in 0..n
        invariant
            n == start@.len(),
            n == now@.len(),
            elapsed@ =~= spec_elapsed(start@, now@).take(i as int),
    {
        elapsed.push(now[i].wrapping_sub(start[i]));
    }
    assert(spec_elapsed(start@, now@).take(n as int) =~= spec_elapsed(start@, now@));
    elapsed
}

/// The request that ends a benchmark program: exit with status 0.
pub fn exit() -> (req: HostRequest)
    ensures
        req == (HostRequest::Exit { code: 0 }),
{
    htif::exit(0)
}

/// Ends a benchmark whose output needs no check: the counters' increments since `start`,
/// read again as `now`.
pub fn end_benchmark(start: &[usize], now: &[usize]) -> (end: BenchmarkEnd)
    requires
        start@.len() == now@.len(),
    ensures
        end.elapsed@ == spec_elapsed(start@, now@),
        end.verdict == Ok::<(), VerifyError>(()),
{
    BenchmarkEnd { elapsed: benchmark_elapsed(start, now), verdict: Ok(()) }
}

/// Ends a benchmark: the counters' increments since `start`, read again as `now`, and the
/// check of `result` against `expected`.
pub fn verify_and_end_benchmark<T: PartialEq>(
    result: &[T],
    expected: &[T],
    start: &[usize],
    now: &[usize],
) -> (end: BenchmarkEnd)
    requires
        start@.len() == now@.len(),
    ensures
        end.elapsed@ == spec_elapsed(start@, now@),
        T::obeys_eq_spec() ==> verdict(result@, expected@, end.verdict),
{
    let elapsed = benchmark_elapsed(start, now);
    let outcome = verify_data(result, expected);
    BenchmarkEnd { elapsed, verdict: outcome }
}

/// How many times `Bencher::iter` runs the code under measurement.
pub const BENCH_ROUNDS: usize = 100;

/// `n` runs of `inner` took place: there are `n` results, each one that a call of `inner`
/// can return.
pub open spec fn ran_rounds<T, F: FnMut() -> T>(inner: F, n: nat) -> bool {
    exists|outs: Seq<T>|
        outs.len() == n && forall|k: int| 0 <= k < outs.len() ==> call_ensures(inner, (), #[trigger] outs[k])
}

/// Runs the code under measurement of a micro-benchmark.
#[derive(Clone)]
pub struct Bencher {}

impl Bencher {
    /// Runs `inner` `BENCH_ROUNDS` times, keeping each result alive until the next run.
    pub fn iter<T, F: FnMut() -> T>(&mut self, mut inner: F)
        requires
            call_requires(inner, ()),
        ensures
            ran_rounds(inner, BENCH_ROUNDS as nat),
    {
        let ghost f0 = inner;
        let ghost mut outs: Seq<T> = Seq::empty();
        let mut i: usize = 0;
        while i < BENCH_ROUNDS
            invariant
                i <= BENCH_ROUNDS,
                call_requires(f0, ()),
                outs.len() == i,
                forall|k: int| 0 <= k < i ==> call_ensures(f0, (), #[trigger] outs[k]),
                inner == f0,
            decreases BENCH_ROUNDS - i,
        {
            let result = inner();
            proof {
                outs = outs.push(result);
            }
            i += 1;
        }
        assert(outs.len() == BENCH_ROUNDS && forall|k: int| 0 <= k < outs.len() ==> call_ensures(f0, (), #[trigger] outs[k]));
    }
}

} // verus!
