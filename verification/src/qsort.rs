//! In-place sorting of `i64` slices: the quicksort of the benchmark suite
//! (median-of-three partitioning, an explicit stack of pending segments,
//! insertion sort for short segments) and the simple sorts it is built from.

use vstd::prelude::*;
use vstd::arithmetic::power2::{lemma2_to64, lemma_pow2_strictly_increases, lemma_pow2_unfold, pow2};

verus! {

broadcast use vstd::seq_lib::group_to_multiset_ensures;

/// Segments shorter than this are finished by insertion sort.
pub const INSERTION_THRESHOLD: usize = 10;

/// The number of pending segments the benchmark's fixed stack holds; quicksort never needs
/// more on an array of at most `i32::MAX` elements.
pub const NSTACK: usize = 32;

/// The number of slots of the stack of pending segments: enough for an array of any length
/// that a `usize` can count, since the stack is at most `log2(len)` deep.
pub const STACK_CAPACITY: usize = 64;

/// `s` is in nondecreasing order between positions `lo` (inclusive) and `hi` (exclusive).
pub open spec fn sorted_between(s: Seq<i64>, lo: int, hi: int) -> bool {
    forall|x: int, y: int| lo <= x <= y < hi ==> s[x] <= s[y]
}

/// `s` is in nondecreasing order.
pub open spec fn sorted(s: Seq<i64>) -> bool {
    sorted_between(s, 0, s.len() as int)
}

/// `t` holds the same elements as `s`, each as often.
pub open spec fn permutes(t: Seq<i64>, s: Seq<i64>) -> bool {
    t.to_multiset() == s.to_multiset()
}

/// `t` differs from `s` only between `lo` and `hi`, where it holds the same elements
/// as `s` in some order.
pub open spec fn permutes_within(t: Seq<i64>, s: Seq<i64>, lo: int, hi: int) -> bool {
    &&& t.len() == s.len()
    &&& 0 <= lo <= hi <= s.len()
    &&& t.subrange(lo, hi).to_multiset() == s.subrange(lo, hi).to_multiset()
    &&& forall|k: int| 0 <= k < s.len() && !(lo <= k < hi) ==> t[k] == s[k]
}

proof fn lemma_swap_to_multiset(s: Seq<i64>, i: int, j: int)
    requires
        0 <= i < s.len(),
        0 <= j < s.len(),
    ensures
        s.update(i, s[j]).update(j, s[i]).to_multiset() == s.to_multiset(),
{
    broadcast use vstd::multiset::group_multiset_axioms;

    let t = s.update(i, s[j]);
    assert(t.to_multiset() == s.to_multiset().insert(s[j]).remove(s[i]));
    assert(t.update(j, s[i]).to_multiset() == t.to_multiset().insert(s[i]).remove(t[j]));
    assert(s.update(i, s[j]).update(j, s[i]).to_multiset() =~= s.to_multiset());
}

/// A swap of two positions between `lo` and `hi` permutes the elements there.
proof fn lemma_swap_permutes_within(s: Seq<i64>, i: int, j: int, lo: int, hi: int)
    requires
        0 <= lo <= i < hi <= s.len(),
        lo <= j < hi,
    ensures
        permutes_within(s.update(i, s[j]).update(j, s[i]), s, lo, hi),
{
    let t = s.update(i, s[j]).update(j, s[i]);
    let sub = s.subrange(lo, hi);
    assert(t.subrange(lo, hi) =~= sub.update(i - lo, sub[j - lo]).update(j - lo, sub[i - lo]));
    lemma_swap_to_multiset(sub, i - lo, j - lo);
}

/// A permutation within a segment is one of the whole sequence.
proof fn lemma_permutes_within_widen(t: Seq<i64>, s: Seq<i64>, lo: int, hi: int)
    requires
        permutes_within(t, s, lo, hi),
    ensures
        permutes_within(t, s, 0, s.len() as int),
{
    let n = s.len() as int;
    assert(t.subrange(0, lo) =~= s.subrange(0, lo));
    assert(t.subrange(hi, n) =~= s.subrange(hi, n));
    assert(t.subrange(0, n) =~= t.subrange(0, lo) + t.subrange(lo, hi) + t.subrange(hi, n));
    assert(s.subrange(0, n) =~= s.subrange(0, lo) + s.subrange(lo, hi) + s.subrange(hi, n));
    vstd::seq_lib::lemma_multiset_commutative(t.subrange(0, lo), t.subrange(lo, hi));
    vstd::seq_lib::lemma_multiset_commutative(
        t.subrange(0, lo) + t.subrange(lo, hi),
        t.subrange(hi, n),
    );
    vstd::seq_lib::lemma_multiset_commutative(s.subrange(0, lo), s.subrange(lo, hi));
    vstd::seq_lib::lemma_multiset_commutative(
        s.subrange(0, lo) + s.subrange(lo, hi),
        s.subrange(hi, n),
    );
}

/// `permutes_within` composes.
proof fn lemma_permutes_within_trans(u: Seq<i64>, t: Seq<i64>, s: Seq<i64>, lo: int, hi: int)
    requires
        permutes_within(u, t, lo, hi),
        permutes_within(t, s, lo, hi),
    ensures
        permutes_within(u, s, lo, hi),
{
}

/// Exchanges the elements at positions `i` and `j`.
fn swap(arr: &mut [i64], i: usize, j: usize)
    requires
        i < old(arr)@.len(),
        j < old(arr)@.len(),
    ensures
        final(arr)@ == old(arr)@.update(i as int, old(arr)@[j as int]).update(
            j as int,
            old(arr)@[i as int],
        ),
{
    let a = arr[i];
    let b = arr[j];
    arr[i] = b;
    arr[j] = a;
}

/// Orders the elements at positions `i` and `j`: they are exchanged when the first is greater.
pub fn swap_if_greater(arr: &mut [i64], i: usize, j: usize)
    requires
        i < old(arr)@.len(),
        j < old(arr)@.len(),
    ensures
        old(arr)@[i as int] > old(arr)@[j as int] ==> final(arr)@ == old(arr)@.update(
            i as int,
            old(arr)@[j as int],
        ).update(j as int, old(arr)@[i as int]),
        old(arr)@[i as int] <= old(arr)@[j as int] ==> final(arr)@ == old(arr)@,
{
    if arr[i] > arr[j] {
        swap(arr, i, j);
    }
}


/// Insertion sort of the positions from `lo` (inclusive) to `hi` (exclusive): each element
/// in turn is moved left past the greater elements before it.
fn insertion_sort_range(arr: &mut [i64], lo: usize, hi: usize)
    requires
        lo <= hi <= old(arr)@.len(),
    ensures
        permutes_within(final(arr)@, old(arr)@, lo as int, hi as int),
        sorted_between(final(arr)@, lo as int, hi as int),
{
    if hi - lo < 2 {
        return;
    }
    let ghost s0 = arr@;
    let mut i: usize = lo + 1;
    while i < hi
        invariant
            lo < i <= hi <= arr@.len(),
            permutes_within(arr@, s0, lo as int, hi as int),
            sorted_between(arr@, lo as int, i as int),
        decreases hi - i,
    {
        let ghost s1 = arr@;
        let value = arr[i];
        let mut j: usize = i;
        while j > lo && arr[j - 1] > value
            invariant
                lo <= j <= i < hi <= arr@.len(),
                arr@.len() == s1.len(),
                value == s1[i as int],
                forall|k: int| 0 <= k < s1.len() && !(j < k <= i) ==> arr@[k] == s1[k],
                forall|k: int| j < k <= i ==> arr@[k] == s1[k - 1],
                forall|k: int| j < k <= i ==> arr@[k] > value,
            decreases j,
        {
            arr[j] = arr[j - 1];
            j -= 1;
        }
        assert(j == lo || s1[j - 1] <= value);
        arr[j] = value;
        proof {
            let t = arr@;
            // the segment is the old one with `value` moved from `i` to `j`
            let a = s1.subrange(lo as int, j as int);
            let b = s1.subrange(j as int, i as int);
            let c = s1.subrange(i + 1, hi as int);
            assert(s1.subrange(lo as int, hi as int) =~= a + b + seq![value] + c);
            assert(t.subrange(lo as int, hi as int) =~= a + seq![value] + b + c);
            vstd::seq_lib::lemma_multiset_commutative(a + b, seq![value]);
            vstd::seq_lib::lemma_multiset_commutative(a, b);
            vstd::seq_lib::lemma_multiset_commutative(a + b + seq![value], c);
            vstd::seq_lib::lemma_multiset_commutative(a, seq![value]);
            vstd::seq_lib::lemma_multiset_commutative(a + seq![value], b);
            vstd::seq_lib::lemma_multiset_commutative(a + seq![value] + b, c);
            assert(permutes_within(t, s1, lo as int, hi as int)) by {
                broadcast use vstd::multiset::group_multiset_axioms;
                assert(t.subrange(lo as int, hi as int).to_multiset() =~= s1.subrange(
                    lo as int,
                    hi as int,
                ).to_multiset());
            }
            lemma_permutes_within_trans(t, s1, s0, lo as int, hi as int);
            assert forall|x: int, y: int| lo <= x <= y < i + 1 implies t[x] <= t[y] by {
                if x < j && y > j {
                    assert(t[y] == s1[y - 1]);
                    assert(t[x] == s1[x]);
                    assert(s1[x] <= s1[y - 1]);
                }
                if x < j && y < j {
                    assert(t[y] == s1[y]);
                    assert(t[x] == s1[x]);
                }
                if x == j && y > j {
                    assert(t[y] > value);
                }
                if x < j && y == j {
                    assert(t[x] == s1[x]);
                    assert(s1[x] <= s1[j - 1]);
                }
                if x > j {
                    assert(t[x] == s1[x - 1]);
                    assert(t[y] == s1[y - 1]);
                }
            }
        }
        i += 1;
    }
}

/// Sorts `arr` in place by insertion sort.
pub fn insertion_sort(arr: &mut [i64])
    ensures
        permutes(final(arr)@, old(arr)@),
        sorted(final(arr)@),
{
    let n = arr.len();
    insertion_sort_range(arr, 0, n);
    proof {
        assert(final(arr)@.subrange(0, n as int) =~= final(arr)@);
        assert(old(arr)@.subrange(0, n as int) =~= old(arr)@);
    }
}

/// Insertion sort of the whole slice: the unchecked-indexing entry point of the benchmark,
/// whose indices are all proved in bounds.
pub fn insertion_sort_unsafe(arr: &mut [i64])
    ensures
        permutes(final(arr)@, old(arr)@),
        sorted(final(arr)@),
{
    let n = arr.len();
    insertion_sort_range(arr, 0, n);
    proof {
        assert(final(arr)@.subrange(0, n as int) =~= final(arr)@);
        assert(old(arr)@.subrange(0, n as int) =~= old(arr)@);
    }
}

/// Sorts `arr` in place by selection: every position in turn receives the least of the
/// elements from there on, by comparison and exchange with each later element.
pub fn selection_sort(arr: &mut [i64])
    requires
        old(arr)@.len() >= 1,
    ensures
        permutes(final(arr)@, old(arr)@),
        sorted(final(arr)@),
{
    let len = arr.len();
    let ghost s0 = arr@;
    for i in 0..len - 1
        invariant
            len == arr@.len(),
            len >= 1,
            permutes_within(arr@, s0, 0, len as int),
            sorted_between(arr@, 0, i as int),
            forall|x: int, y: int| 0 <= x < i <= y < len ==> arr@[x] <= arr@[y],
    {
        for j in i + 1..len
            invariant
                len == arr@.len(),
                i < len - 1,
                i < j <= len,
                permutes_within(arr@, s0, 0, len as int),
                sorted_between(arr@, 0, i as int),
                forall|x: int, y: int| 0 <= x < i <= y < len ==> arr@[x] <= arr@[y],
                forall|k: int| i < k < j ==> arr@[i as int] <= arr@[k],
        {
            let ghost t = arr@;
            swap_if_greater(arr, i, j);
            proof {
                if t[i as int] > t[j as int] {
                    lemma_swap_permutes_within(t, i as int, j as int, 0, len as int);
                    lemma_permutes_within_trans(arr@, t, s0, 0, len as int);
                }
            }
        }
    }
    proof {
        assert(arr@.subrange(0, len as int) =~= arr@);
        assert(s0.subrange(0, len as int) =~= s0);
    }
}

/// Every element that a permutation of a segment holds there lies within any bounds that
/// hold for the elements the segment held before.
proof fn lemma_permutes_within_bounds(t: Seq<i64>, s: Seq<i64>, lo: int, hi: int, v: i64)
    requires
        permutes_within(t, s, lo, hi),
    ensures
        (forall|k: int| lo <= k < hi ==> s[k] <= v) ==> (forall|k: int|
            lo <= k < hi ==> t[k] <= v),
        (forall|k: int| lo <= k < hi ==> s[k] >= v) ==> (forall|k: int|
            lo <= k < hi ==> t[k] >= v),
{
    let ts = t.subrange(lo, hi);
    let ss = s.subrange(lo, hi);
    assert forall|k: int| lo <= k < hi implies ss.contains(#[trigger] t[k]) by {
        assert(ts[k - lo] == t[k]);
        assert(ts.contains(t[k]));
        assert(ts.to_multiset().count(t[k]) > 0);
    }
    if forall|k: int| lo <= k < hi ==> s[k] <= v {
        assert forall|k: int| lo <= k < hi implies t[k] <= v by {
            assert(ss.contains(t[k]));
            let m = choose|m: int| 0 <= m < ss.len() && ss[m] == t[k];
            assert(s[m + lo] == ss[m]);
        }
    }
    if forall|k: int| lo <= k < hi ==> s[k] >= v {
        assert forall|k: int| lo <= k < hi implies t[k] >= v by {
            assert(ss.contains(t[k]));
            let m = choose|m: int| 0 <= m < ss.len() && ss[m] == t[k];
            assert(s[m + lo] == ss[m]);
        }
    }
}

/// Partitions the segment of the 1-based positions `left..=right`, that is
/// `arr[left - 1..right]`, around the median of its first, middle and last elements.
/// Returns the 1-based positions `(i, j)`: afterwards the pivot stands at `j`, the positions
/// `left..j` hold elements at most the pivot, `j..i` hold the pivot, and `i..=right` hold
/// elements at least the pivot.
fn partition(arr: &mut [i64], left: usize, right: usize) -> (res: (usize, usize))
    requires
        1 <= left,
        left + INSERTION_THRESHOLD <= right,
        right <= old(arr)@.len(),
    ensures
        left + 1 <= res.1 < res.0 <= right,
        permutes_within(final(arr)@, old(arr)@, left - 1, right as int),
        forall|k: int| left - 1 <= k < res.1 - 1 ==> #[trigger] final(arr)@[k] <= final(arr)@[res.1 - 1],
        forall|k: int| res.1 - 1 <= k < res.0 - 1 ==> #[trigger] final(arr)@[k] == final(arr)@[res.1 - 1],
        forall|k: int| res.0 - 1 <= k < right ==> #[trigger] final(arr)@[k] >= final(arr)@[res.1 - 1],
{
    let ghost s0 = arr@;
    let lo: Ghost<int> = Ghost(left - 1);
    let hi: Ghost<int> = Ghost(right as int);
    // Median of three: afterwards arr[left - 1] <= arr[left] <= arr[right - 1].
    let mid = left + (right - left) / 2 - 1;
    let ghost t = arr@;
    swap(arr, mid, left);
    proof { lemma_swap_permutes_within(t, mid as int, left as int, lo@, hi@); }
    let ghost t = arr@;
    swap_if_greater(arr, left - 1, right - 1);
    proof {
        if t[left - 1] > t[right - 1] {
            lemma_swap_permutes_within(t, left - 1, right - 1, lo@, hi@);
        }
        lemma_permutes_within_trans(arr@, t, s0, lo@, hi@);
    }
    let ghost t = arr@;
    swap_if_greater(arr, left, right - 1);
    proof {
        if t[left as int] > t[right - 1] {
            lemma_swap_permutes_within(t, left as int, right - 1, lo@, hi@);
        }
        lemma_permutes_within_trans(arr@, t, s0, lo@, hi@);
    }
    let ghost t = arr@;
    swap_if_greater(arr, left - 1, left);
    proof {
        if t[left - 1] > t[left as int] {
            lemma_swap_permutes_within(t, left - 1, left as int, lo@, hi@);
        }
        lemma_permutes_within_trans(arr@, t, s0, lo@, hi@);
    }
    let pivot = arr[left];
    let mut i = left + 1;
    let mut j = right;
    loop
        invariant_except_break
            left + 1 <= i <= j <= right,
            i < right,
            i < j || i >= left + 2,
            forall|k: int| left - 1 <= k < i ==> arr@[k] <= pivot,
            forall|k: int| j - 1 <= k < right ==> arr@[k] >= pivot,
        invariant
            1 <= left,
            left + INSERTION_THRESHOLD <= right,
            right <= arr@.len(),
            arr@.len() == s0.len(),
            lo@ == left - 1,
            hi@ == right,
            arr@[left as int] == pivot,
            permutes_within(arr@, s0, lo@, hi@),
        ensures
            left + 1 <= j < i <= right,
            arr@.len() == s0.len(),
            arr@[left as int] == pivot,
            arr@[j - 1] <= pivot,
            forall|k: int| left - 1 <= k < i - 1 ==> arr@[k] <= pivot,
            forall|k: int| j <= k < right ==> arr@[k] >= pivot,
            permutes_within(arr@, s0, lo@, hi@),
        decreases j - i,
    {
        let ghost i0 = i;
        let ghost j0 = j;
        loop
            invariant_except_break
                i0 <= i < right,
                forall|k: int| i0 <= k < i ==> arr@[k] < pivot,
            invariant
                right <= arr@.len(),
                left - 1 <= j0 - 1 < right,
                forall|k: int| j0 - 1 <= k < right ==> arr@[k] >= pivot,
            ensures
                i0 < i <= right,
                arr@[i - 1] >= pivot,
                forall|k: int| i0 <= k < i - 1 ==> arr@[k] < pivot,
            decreases right - i,
        {
            i += 1;
            if arr[i - 1] >= pivot {
                break;
            }
        }
        let ghost lowb: int = if i0 < j0 { i0 as int } else { i0 - 1 };
        loop
            invariant_except_break
                lowb < j <= j0,
                forall|k: int| j - 1 <= k < j0 - 1 ==> arr@[k] > pivot,
            invariant
                left + 1 <= lowb <= i0,
                j0 <= right <= arr@.len(),
                arr@[lowb - 1] <= pivot,
            ensures
                lowb <= j < j0,
                arr@[j - 1] <= pivot,
                forall|k: int| j <= k < j0 - 1 ==> arr@[k] > pivot,
            decreases j,
        {
            j -= 1;
            if arr[j - 1] <= pivot {
                break;
            }
        }
        if j < i {
            break;
        }
        let ghost t = arr@;
        swap(arr, i - 1, j - 1);
        proof {
            lemma_swap_permutes_within(t, i - 1, j - 1, lo@, hi@);
            lemma_permutes_within_trans(arr@, t, s0, lo@, hi@);
        }
    }
    // Put the pivot in its place.
    let ghost t = arr@;
    arr[left] = arr[j - 1];
    arr[j - 1] = pivot;
    proof {
        assert(arr@ =~= t.update(left as int, t[j - 1]).update(j - 1, t[left as int]));
        lemma_swap_permutes_within(t, left as int, j - 1, lo@, hi@);
        lemma_permutes_within_trans(arr@, t, s0, lo@, hi@);
    }
    (i, j)
}


/// Position `x` (0-based) lies in the segment of the 1-based positions `seg.0..=seg.1`.
pub open spec fn seg_has(seg: (usize, usize), x: int) -> bool {
    seg.0 <= x + 1 <= seg.1
}

/// The number of positions in the segment `seg.0..=seg.1`.
pub open spec fn seg_len(seg: (usize, usize)) -> nat {
    if seg.1 + 1 >= seg.0 {
        (seg.1 + 1 - seg.0) as nat
    } else {
        0
    }
}

/// The number of positions in all the segments of `stack`.
pub open spec fn stack_len(stack: Seq<(usize, usize)>) -> nat
    decreases stack.len(),
{
    if stack.len() == 0 {
        0
    } else {
        stack_len(stack.drop_last()) + seg_len(stack.last())
    }
}

/// Ordering of `a` relative to the pending segments that `owner` assigns positions to
/// (`-1` for a position already in its final place): two elements are in order unless both
/// belong to one pending segment.
pub open spec fn ordered_across(a: Seq<i64>, owner: Seq<int>) -> bool {
    forall|x: int, y: int|
        0 <= x < y < a.len() && (owner[x] == -1 || owner[x] != owner[y]) ==> #[trigger] a[x]
            <= #[trigger] a[y]
}

/// The state of the quicksort loop: the pending segments are the stack's entries (the
/// `k`-th with owner `k`) and the current segment `cur` (owner `stack.len()`); they are
/// disjoint, and every other position holds its final element.
pub open spec fn pending_inv(
    a: Seq<i64>,
    owner: Seq<int>,
    stack: Seq<(usize, usize)>,
    cur: (usize, usize),
) -> bool {
    &&& owner.len() == a.len()
    &&& 1 <= cur.0 <= cur.1 + 1
    &&& cur.1 <= a.len()
    &&& stack.len() > 0 ==> cur.0 <= cur.1
    &&& forall|k: int| 0 <= k < stack.len() ==> 1 <= #[trigger] stack[k].0 <= stack[k].1 <= a.len()
    &&& forall|x: int| 0 <= x < a.len() ==> -1 <= #[trigger] owner[x] <= stack.len()
    &&& forall|k: int, x: int|
        0 <= k < stack.len() && 0 <= x < a.len() && #[trigger] seg_has(stack[k], x) ==> owner[x]
            == k
    &&& forall|x: int| 0 <= x < a.len() ==> (#[trigger] seg_has(cur, x) <==> owner[x] == stack.len())
    &&& forall|x: int|
        0 <= x < a.len() && 0 <= owner[x] < stack.len() ==> seg_has(stack[owner[x]], x)
    &&& ordered_across(a, owner)
}

/// Rearranging one pending segment keeps the elements outside it in order with it, and
/// the new ownership inside it is ordered when the rearrangement orders it so.
proof fn lemma_settle(
    a: Seq<i64>,
    a2: Seq<i64>,
    o: Seq<int>,
    o2: Seq<int>,
    lo: int,
    hi: int,
    c: int,
)
    requires
        o.len() == a.len(),
        o2.len() == a.len(),
        permutes_within(a2, a, lo, hi),
        forall|x: int| lo <= x < hi ==> o[x] == c,
        forall|x: int| 0 <= x < a.len() && !(lo <= x < hi) ==> o[x] != c && o2[x] == o[x],
        ordered_across(a, o),
        forall|x: int, y: int|
            lo <= x < y < hi && (o2[x] == -1 || o2[x] != o2[y]) ==> #[trigger] a2[x]
                <= #[trigger] a2[y],
    ensures
        ordered_across(a2, o2),
{
    assert forall|x: int, y: int|
        0 <= x < y < a2.len() && (o2[x] == -1 || o2[x] != o2[y]) implies #[trigger] a2[x]
        <= #[trigger] a2[y] by {
        if lo <= x < hi && !(lo <= y < hi) {
            assert forall|k: int| lo <= k < hi implies a[k] <= a[y] by {
                assert(a[k] <= a[y]);
            }
            lemma_permutes_within_bounds(a2, a, lo, hi, a[y]);
            assert(a2[x] <= a[y]);
            assert(a2[y] == a[y]);
        } else if !(lo <= x < hi) && lo <= y < hi {
            assert forall|k: int| lo <= k < hi implies a[k] >= a[x] by {
                assert(a[x] <= a[k]);
            }
            lemma_permutes_within_bounds(a2, a, lo, hi, a[x]);
            assert(a2[y] >= a[x]);
            assert(a2[x] == a[x]);
        } else if !(lo <= x < hi) && !(lo <= y < hi) {
            assert(a2[x] == a[x]);
            assert(a2[y] == a[y]);
            assert(a[x] <= a[y]);
        } else {
            assert(a2[x] <= a2[y]);
        }
    }
}

/// Each segment on `stack` is at least as long as all the segments above it together with
/// a current segment of `cur_len` positions: the shape that pushing the larger part of each
/// partition keeps.
pub open spec fn larger_below(stack: Seq<(usize, usize)>, cur_len: nat) -> bool
    decreases stack.len(),
{
    if stack.len() == 0 {
        true
    } else {
        &&& seg_len(stack.last()) >= cur_len
        &&& larger_below(stack.drop_last(), seg_len(stack.last()) + cur_len)
    }
}

/// A shorter current segment keeps the stack's shape.
proof fn lemma_larger_below_shorter(stack: Seq<(usize, usize)>, c1: nat, c2: nat)
    requires
        larger_below(stack, c1),
        c2 <= c1,
    ensures
        larger_below(stack, c2),
    decreases stack.len(),
{
    if stack.len() > 0 {
        lemma_larger_below_shorter(
            stack.drop_last(),
            seg_len(stack.last()) + c1,
            seg_len(stack.last()) + c2,
        );
    }
}

/// Over a nonempty current segment, a stack of that shape holds at least `2^depth` times
/// as many positions as the current segment, counted together with it.
proof fn lemma_larger_below_depth(stack: Seq<(usize, usize)>, c: nat)
    requires
        larger_below(stack, c),
        c >= 1,
    ensures
        pow2(stack.len()) * c <= stack_len(stack) + c,
    decreases stack.len(),
{
    let n = stack.len();
    if n == 0 {
        lemma2_to64();
        assert(pow2(0) * c == c);
    } else {
        let t = seg_len(stack.last());
        let below = stack.drop_last();
        lemma_larger_below_depth(below, t + c);
        lemma_pow2_unfold(n);
        let p = pow2((n - 1) as nat);
        assert(below.len() == (n - 1) as nat);
        assert(p * (t + c) <= stack_len(below) + t + c);
        assert(stack_len(stack) == stack_len(below) + t);
        assert(p * (2 * c) <= p * (t + c)) by (nonlinear_arith)
            requires
                2 * c <= t + c,
        ;
        assert(pow2(n) * c == p * (2 * c)) by (nonlinear_arith)
            requires
                pow2(n) == 2 * p,
        ;
    }
}

/// A stack of that shape over a nonempty current segment, within an array of `len`
/// positions, is at most `log2(len)` deep: fewer than `NSTACK` segments when `len` is at
/// most `i32::MAX`, and fewer than `STACK_CAPACITY` whatever `len` a `usize` holds.
proof fn lemma_stack_depth(stack: Seq<(usize, usize)>, c: nat, len: nat)
    requires
        larger_below(stack, c),
        c >= 1,
        stack_len(stack) + c <= len,
        len <= usize::MAX,
    ensures
        pow2(stack.len()) <= len,
        len <= i32::MAX ==> stack.len() < NSTACK,
        stack.len() < STACK_CAPACITY,
{
    lemma_larger_below_depth(stack, c);
    assert(pow2(stack.len()) <= pow2(stack.len()) * c) by (nonlinear_arith)
        requires
            c >= 1,
    ;
    if stack.len() >= 31 {
        lemma2_to64();
        if stack.len() > 31 {
            lemma_pow2_strictly_increases(31, stack.len());
        }
        if stack.len() > 64 {
            lemma_pow2_strictly_increases(64, stack.len());
        }
    }
}

/// Quicksort: sorts `arr` in place.
///
/// Segments of the 1-based positions `left..=right` are partitioned around the median of
/// their first, middle and last elements; the larger part is put on a stack of pending
/// segments and the smaller one processed next. Segments shorter than
/// `INSERTION_THRESHOLD + 1` are finished by insertion sort. Since each segment waiting
/// on the stack is at least as long as everything above it, the stack never holds more
/// than `log2(arr.len())` segments, so a fixed array of `STACK_CAPACITY` slots holds it
/// and nothing is allocated (no more than `NSTACK` slots are used when `arr.len()` is at
/// most `i32::MAX`).
#[verifier::spinoff_prover]
#[verifier::rlimit(40)]
pub fn sort(arr: &mut [i64])
    ensures
        permutes(final(arr)@, old(arr)@),
        sorted(final(arr)@),
{
    let len = arr.len();
    let ghost s0 = arr@;
    let mut stack: [(usize, usize); STACK_CAPACITY] = [(0, 0); STACK_CAPACITY];
    let mut stackp: usize = 0;
    let ghost mut gs: Seq<(usize, usize)> = Seq::empty();
    let mut left: usize = 1;
    let mut right: usize = len;
    let ghost mut owner: Seq<int> = Seq::new(len as nat, |x: int| 0int);
    proof {
        assert(s0.subrange(0, len as int) =~= s0);
    }
    loop
        invariant_except_break
            pending_inv(arr@, owner, gs, (left, right)),
            larger_below(gs, seg_len((left, right))),
            stack_len(gs) + seg_len((left, right)) <= len,
            gs.len() > 0 ==> pow2(gs.len()) <= len,
            len <= i32::MAX ==> gs.len() < NSTACK,
            gs.len() < STACK_CAPACITY,
            stackp == gs.len(),
            forall|k: int| 0 <= k < stackp ==> #[trigger] stack@[k] == gs[k],
        invariant
            arr@.len() == len,
            permutes_within(arr@, s0, 0, len as int),
        ensures
            sorted(arr@),
        decreases stack_len(gs) + seg_len((left, right)),
    {
        let ghost a = arr@;
        let ghost c = gs.len() as int;
        let ghost measure = stack_len(gs) + seg_len((left, right));
        if right < left || right - left < INSERTION_THRESHOLD {
            // insertion sort of the current segment; its positions are then final
            if right >= left - 1 {
                insertion_sort_range(arr, left - 1, right);
            }
            proof {
                let o2 = Seq::new(
                    len as nat,
                    |x: int| if left - 1 <= x < right { -1int } else { owner[x] },
                );
                assert forall|x: int| left - 1 <= x < right implies owner[x] == c by {
                    assert(seg_has((left, right), x));
                }
                assert forall|x: int| 0 <= x < len && !(left - 1 <= x < right) implies owner[x]
                    != c by {
                    assert(!seg_has((left, right), x));
                }
                lemma_settle(a, arr@, owner, o2, left - 1, right as int, c);
                lemma_permutes_within_widen(arr@, a, left - 1, right as int);
                lemma_permutes_within_trans(arr@, a, s0, 0, len as int);
                owner = o2;
            }
            if stackp == 0 {
                proof {
                    assert forall|x: int, y: int| 0 <= x <= y < len implies arr@[x]
                        <= arr@[y] by {
                        if x < y {
                            assert(owner[x] == -1);
                        }
                    }
                }
                break;
            }
            let ghost st = gs;
            stackp -= 1;
            let top = stack[stackp];
            proof {
                gs = gs.drop_last();
                assert(st =~= gs.push(top));
                assert(gs =~= st.drop_last());
                assert(stack_len(st) == stack_len(gs) + seg_len(top));
                lemma_larger_below_shorter(
                    gs,
                    seg_len(top) + seg_len((left, right)),
                    seg_len(top),
                );
            }
            left = top.0;
            right = top.1;
            assert(stack_len(gs) + seg_len((left, right)) < measure);
        } else {
            let (i, j) = partition(arr, left, right);
            let ghost st = gs;
            proof {
                assert forall|x: int| left - 1 <= x < right implies owner[x] == c by {
                    assert(seg_has((left, right), x));
                }
                assert forall|x: int| 0 <= x < len && !(left - 1 <= x < right) implies owner[x]
                    != c by {
                    assert(!seg_has((left, right), x));
                }
                lemma_permutes_within_widen(arr@, a, left - 1, right as int);
            }
            if right - i + 1 >= j - left {
                // the right part waits on the stack
                stack.set(stackp, (i, right));
                stackp += 1;
                proof {
                    gs = gs.push((i, right));
                    let o2 = Seq::new(
                        len as nat,
                        |x: int|
                            if left - 1 <= x < j - 1 {
                                c + 1
                            } else if j - 1 <= x < i - 1 {
                                -1int
                            } else if i - 1 <= x < right {
                                c
                            } else {
                                owner[x]
                            },
                    );
                    lemma_settle(a, arr@, owner, o2, left - 1, right as int, c);
                    owner = o2;
                    assert(gs.drop_last() =~= st);
                    assert(stack_len(gs) == stack_len(st) + seg_len((i, right)));
                    lemma_larger_below_shorter(
                        st,
                        seg_len((left, right)),
                        seg_len((i, right)) + seg_len((left, (j - 1) as usize)),
                    );
                }
                right = j - 1;
                assert(stack_len(gs) + seg_len((left, right)) < measure);
            } else {
                // the left part waits on the stack
                stack.set(stackp, (left, j - 1));
                stackp += 1;
                proof {
                    gs = gs.push((left, (j - 1) as usize));
                    let o2 = Seq::new(
                        len as nat,
                        |x: int|
                            if left - 1 <= x < j - 1 {
                                c
                            } else if j - 1 <= x < i - 1 {
                                -1int
                            } else if i - 1 <= x < right {
                                c + 1
                            } else {
                                owner[x]
                            },
                    );
                    lemma_settle(a, arr@, owner, o2, left - 1, right as int, c);
                    owner = o2;
                    assert(gs.drop_last() =~= st);
                    assert(stack_len(gs) == stack_len(st) + seg_len((left, (j - 1) as usize)));
                    lemma_larger_below_shorter(
                        st,
                        seg_len((left, right)),
                        seg_len((left, (j - 1) as usize)) + seg_len((i, right)),
                    );
                }
                left = i;
                assert(stack_len(gs) + seg_len((left, right)) < measure);
            }
            proof {
                lemma_permutes_within_trans(arr@, a, s0, 0, len as int);
            }
        }
        proof {
            if gs.len() > 0 {
                lemma_stack_depth(gs, seg_len((left, right)), len as nat);
            }
        }
    }
    proof {
        assert(arr@.subrange(0, len as int) =~= arr@);
    }
}


/// Sorting determines its result: two sorted arrangements of the same elements are equal,
/// so every correct sort of an array gives the same array.
pub proof fn lemma_sorted_permutation_unique(a: Seq<i64>, b: Seq<i64>)
    requires
        sorted(a),
        sorted(b),
        permutes(a, b),
    ensures
        a == b,
    decreases a.len(),
{
    vstd::seq_lib::to_multiset_len(a);
    vstd::seq_lib::to_multiset_len(b);
    if a.len() > 0 {
        vstd::seq_lib::to_multiset_contains(a, a[0]);
        vstd::seq_lib::to_multiset_contains(b, a[0]);
        vstd::seq_lib::to_multiset_contains(a, b[0]);
        vstd::seq_lib::to_multiset_contains(b, b[0]);
        assert(a.contains(a[0]));
        assert(b.contains(b[0]));
        let j = choose|j: int| 0 <= j < b.len() && b[j] == a[0];
        let k = choose|k: int| 0 <= k < a.len() && a[k] == b[0];
        assert(b[0] <= b[j]);
        assert(a[0] <= a[k]);
        assert(a[0] == b[0]);
        vstd::seq_lib::to_multiset_remove(a, 0);
        vstd::seq_lib::to_multiset_remove(b, 0);
        let a1 = a.remove(0);
        let b1 = b.remove(0);
        assert(sorted(a1)) by {
            assert forall|i: int, k2: int| 0 <= i <= k2 < a1.len() implies a1[i] <= a1[k2] by {
                assert(a1[i] == a[i + 1] && a1[k2] == a[k2 + 1]);
            }
        }
        assert(sorted(b1)) by {
            assert forall|i: int, k2: int| 0 <= i <= k2 < b1.len() implies b1[i] <= b1[k2] by {
                assert(b1[i] == b[i + 1] && b1[k2] == b[k2 + 1]);
            }
        }
        lemma_sorted_permutation_unique(a1, b1);
        assert forall|i: int| 0 <= i < a.len() implies a[i] == b[i] by {
            if i > 0 {
                assert(a1[i - 1] == b1[i - 1]);
            }
        }
        assert(a =~= b);
    }
}

} // verus!
