//! The run of neighbouring elements whose sum is the largest.

use core::cmp::Ordering;
use core::ops::Range;
use crate::Container;
use vstd::prelude::*;
use vstd::std_specs::cmp::PartialEqSpec;
use vstd::std_specs::cmp::PartialEqSpecImpl;
use vstd::std_specs::cmp::PartialOrdSpec;
use vstd::std_specs::cmp::PartialOrdSpecImpl;

verus! {

/// A run of neighbouring elements and the sum of its elements.
#[derive(Debug)]
pub struct MaxSubarray<T> {
    /// The positions of the first and of the last element of the run.
    pub range: Range<usize>,
    /// The sum of the elements of the run.
    pub sum: T,
}

impl<T: Clone> Clone for MaxSubarray<T> {
    /// The same run with a clone of the sum.
    fn clone(&self) -> (copy: Self)
        ensures
            copy.range == self.range,
            cloned(self.sum, copy.sum),
    {
        MaxSubarray {
            range: Range { start: self.range.start, end: self.range.end },
            sum: self.sum.clone(),
        }
    }
}

impl<T: PartialEq> PartialEq for MaxSubarray<T> {
    /// Two runs are equal where their sums are.
    fn eq(&self, other: &Self) -> (equal: bool) {
        self.sum == other.sum
    }
}

impl<T: PartialEq> PartialEqSpecImpl for MaxSubarray<T> {
    open spec fn obeys_eq_spec() -> bool {
        T::obeys_eq_spec()
    }

    open spec fn eq_spec(&self, other: &Self) -> bool {
        self.sum.eq_spec(&other.sum)
    }
}

impl<T: Eq> Eq for MaxSubarray<T> {

}

impl<T: PartialOrd> PartialOrd for MaxSubarray<T> {
    /// Two runs compare as their sums do.
    fn partial_cmp(&self, other: &Self) -> (order: Option<Ordering>) {
        self.sum.partial_cmp(&other.sum)
    }
}

impl<T: PartialOrd> PartialOrdSpecImpl for MaxSubarray<T> {
    open spec fn obeys_partial_cmp_spec() -> bool {
        T::obeys_partial_cmp_spec()
    }

    open spec fn partial_cmp_spec(&self, other: &Self) -> Option<Ordering> {
        self.sum.partial_cmp_spec(&other.sum)
    }
}

/// The sum of the elements of `s` from `a` up to `b`.
pub open spec fn sum(s: Seq<i64>, a: int, b: int) -> int
    decreases b - a,
{
    if b <= a {
        0
    } else {
        sum(s, a, b - 1) + s[b - 1]
    }
}

/// The sum of every run between `low` and `high` can be counted.
pub open spec fn fits(s: Seq<i64>, low: int, high: int) -> bool {
    forall|a: int, b: int|
        low <= a <= b <= high ==> i64::MIN <= #[trigger] sum(s, a, b) <= i64::MAX
}

/// The run from `start` to `end` lies between `low` and `high`, its sum is
/// `total`, and no run between `low` and `high` has a larger sum.
pub open spec fn is_best(s: Seq<i64>, low: int, high: int, start: int, end: int, total: int) -> bool {
    &&& low <= start <= end < high
    &&& total == sum(s, start, end + 1)
    &&& forall|a: int, b: int| low <= a <= b < high ==> #[trigger] sum(s, a, b + 1) <= total
}

/// The run from `start` to `end` holds the elements at `mid - 1` and at
/// `mid`, its sum is `total`, and no such run between `low` and `high` has a
/// larger sum.
pub open spec fn is_best_across(
    s: Seq<i64>,
    low: int,
    mid: int,
    high: int,
    start: int,
    end: int,
    total: int,
) -> bool {
    &&& low <= start < mid <= end < high
    &&& total == sum(s, start, end + 1)
    &&& forall|a: int, b: int| low <= a < mid <= b < high ==> #[trigger] sum(s, a, b + 1) <= total
}

/// A run is the sum of its two parts.
pub proof fn lemma_sum_parts(s: Seq<i64>, a: int, b: int, c: int)
    requires
        a <= b <= c,
    ensures
        sum(s, a, c) == sum(s, a, b) + sum(s, b, c),
    decreases c - b,
{
    if b < c {
        lemma_sum_parts(s, a, b, c - 1);
    }
}

/// The best of the best run of each half and the best run across the middle
/// is the best run.
pub proof fn lemma_best_of_three(
    s: Seq<i64>,
    low: int,
    mid: int,
    high: int,
    left: int,
    right: int,
    across: int,
    start: int,
    end: int,
    total: int,
)
    requires
        low < mid < high,
        forall|a: int, b: int| low <= a <= b < mid ==> #[trigger] sum(s, a, b + 1) <= left,
        forall|a: int, b: int| mid <= a <= b < high ==> #[trigger] sum(s, a, b + 1) <= right,
        forall|a: int, b: int| low <= a < mid <= b < high ==> #[trigger] sum(s, a, b + 1) <= across,
        low <= start <= end < high,
        total == sum(s, start, end + 1),
        total >= left,
        total >= right,
        total >= across,
    ensures
        is_best(s, low, high, start, end, total),
{
    assert forall|a: int, b: int| low <= a <= b < high implies #[trigger] sum(s, a, b + 1)
        <= total by {
        if b < mid {
        } else if a >= mid {
        } else {
        }
    }
}

/// The best run that holds the elements at `mid - 1` and at `mid`, between
/// `low` and `high`: where it begins, where it ends and its sum.
pub fn best_across(data: &[i64], low: usize, mid: usize, high: usize) -> (best: (usize, usize, i64))
    requires
        low < mid < high <= data@.len(),
        fits(data@, low as int, high as int),
    ensures
        is_best_across(
            data@,
            low as int,
            mid as int,
            high as int,
            best.0 as int,
            best.1 as int,
            best.2 as int,
        ),
{
    let ghost s = data@;
    let mut start: usize = mid - 1;
    let mut left_sum: i64 = data[mid - 1];
    let mut running: i64 = left_sum;
    let mut i: usize = mid - 1;
    assert(sum(s, mid - 1, mid as int) == s[mid - 1]) by {
        assert(sum(s, mid - 1, mid - 1) == 0);
    }
    while i > low
        invariant
            s == data@,
            low <= i <= start < mid < high <= s.len(),
            fits(s, low as int, high as int),
            running == sum(s, i as int, mid as int),
            left_sum == sum(s, start as int, mid as int),
            forall|a: int| i <= a < mid ==> #[trigger] sum(s, a, mid as int) <= left_sum,
        decreases i,
    {
        i -= 1;
        proof {
            lemma_sum_parts(s, i as int, i + 1, mid as int);
            assert(sum(s, i as int, i + 1) == s[i as int]) by {
                assert(sum(s, i as int, i as int) == 0);
            }
            assert(i64::MIN <= sum(s, i as int, mid as int) <= i64::MAX);
        }
        running = running + data[i];
        if running > left_sum {
            left_sum = running;
            start = i;
        }
    }
    let mut end: usize = mid;
    let mut right_sum: i64 = data[mid];
    let mut going: i64 = right_sum;
    let mut j: usize = mid + 1;
    assert(sum(s, mid as int, mid + 1) == s[mid as int]) by {
        assert(sum(s, mid as int, mid as int) == 0);
    }
    while j < high
        invariant
            s == data@,
            low < mid <= end < j <= high <= s.len(),
            fits(s, low as int, high as int),
            going == sum(s, mid as int, j as int),
            right_sum == sum(s, mid as int, end + 1),
            forall|b: int| mid <= b < j ==> #[trigger] sum(s, mid as int, b + 1) <= right_sum,
        decreases high - j,
    {
        proof {
            assert(i64::MIN <= sum(s, mid as int, j + 1) <= i64::MAX);
        }
        going = going + data[j];
        if going > right_sum {
            right_sum = going;
            end = j;
        }
        j += 1;
    }
    proof {
        lemma_sum_parts(s, start as int, mid as int, end + 1);
        assert(i64::MIN <= sum(s, start as int, end + 1) <= i64::MAX);
        assert forall|a: int, b: int| low <= a < mid <= b < high implies #[trigger] sum(
            s,
            a,
            b + 1,
        ) <= left_sum + right_sum by {
            lemma_sum_parts(s, a, mid as int, b + 1);
            assert(sum(s, a, mid as int) <= left_sum);
            assert(sum(s, mid as int, b + 1) <= right_sum);
        }
    }
    (start, end, left_sum + right_sum)
}

/// The best run between `low` and `high`, found by halving: it is the best
/// run of the first half, that of the second half or the best run across
/// the middle.
pub fn best_by_halving(data: &[i64], low: usize, high: usize) -> (best: (usize, usize, i64))
    requires
        low < high <= data@.len(),
        fits(data@, low as int, high as int),
    ensures
        is_best(data@, low as int, high as int, best.0 as int, best.1 as int, best.2 as int),
    decreases high - low,
{
    let ghost s = data@;
    if low == high - 1 {
        proof {
            assert(sum(s, low as int, low + 1) == s[low as int]) by {
                assert(sum(s, low as int, low as int) == 0);
            }
        }
        return (low, low, data[low]);
    }
    let mid = low + (high - low) / 2;
    let left = best_by_halving(data, low, mid);
    let right = best_by_halving(data, mid, high);
    let cross = best_across(data, low, mid, high);
    if left.2 >= right.2 && left.2 >= cross.2 {
        proof {
            lemma_best_of_three(
                s,
                low as int,
                mid as int,
                high as int,
                left.2 as int,
                right.2 as int,
                cross.2 as int,
                left.0 as int,
                left.1 as int,
                left.2 as int,
            );
        }
        left
    } else if right.2 >= left.2 && right.2 >= cross.2 {
        proof {
            lemma_best_of_three(
                s,
                low as int,
                mid as int,
                high as int,
                left.2 as int,
                right.2 as int,
                cross.2 as int,
                right.0 as int,
                right.1 as int,
                right.2 as int,
            );
        }
        right
    } else {
        proof {
            lemma_best_of_three(
                s,
                low as int,
                mid as int,
                high as int,
                left.2 as int,
                right.2 as int,
                cross.2 as int,
                cross.0 as int,
                cross.1 as int,
                cross.2 as int,
            );
        }
        cross
    }
}

/// The best run between `low` and `high`, found by trying every run.
pub fn best_by_trying(data: &[i64], low: usize, high: usize) -> (best: (usize, usize, i64))
    requires
        low < high <= data@.len(),
        fits(data@, low as int, high as int),
    ensures
        is_best(data@, low as int, high as int, best.0 as int, best.1 as int, best.2 as int),
{
    let ghost s = data@;
    let mut max_sum: i64 = data[low];
    let mut start: usize = low;
    let mut end: usize = low;
    let mut i: usize = low;
    assert(sum(s, low as int, low + 1) == s[low as int]) by {
        assert(sum(s, low as int, low as int) == 0);
    }
    while i < high
        invariant
            s == data@,
            low <= i <= high <= s.len(),
            low < high,
            fits(s, low as int, high as int),
            low <= start <= end < high,
            max_sum == sum(s, start as int, end + 1),
            forall|a: int, b: int| low <= a < i && a <= b < high ==> #[trigger] sum(s, a, b + 1)
                <= max_sum,
        decreases high - i,
    {
        let mut running: i64 = 0;
        let mut j: usize = i;
        assert(sum(s, i as int, i as int) == 0);
        while j < high
            invariant
                s == data@,
                low <= i <= j <= high <= s.len(),
                i < high,
                fits(s, low as int, high as int),
                low <= start <= end < high,
                running == sum(s, i as int, j as int),
                max_sum == sum(s, start as int, end + 1),
                forall|a: int, b: int|
                    low <= a < i && a <= b < high ==> #[trigger] sum(s, a, b + 1) <= max_sum,
                forall|b: int| i <= b < j ==> #[trigger] sum(s, i as int, b + 1) <= max_sum,
            decreases high - j,
        {
            proof {
                assert(i64::MIN <= sum(s, i as int, j + 1) <= i64::MAX);
            }
            running = running + data[j];
            if running > max_sum {
                max_sum = running;
                start = i;
                end = j;
            }
            j += 1;
        }
        i += 1;
    }
    (start, end, max_sum)
}

/// The best run between `low` and `high`, found in one pass: the best run
/// that ends at an element is that element alone or the element behind the
/// best run that ends before it. Nothing lies between `low` and `high` where
/// they are equal; then the run is the place 0 with the smallest sum that
/// there is.
pub fn best_in_one_pass(data: &[i64], low: usize, high: usize) -> (best: (usize, usize, i64))
    requires
        low <= high <= data@.len(),
        fits(data@, low as int, high as int),
    ensures
        low == high ==> best.2 == i64::MIN && best.0 == 0 && best.1 == 0,
        low < high ==> is_best(
            data@,
            low as int,
            high as int,
            best.0 as int,
            best.1 as int,
            best.2 as int,
        ),
{
    let ghost s = data@;
    let mut max_sum: i64 = i64::MIN;
    let mut current_low: usize = low;
    let mut running: i64 = 0;
    let mut start: usize = 0;
    let mut end: usize = 0;
    let mut i: usize = low;
    while i < high
        invariant
            s == data@,
            low <= i <= high <= s.len(),
            fits(s, low as int, high as int),
            i == low ==> max_sum == i64::MIN && start == 0 && end == 0,
            i > low ==> {
                &&& low <= current_low < i
                &&& running == sum(s, current_low as int, i as int)
                &&& forall|a: int| low <= a < i ==> #[trigger] sum(s, a, i as int) <= running
                &&& low <= start <= end < i
                &&& max_sum == sum(s, start as int, end + 1)
                &&& forall|a: int, b: int|
                    low <= a <= b < i ==> #[trigger] sum(s, a, b + 1) <= max_sum
            },
        decreases high - i,
    {
        let v = data[i];
        let ghost before = running;
        proof {
            assert(sum(s, i as int, i + 1) == s[i as int]) by {
                assert(sum(s, i as int, i as int) == 0);
            }
            if i > low {
                assert(i64::MIN <= sum(s, current_low as int, i + 1) <= i64::MAX);
            }
        }
        if i == low {
            current_low = i;
            running = v;
        } else {
            running = running + v;
        }
        if v >= running {
            running = v;
            current_low = i;
        }
        proof {
            assert forall|a: int| low <= a < i + 1 implies #[trigger] sum(s, a, i + 1)
                <= running by {
                if a < i {
                    assert(sum(s, a, i as int) <= before);
                }
            }
            assert forall|a: int, b: int| low <= a <= b < i + 1 implies #[trigger] sum(
                s,
                a,
                b + 1,
            ) <= (if running > max_sum || i == low {
                running
            } else {
                max_sum
            }) by {
                if b == i {
                    assert(sum(s, a, i + 1) <= running);
                }
            }
        }
        if running > max_sum || i == low {
            max_sum = running;
            start = current_low;
            end = i;
        }
        i += 1;
    }
    (start, end, max_sum)
}

impl Container<i64> {
    /// The best run that holds the elements at `mid - 1` and at `mid`,
    /// between `low` and `high`. An empty container has none.
    pub fn find_max_crossing_subarray(&self, low: usize, mid: usize, high: usize) -> (best: Option<
        MaxSubarray<i64>,
    >)
        requires
            self@.len() > 0 ==> low < mid < high <= self@.len() && fits(
                self@,
                low as int,
                high as int,
            ),
        ensures
            best is None <==> self@.len() == 0,
            best is Some ==> is_best_across(
                self@,
                low as int,
                mid as int,
                high as int,
                best->0.range.start as int,
                best->0.range.end as int,
                best->0.sum as int,
            ),
    {
        if self.is_empty() {
            return None;
        }
        let (start, end, sum) = best_across(self.data.as_slice(), low, mid, high);
        Some(MaxSubarray { range: Range { start, end }, sum })
    }

    /// The best run between `low` and `high`, found by halving: it is the
    /// best run of the first half, that of the second half or the best run
    /// across the middle. An empty container has none.
    pub fn find_max_subarray(&self, low: usize, high: usize) -> (best: Option<MaxSubarray<i64>>)
        requires
            self@.len() > 0 ==> low < high <= self@.len() && fits(self@, low as int, high as int),
        ensures
            best is None <==> self@.len() == 0,
            best is Some ==> is_best(
                self@,
                low as int,
                high as int,
                best->0.range.start as int,
                best->0.range.end as int,
                best->0.sum as int,
            ),
    {
        if self.is_empty() {
            return None;
        }
        let (start, end, sum) = best_by_halving(self.data.as_slice(), low, high);
        Some(MaxSubarray { range: Range { start, end }, sum })
    }

    /// The best run between `low` and `high`, found by trying every run.
    /// An empty container has none.
    pub fn brute_force_max_subarray(&self, low: usize, high: usize) -> (best: Option<
        MaxSubarray<i64>,
    >)
        requires
            self@.len() > 0 ==> low < high <= self@.len() && fits(self@, low as int, high as int),
        ensures
            best is None <==> self@.len() == 0,
            best is Some ==> is_best(
                self@,
                low as int,
                high as int,
                best->0.range.start as int,
                best->0.range.end as int,
                best->0.sum as int,
            ),
    {
        if self.is_empty() {
            return None;
        }
        let (start, end, sum) = best_by_trying(self.data.as_slice(), low, high);
        Some(MaxSubarray { range: Range { start, end }, sum })
    }

    /// The best run between `low` and `high`, found in one pass: the best
    /// run that ends at an element is that element alone or the element
    /// behind the best run that ends before it. Nothing lies between `low`
    /// and `high` where they are equal; then the run is the place 0 with the
    /// smallest sum that there is.
    pub fn iteratively_find_max_subarray(&self, low: usize, high: usize) -> (best: Option<
        MaxSubarray<i64>,
    >)
        requires
            low <= high <= self@.len(),
            fits(self@, low as int, high as int),
        ensures
            best is Some,
            low == high ==> best->0.sum == i64::MIN && best->0.range.start == 0
                && best->0.range.end == 0,
            low < high ==> is_best(
                self@,
                low as int,
                high as int,
                best->0.range.start as int,
                best->0.range.end as int,
                best->0.sum as int,
            ),
    {
        let (start, end, sum) = best_in_one_pass(self.data.as_slice(), low, high);
        Some(MaxSubarray { range: Range { start, end }, sum })
    }
}

} // verus!
