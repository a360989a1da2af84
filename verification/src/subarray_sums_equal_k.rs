//! Counting the contiguous, non-empty stretches of a sequence whose elements
//! add up to a given number.

use std::collections::HashMap;
use vstd::prelude::*;

verus! {

/// The numbers of a slice of `i64`, as integers.
pub open spec fn ints_of_i64(s: Seq<i64>) -> Seq<int> {
    Seq::new(s.len(), |i: int| s[i] as int)
}

/// The numbers of a slice of `u32`, as integers.
pub open spec fn ints_of_u32(s: Seq<u32>) -> Seq<int> {
    Seq::new(s.len(), |i: int| s[i] as int)
}

/// The sum of the elements at the positions `from .. to`, `to` left out.
pub open spec fn total(s: Seq<int>, from: int, to: int) -> int
    decreases to - from,
{
    if to <= from {
        0
    } else {
        total(s, from, to - 1) + s[to - 1]
    }
}

/// How many of the stretches that end before position `end` and start at one
/// of the first `starts` positions add up to `k`.
pub open spec fn count_ending_at(s: Seq<int>, k: int, end: int, starts: int) -> int
    decreases starts,
{
    if starts <= 0 {
        0
    } else {
        count_ending_at(s, k, end, starts - 1) + if total(s, starts - 1, end) == k {
            1int
        } else {
            0int
        }
    }
}

/// How many non-empty stretches among the first `n` elements add up to `k`:
/// for each end, those that end there.
pub open spec fn count_within(s: Seq<int>, k: int, n: int) -> int
    decreases n,
{
    if n <= 0 {
        0
    } else {
        count_within(s, k, n - 1) + count_ending_at(s, k, n, n)
    }
}

/// How many contiguous, non-empty stretches of `s` add up to `k`.
pub open spec fn subarray_count(s: Seq<int>, k: int) -> int {
    count_within(s, k, s.len() as int)
}

/// How many of the first `upto` sums from the start (over no element, over
/// one, and so on) are `p`.
pub open spec fn occurrences(s: Seq<int>, p: int, upto: int) -> int
    decreases upto,
{
    if upto <= 0 {
        0
    } else {
        occurrences(s, p, upto - 1) + if total(s, 0, upto - 1) == p {
            1int
        } else {
            0int
        }
    }
}

/// The stretches among the first `n` elements that add up to `k`, each given
/// by the position where it starts and the position before which it ends.
pub open spec fn stretches(s: Seq<int>, k: int, n: int) -> Set<(int, int)> {
    Set::new(|p: (int, int)| 0 <= p.0 < p.1 <= n && total(s, p.0, p.1) == k)
}

/// The stretches that add up to `k`, end before position `end` and start at
/// one of the first `starts` positions.
pub open spec fn stretches_ending_at(s: Seq<int>, k: int, end: int, starts: int) -> Set<
    (int, int),
> {
    Set::new(|p: (int, int)| 0 <= p.0 < starts && p.1 == end && total(s, p.0, end) == k)
}

/// The count of the stretches with a given end is the number of such stretches.
pub proof fn lemma_count_ending_at_is_cardinality(s: Seq<int>, k: int, end: int, starts: int)
    requires
        0 <= starts,
    ensures
        stretches_ending_at(s, k, end, starts).finite(),
        stretches_ending_at(s, k, end, starts).len() == count_ending_at(s, k, end, starts),
    decreases starts,
{
    let now = stretches_ending_at(s, k, end, starts);
    if starts == 0 {
        assert(now =~= Set::<(int, int)>::empty());
    } else {
        lemma_count_ending_at_is_cardinality(s, k, end, starts - 1);
        let before = stretches_ending_at(s, k, end, starts - 1);
        if total(s, starts - 1, end) == k {
            assert(now =~= before.insert((starts - 1, end)));
        } else {
            assert(now =~= before);
        }
    }
}

/// The count of the stretches that add up to `k` is the number of pairs of a
/// start and an end between which the elements add up to `k`.
pub proof fn lemma_count_within_is_cardinality(s: Seq<int>, k: int, n: int)
    requires
        0 <= n,
    ensures
        stretches(s, k, n).finite(),
        stretches(s, k, n).len() == count_within(s, k, n),
    decreases n,
{
    let now = stretches(s, k, n);
    if n == 0 {
        assert(now =~= Set::<(int, int)>::empty());
    } else {
        lemma_count_within_is_cardinality(s, k, n - 1);
        lemma_count_ending_at_is_cardinality(s, k, n, n);
        let before = stretches(s, k, n - 1);
        let last = stretches_ending_at(s, k, n, n);
        assert(now =~= before + last);
        assert(before.disjoint(last));
        vstd::set_lib::lemma_set_disjoint_lens(before, last);
    }
}

/// A stretch may be summed up in two parts.
pub proof fn lemma_total_split(s: Seq<int>, a: int, b: int, c: int)
    requires
        a <= b <= c,
    ensures
        total(s, a, c) == total(s, a, b) + total(s, b, c),
    decreases c - b,
{
    if c > b {
        lemma_total_split(s, a, b, c - 1);
    }
}

/// Elements that are not negative add up to a sum that is not negative.
pub proof fn lemma_total_not_negative(s: Seq<int>, a: int, b: int)
    requires
        forall|i: int| a <= i < b ==> s[i] >= 0,
    ensures
        total(s, a, b) >= 0,
    decreases b - a,
{
    if b > a {
        lemma_total_not_negative(s, a, b - 1);
    }
}

/// No more stretches are counted than there are starts.
pub proof fn lemma_count_ending_at_bounds(s: Seq<int>, k: int, end: int, starts: int)
    requires
        0 <= starts,
    ensures
        0 <= count_ending_at(s, k, end, starts) <= starts,
    decreases starts,
{
    if starts > 0 {
        lemma_count_ending_at_bounds(s, k, end, starts - 1);
    }
}

/// The count over the first `n` elements is not negative, and no greater
/// than with each end taking all the starts before it.
pub proof fn lemma_count_within_bounds(s: Seq<int>, k: int, n: int)
    requires
        0 <= n,
    ensures
        0 <= count_within(s, k, n) <= n * n,
    decreases n,
{
    if n > 0 {
        lemma_count_within_bounds(s, k, n - 1);
        lemma_count_ending_at_bounds(s, k, n, n);
        assert((n - 1) * (n - 1) + n <= n * n) by (nonlinear_arith)
            requires
                n > 0,
        ;
    }
}

/// Starts none of which gives the sum `k` add nothing to the count.
pub proof fn lemma_starts_without_match(s: Seq<int>, k: int, end: int, a: int, b: int)
    requires
        0 <= a <= b,
        forall|j: int| a <= j < b ==> total(s, j, end) != k,
    ensures
        count_ending_at(s, k, end, b) == count_ending_at(s, k, end, a),
    decreases b - a,
{
    if b > a {
        lemma_starts_without_match(s, k, end, a, b - 1);
    }
}

/// A stretch that ends before `end` adds up to `k` exactly when the sum from
/// the start up to where it begins is `k` less than the sum up to `end`.
pub proof fn lemma_ending_at_is_occurrences(s: Seq<int>, k: int, end: int, starts: int)
    requires
        0 <= starts <= end,
    ensures
        count_ending_at(s, k, end, starts) == occurrences(s, total(s, 0, end) - k, starts),
    decreases starts,
{
    if starts > 0 {
        lemma_ending_at_is_occurrences(s, k, end, starts - 1);
        lemma_total_split(s, 0, starts - 1, end);
    }
}

/// No sum occurs more often than sums have been taken.
pub proof fn lemma_occurrences_bounds(s: Seq<int>, p: int, upto: int)
    requires
        0 <= upto,
    ensures
        0 <= occurrences(s, p, upto) <= upto,
    decreases upto,
{
    if upto > 0 {
        lemma_occurrences_bounds(s, p, upto - 1);
    }
}

/// The number of contiguous, non-empty stretches of `nums` that add up to
/// `k`, or `None` where there are more than a `u32` can hold.
pub fn checked_subarray_sums(nums: &[i64], k: i64) -> (count: Option<u32>)
    ensures
        count is Some <==> subarray_count(ints_of_i64(nums@), k as int) <= u32::MAX,
        count matches Some(c) ==> c == subarray_count(ints_of_i64(nums@), k as int),
{
    let ghost s = ints_of_i64(nums@);
    let n: usize = nums.len();
    let mut count: u128 = 0;
    let mut sum: i128 = 0;
    let mut seen: HashMap<i128, u128> = HashMap::new();
    seen.insert(0, 1);
    proof {
        assert forall|p: int| #[trigger] occurrences(s, p, 1) == (if p == 0 {
            1int
        } else {
            0int
        }) by {
            assert(occurrences(s, p, 0) == 0);
            assert(total(s, 0, 0) == 0);
        }
    }
    let mut i: usize = 0;
    while i < n
        invariant
            s == ints_of_i64(nums@),
            n == s.len(),
            i <= n,
            sum == total(s, 0, i as int),
            -0x8000_0000_0000_0000 * i <= sum <= 0x7fff_ffff_ffff_ffff * i,
            count == count_within(s, k as int, i as int),
            count <= i * 0x1_0000_0000_0000_0000,
            forall|p: i128| #[trigger]
                seen@.contains_key(p) ==> seen@[p] == occurrences(s, p as int, i + 1),
            forall|p: i128|
                !#[trigger] seen@.contains_key(p) ==> occurrences(s, p as int, i + 1) == 0,
        decreases n - i,
    {
        let num: i64 = nums[i];
        sum = sum + num as i128;
        let wanted: i128 = sum - k as i128;
        proof {
            assert(s[i as int] == num);
            lemma_ending_at_is_occurrences(s, k as int, i + 1, i + 1);
            lemma_occurrences_bounds(s, wanted as int, i + 1);
            lemma_occurrences_bounds(s, sum as int, i + 1);
        }
        match seen.get(&wanted) {
            Some(times) => {
                count = count + *times;
            },
            None => {},
        }
        let so_far: u128 = match seen.get(&sum) {
            Some(times) => *times,
            None => 0,
        };
        seen.insert(sum, so_far + 1);
        i += 1;
    }
    if count > u32::MAX as u128 {
        None
    } else {
        Some(count as u32)
    }
}

/// The number of contiguous, non-empty stretches of `nums` that add up to `k`.
pub fn subarray_sums(nums: &[i64], k: i64) -> (count: u32)
    requires
        subarray_count(ints_of_i64(nums@), k as int) <= u32::MAX,
    ensures
        count == subarray_count(ints_of_i64(nums@), k as int),
{
    checked_subarray_sums(nums, k).unwrap()
}

/// One element is its own sum.
pub proof fn lemma_total_of_one(s: Seq<int>, at: int)
    ensures
        total(s, at, at + 1) == s[at],
{
    assert(total(s, at, at) == 0);
}

/// With no negative element, a stretch adds up to no less than its later part.
pub proof fn lemma_total_of_later_part(s: Seq<int>, a: int, b: int, c: int)
    requires
        a <= b <= c,
        forall|i: int| a <= i < b ==> s[i] >= 0,
    ensures
        total(s, b, c) <= total(s, a, c),
        a < b ==> total(s, b, c) <= total(s, a, c) - s[a],
{
    lemma_total_split(s, a, b, c);
    lemma_total_not_negative(s, a, b);
    if a < b {
        lemma_total_split(s, a, a + 1, b);
        lemma_total_of_one(s, a);
        lemma_total_not_negative(s, a + 1, b);
    }
}

/// The number of contiguous, non-empty stretches of `nums` that add up to
/// `k`, or `None` where there are more than a `u32` can hold. A window is
/// moved over the numbers, which can be done as none of them is negative.
pub fn checked_subarray_sums_2ptr(nums: &[u32], k: u32) -> (count: Option<u32>)
    ensures
        count is Some <==> subarray_count(ints_of_u32(nums@), k as int) <= u32::MAX,
        count matches Some(c) ==> c == subarray_count(ints_of_u32(nums@), k as int),
{
    let ghost s = ints_of_u32(nums@);
    let n: usize = nums.len();
    let mut left: usize = 0;
    let mut curr_sum: u64 = 0;
    let mut count: u128 = 0;
    let mut right: usize = 0;
    while right < n
        invariant
            s == ints_of_u32(nums@),
            n == s.len(),
            right <= n,
            left <= right,
            curr_sum == total(s, left as int, right as int),
            curr_sum <= u32::MAX,
            forall|j: int| 0 <= j < left ==> #[trigger] total(s, j, right as int) > k,
            count == count_within(s, k as int, right as int),
            count <= right * 0x1_0000_0000_0000_0000,
        decreases n - right,
    {
        let ghost end = right + 1;
        curr_sum = curr_sum + nums[right] as u64;
        proof {
            assert(s[right as int] == nums@[right as int]);
            assert forall|j: int| 0 <= j < left implies #[trigger] total(s, j, end) > k by {
                assert(total(s, j, right as int) > k);
                assert(s[end - 1] >= 0);
            }
        }
        while curr_sum > k as u64 && left < right
            invariant
                s == ints_of_u32(nums@),
                n == s.len(),
                left <= right < n,
                end == right + 1,
                curr_sum == total(s, left as int, end),
                curr_sum <= 2 * u32::MAX,
                forall|j: int| 0 <= j < left ==> #[trigger] total(s, j, end) > k,
            decreases right - left,
        {
            proof {
                lemma_total_split(s, left as int, left + 1, end);
                lemma_total_of_one(s, left as int);
                lemma_total_not_negative(s, left + 1, end);
                assert(s[left as int] == nums@[left as int]);
            }
            curr_sum = curr_sum - nums[left] as u64;
            left += 1;
        }
        proof {
            if left == right {
                lemma_total_of_one(s, right as int);
            }
            lemma_starts_without_match(s, k as int, end, 0, left as int);
        }
        let ghost base = count;
        if curr_sum == k as u64 {
            count += 1;
            let mut temp: usize = left;
            while temp < right && nums[temp] == 0
                invariant
                    s == ints_of_u32(nums@),
                    n == s.len(),
                    left <= temp <= right < n,
                    end == right + 1,
                    total(s, temp as int, end) == k,
                    count == base + count_ending_at(s, k as int, end, temp + 1),
                    count <= base + (temp - left) + 1,
                    base <= right * 0x1_0000_0000_0000_0000,
                decreases right - temp,
            {
                proof {
                    lemma_total_split(s, temp as int, temp + 1, end);
                    lemma_total_of_one(s, temp as int);
                    assert(s[temp as int] == nums@[temp as int]);
                }
                count += 1;
                temp += 1;
            }
            proof {
                if temp < right {
                    assert(s[temp as int] == nums@[temp as int]);
                    assert forall|j: int| temp + 1 <= j < end implies total(s, j, end) != k by {
                        lemma_total_of_later_part(s, temp as int, j, end);
                    }
                    lemma_starts_without_match(s, k as int, end, temp + 1, end);
                }
            }
        } else {
            proof {
                assert forall|j: int| left <= j < end implies total(s, j, end) != k by {
                    lemma_total_of_later_part(s, left as int, j, end);
                }
                lemma_starts_without_match(s, k as int, end, left as int, end);
            }
        }
        right += 1;
    }
    if count > u32::MAX as u128 {
        None
    } else {
        Some(count as u32)
    }
}

/// The number of contiguous, non-empty stretches of `nums` that add up to
/// `k`, found with a window that is moved over the numbers.
pub fn subarray_sums_2ptr(nums: &[u32], k: u32) -> (count: u32)
    requires
        subarray_count(ints_of_u32(nums@), k as int) <= u32::MAX,
    ensures
        count == subarray_count(ints_of_u32(nums@), k as int),
{
    checked_subarray_sums_2ptr(nums, k).unwrap()
}

} // verus!
