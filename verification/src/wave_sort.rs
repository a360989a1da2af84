//! Arranging numbers as a wave: down, up, down, up, and so on.

use vstd::prelude::*;
use vstd::seq_lib::{to_multiset_insert, to_multiset_remove};

verus! {

/// The sequence goes down (or stays level) from each even position to the
/// next position, and up (or stays level) from each odd one.
pub open spec fn is_wave(s: Seq<i32>) -> bool {
    forall|i: int|
        0 <= i && i + 1 < s.len() ==> if i % 2 == 0 {
            s[i] >= #[trigger] s[i + 1]
        } else {
            s[i] <= #[trigger] s[i + 1]
        }
}

/// The elements at the positions `i` and `j` change places.
pub open spec fn swapped(s: Seq<i32>, i: int, j: int) -> Seq<i32> {
    s.update(i, s[j]).update(j, s[i])
}

/// What one pass makes of the sequence once it has dealt with the first `n`
/// positions: at each of them in turn, the element changes places with its
/// right neighbour where the two are not as a wave wants them.
pub open spec fn wave_pass(s: Seq<i32>, n: int) -> Seq<i32>
    decreases n,
{
    if n <= 0 {
        s
    } else {
        let before = wave_pass(s, n - 1);
        let i = n - 1;
        if (i % 2 == 0 && before[i] < before[i + 1]) || (i % 2 == 1 && before[i] > before[i + 1]) {
            swapped(before, i, i + 1)
        } else {
            before
        }
    }
}

/// The sequence in wave order, as one pass from left to right leaves it.
pub open spec fn wave_sorted(s: Seq<i32>) -> Seq<i32> {
    wave_pass(s, s.len() - 1)
}

/// Two elements that change places leave the same elements behind, each as
/// often as before.
pub proof fn lemma_swapped_holds_the_same(s: Seq<i32>, i: int, j: int)
    requires
        0 <= i < s.len(),
        0 <= j < s.len(),
    ensures
        swapped(s, i, j).to_multiset() == s.to_multiset(),
{
    let once = s.update(i, s[j]);
    lemma_update_holds(s, i, s[j]);
    lemma_update_holds(once, j, s[i]);
    assert(swapped(s, i, j).to_multiset() =~= s.to_multiset());
}

/// A new element at a position takes the old one's place among the elements.
proof fn lemma_update_holds(s: Seq<i32>, i: int, v: i32)
    requires
        0 <= i < s.len(),
    ensures
        s.update(i, v).to_multiset() == s.to_multiset().remove(s[i]).insert(v),
        s.to_multiset().count(s[i]) > 0,
{
    s.to_multiset_ensures();
    assert(s.contains(s[i]));
    to_multiset_remove(s, i);
    to_multiset_insert(s.remove(i), i, v);
    assert(s.remove(i).insert(i, v) =~= s.update(i, v));
}

/// After `n` positions the pass has made a wave of the first `n + 1`
/// elements, has left the others where they were, and holds the same
/// elements as at the start.
pub proof fn lemma_wave_pass(s: Seq<i32>, n: int)
    requires
        0 <= n < s.len(),
    ensures
        wave_pass(s, n).len() == s.len(),
        wave_pass(s, n).to_multiset() == s.to_multiset(),
        is_wave(wave_pass(s, n).take(n + 1)),
        forall|j: int| n < j < s.len() ==> wave_pass(s, n)[j] == s[j],
    decreases n,
{
    if n == 0 {
        assert(wave_pass(s, 0) == s);
    } else {
        lemma_wave_pass(s, n - 1);
        let before = wave_pass(s, n - 1);
        let after = wave_pass(s, n);
        let i = n - 1;
        if after != before {
            lemma_swapped_holds_the_same(before, i, i + 1);
        }
        assert forall|p: int| 0 <= p && p + 1 < n + 1 implies if p % 2 == 0 {
            after.take(n + 1)[p] >= #[trigger] after.take(n + 1)[p + 1]
        } else {
            after.take(n + 1)[p] <= #[trigger] after.take(n + 1)[p + 1]
        } by {
            if p + 1 < n {
                assert(before.take(n)[p + 1] == before[p + 1]);
                assert(before.take(n)[p] == before[p]);
            }
        }
    }
}

/// Arranges the numbers as a wave, in place and in one pass from left to
/// right: each number in turn changes places with its right neighbour where
/// the two are not as a wave wants them. The slice is handed back.
pub fn wave_sort(nums: &mut [i32]) -> (res: &mut [i32])
    ensures
        res@ == wave_sorted(old(nums)@),
        is_wave(res@),
        res@.to_multiset() == old(nums)@.to_multiset(),
        final(nums)@ == final(res)@,
{
    let ghost s = nums@;
    if nums.is_empty() {
        proof {
            assert(wave_sorted(s) == s);
        }
        return nums;
    }
    let last: usize = nums.len() - 1;
    let mut i: usize = 0;
    while i < last
        invariant
            nums@.len() == s.len(),
            last + 1 == s.len(),
            i <= last,
            nums@ == wave_pass(s, i as int),
        decreases last - i,
    {
        if (i % 2 == 0 && nums[i] < nums[i + 1]) || (i % 2 == 1 && nums[i] > nums[i + 1]) {
            let here: i32 = nums[i];
            let next: i32 = nums[i + 1];
            nums[i] = next;
            nums[i + 1] = here;
        }
        proof {
            lemma_wave_pass(s, i as int);
            assert(nums@ =~= wave_pass(s, i + 1));
        }
        i += 1;
    }
    proof {
        lemma_wave_pass(s, last as int);
        assert(nums@.take(last + 1) =~= nums@);
    }
    nums
}

} // verus!
