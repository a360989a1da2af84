//! The time at which the most guests are present at a party.

use crate::heater_radius::ascending;
use vstd::prelude::*;

verus! {

/// How many elements of `times` are less than `bound`.
pub open spec fn count_below(times: Seq<u32>, bound: int) -> int
    decreases times.len(),
{
    if times.len() == 0 {
        0
    } else {
        count_below(times.drop_last(), bound) + if times.last() < bound {
            1int
        } else {
            0int
        }
    }
}

/// The number of guests present at time `t`: those who have arrived at `t` or
/// before, less those who have left before `t`. A guest who leaves at `t` is
/// still counted at `t`.
pub open spec fn present(arrivals: Seq<u32>, exits: Seq<u32>, t: int) -> int {
    count_below(arrivals, t + 1) - count_below(exits, t)
}

/// `time` is the earliest of the arrival times at which the most guests are
/// present; it is 0 where at no arrival time anybody is present.
pub open spec fn is_busiest_arrival(arrivals: Seq<u32>, exits: Seq<u32>, time: int) -> bool {
    if forall|i: int|
        0 <= i < arrivals.len() ==> present(arrivals, exits, #[trigger] arrivals[i] as int) <= 0 {
        time == 0
    } else {
        &&& exists|i: int| 0 <= i < arrivals.len() && #[trigger] arrivals[i] == time
        &&& present(arrivals, exits, time) > 0
        &&& forall|i: int|
            0 <= i < arrivals.len() ==> {
                let other = #[trigger] arrivals[i] as int;
                &&& present(arrivals, exits, other) <= present(arrivals, exits, time)
                &&& present(arrivals, exits, other) == present(arrivals, exits, time) ==> time
                    <= other
            }
    }
}

/// In an ascending sequence the elements below a bound come first, and their
/// number is the position of the first element that is not below it.
pub proof fn lemma_count_below_splits(times: Seq<u32>, bound: int)
    requires
        ascending(times),
    ensures
        0 <= count_below(times, bound) <= times.len(),
        forall|i: int| 0 <= i < count_below(times, bound) ==> times[i] < bound,
        forall|i: int| count_below(times, bound) <= i < times.len() ==> times[i] >= bound,
    decreases times.len(),
{
    if times.len() > 0 {
        let front = times.drop_last();
        assert forall|i: int, j: int| 0 <= i <= j < front.len() implies front[i] <= front[j] by {
            assert(times[i] <= times[j]);
        }
        lemma_count_below_splits(front, bound);
        let q = count_below(front, bound);
        if times.last() < bound {
            if q < front.len() {
                assert(front[q] >= bound);
                assert(times[q] <= times[times.len() - 1]);
            }
        }
        assert forall|i: int| 0 <= i < count_below(times, bound) implies times[i] < bound by {
            if i < front.len() {
                assert(front[i] == times[i]);
            }
        }
        assert forall|i: int| count_below(times, bound) <= i < times.len() implies times[i]
            >= bound by {
            if i < front.len() {
                assert(front[i] == times[i]);
            }
        }
    }
}

/// A position that parts an ascending sequence into the elements below a
/// bound and the others is the number of elements below the bound.
pub proof fn lemma_split_is_count_below(times: Seq<u32>, bound: int, p: int)
    requires
        ascending(times),
        0 <= p <= times.len(),
        forall|i: int| 0 <= i < p ==> times[i] < bound,
        forall|i: int| p <= i < times.len() ==> times[i] >= bound,
    ensures
        count_below(times, bound) == p,
{
    lemma_count_below_splits(times, bound);
    let q = count_below(times, bound);
    if p < q {
        assert(times[p] < bound);
    }
    if q < p {
        assert(times[q] >= bound);
    }
}

/// The guests counted when the arrival at position `i` of the ascending
/// `arrivals` comes in: that arrival and those before it in the sequence,
/// less the guests who have left before its time.
pub open spec fn counted_at(arrivals: Seq<u32>, exits: Seq<u32>, i: int) -> int {
    i + 1 - count_below(exits, arrivals[i] as int)
}

/// Taking one element out of a sequence takes one from the count where the
/// element is below the bound, and nothing else.
pub proof fn lemma_count_below_without(times: Seq<u32>, bound: int, at: int)
    requires
        0 <= at < times.len(),
    ensures
        count_below(times, bound) == count_below(times.remove(at), bound) + if times[at] < bound {
            1int
        } else {
            0int
        },
    decreases times.len(),
{
    if at == times.len() - 1 {
        assert(times.remove(at) =~= times.drop_last());
    } else {
        lemma_count_below_without(times.drop_last(), bound, at);
        assert(times.remove(at).drop_last() =~= times.drop_last().remove(at));
    }
}

/// How many elements are below a bound does not depend on their order.
pub proof fn lemma_count_below_of_same_elements(a: Seq<u32>, b: Seq<u32>, bound: int)
    requires
        a.to_multiset() == b.to_multiset(),
    ensures
        count_below(a, bound) == count_below(b, bound),
    decreases a.len(),
{
    a.to_multiset_ensures();
    b.to_multiset_ensures();
    if a.len() > 0 {
        let x = a.last();
        let front = a.drop_last();
        front.to_multiset_ensures();
        assert(front.push(x) =~= a);
        assert(a.to_multiset().count(x) > 0);
        assert(b.contains(x));
        let at = choose|at: int| 0 <= at < b.len() && b[at] == x;
        assert(b.remove(at).to_multiset() =~= front.to_multiset());
        lemma_count_below_of_same_elements(front, b.remove(at), bound);
        lemma_count_below_without(b, bound, at);
    }
}

/// Which arrival time is the busiest does not depend on the order in which
/// the arrivals and the exits are given.
pub proof fn lemma_busiest_of_same_elements(
    arrivals: Seq<u32>,
    exits: Seq<u32>,
    sorted_arrivals: Seq<u32>,
    sorted_exits: Seq<u32>,
    time: int,
)
    requires
        sorted_arrivals.to_multiset() == arrivals.to_multiset(),
        sorted_exits.to_multiset() == exits.to_multiset(),
        is_busiest_arrival(sorted_arrivals, sorted_exits, time),
    ensures
        is_busiest_arrival(arrivals, exits, time),
{
    arrivals.to_multiset_ensures();
    sorted_arrivals.to_multiset_ensures();
    assert forall|t: int| #[trigger]
        present(arrivals, exits, t) == present(sorted_arrivals, sorted_exits, t) by {
        lemma_count_below_of_same_elements(arrivals, sorted_arrivals, t + 1);
        lemma_count_below_of_same_elements(exits, sorted_exits, t);
    }
    assert forall|i: int| 0 <= i < arrivals.len() implies sorted_arrivals.contains(
        #[trigger] arrivals[i],
    ) by {
        assert(arrivals.contains(arrivals[i]));
        assert(arrivals.to_multiset().count(arrivals[i]) > 0);
    }
    assert forall|i: int| 0 <= i < sorted_arrivals.len() implies arrivals.contains(
        #[trigger] sorted_arrivals[i],
    ) by {
        assert(sorted_arrivals.contains(sorted_arrivals[i]));
        assert(sorted_arrivals.to_multiset().count(sorted_arrivals[i]) > 0);
    }
    if forall|i: int|
        0 <= i < sorted_arrivals.len() ==> present(
            sorted_arrivals,
            sorted_exits,
            #[trigger] sorted_arrivals[i] as int,
        ) <= 0 {
        assert forall|i: int| 0 <= i < arrivals.len() implies present(
            arrivals,
            exits,
            #[trigger] arrivals[i] as int,
        ) <= 0 by {
            let j = choose|j: int|
                0 <= j < sorted_arrivals.len() && sorted_arrivals[j] == arrivals[i];
            assert(present(sorted_arrivals, sorted_exits, sorted_arrivals[j] as int) <= 0);
        }
    } else {
        let w = choose|w: int|
            0 <= w < sorted_arrivals.len() && #[trigger] sorted_arrivals[w] == time;
        assert(arrivals.contains(sorted_arrivals[w]));
        let v = choose|v: int| 0 <= v < arrivals.len() && arrivals[v] == sorted_arrivals[w];
        assert(arrivals[v] == time);
        assert(present(arrivals, exits, arrivals[v] as int) > 0);
        assert forall|i: int| 0 <= i < arrivals.len() implies ({
            let other = #[trigger] arrivals[i] as int;
            &&& present(arrivals, exits, other) <= present(arrivals, exits, time)
            &&& present(arrivals, exits, other) == present(arrivals, exits, time) ==> time <= other
        }) by {
            let j = choose|j: int|
                0 <= j < sorted_arrivals.len() && sorted_arrivals[j] == arrivals[i];
            let other = sorted_arrivals[j] as int;
            assert(present(sorted_arrivals, sorted_exits, other) <= present(
                sorted_arrivals,
                sorted_exits,
                time,
            ));
        }
    }
}

/// Sorts the slice in ascending order.
///
/// Trusted: the body calls `sort_unstable` of the standard library on a slice
/// of `u32`. The contract says what its documentation says: afterwards the
/// slice is in ascending order and holds the same elements as before, each as
/// often as before.
#[verifier::external_body]
fn sort_times(times: &mut [u32])
    ensures
        ascending(final(times)@),
        final(times)@.to_multiset() == old(times)@.to_multiset(),
{
    times.sort_unstable();
}

/// Sorts both slices and returns the earliest arrival time at which the most
/// guests are present, or 0 where at no arrival time anybody is present. A
/// guest who arrives at the time another leaves is counted together with
/// that one.
pub fn maximum_guests(arrivals: &mut [u32], exits: &mut [u32]) -> (time: u32)
    ensures
        ascending(final(arrivals)@),
        final(arrivals)@.to_multiset() == old(arrivals)@.to_multiset(),
        ascending(final(exits)@),
        final(exits)@.to_multiset() == old(exits)@.to_multiset(),
        is_busiest_arrival(old(arrivals)@, old(exits)@, time as int),
{
    let ghost given_arrivals = arrivals@;
    let ghost given_exits = exits@;
    sort_times(arrivals);
    sort_times(exits);
    let n: usize = arrivals.len();
    let m: usize = exits.len();
    let ghost arr = arrivals@;
    let ghost ex = exits@;
    let mut max_guests: i128 = 0;
    let mut cur_guests: i128 = 0;
    let mut time: u32 = 0;
    let mut a: usize = 0;
    let mut e: usize = 0;
    let ghost mut best: int = 0;
    while a < n
        invariant
            arrivals@ == arr,
            exits@ == ex,
            n == arr.len(),
            m == ex.len(),
            ascending(arr),
            ascending(ex),
            a <= n,
            e <= m,
            cur_guests == a - e,
            max_guests >= 0,
            forall|j: int| 0 <= j < e && a < n ==> ex[j] < arr[a as int],
            forall|i: int| 0 <= i < a ==> #[trigger] counted_at(arr, ex, i) <= max_guests,
            max_guests == 0 ==> time == 0,
            max_guests > 0 ==> 0 <= best < a && counted_at(arr, ex, best) == max_guests
                && arr[best] == time && forall|i: int|
                0 <= i < best ==> #[trigger] counted_at(arr, ex, i) < max_guests,
        decreases (n - a) + (m - e),
    {
        if e == m || arrivals[a] <= exits[e] {
            proof {
                assert forall|j: int| e <= j < ex.len() implies ex[j] >= arr[a as int] by {
                    assert(ex[e as int] <= ex[j]);
                }
                lemma_split_is_count_below(ex, arr[a as int] as int, e as int);
                assert(counted_at(arr, ex, a as int) == cur_guests + 1);
            }
            cur_guests += 1;
            if cur_guests > max_guests {
                max_guests = cur_guests;
                time = arrivals[a];
                proof {
                    best = a as int;
                }
            }
            proof {
                if a + 1 < n {
                    assert(arr[a as int] <= arr[a + 1]);
                }
            }
            a += 1;
        } else {
            cur_guests -= 1;
            e += 1;
        }
    }
    proof {
        lemma_busiest(arr, ex, max_guests as int, best, time as int);
        lemma_busiest_of_same_elements(given_arrivals, given_exits, arr, ex, time as int);
    }
    time
}

/// What the sweep has found is the busiest arrival time: `most` is the
/// largest count met, greater than 0, and `best` the first position with it.
proof fn lemma_busiest(arrivals: Seq<u32>, exits: Seq<u32>, most: int, best: int, time: int)
    requires
        ascending(arrivals),
        ascending(exits),
        most >= 0,
        forall|i: int|
            0 <= i < arrivals.len() ==> #[trigger] counted_at(arrivals, exits, i) <= most,
        most == 0 ==> time == 0,
        most > 0 ==> 0 <= best < arrivals.len() && counted_at(arrivals, exits, best) == most
            && arrivals[best] == time && forall|i: int|
            0 <= i < best ==> #[trigger] counted_at(arrivals, exits, i) < most,
    ensures
        is_busiest_arrival(arrivals, exits, time),
{
    if most == 0 {
        assert forall|i: int| 0 <= i < arrivals.len() implies present(
            arrivals,
            exits,
            #[trigger] arrivals[i] as int,
        ) <= 0 by {
            let g = lemma_last_of_equals(arrivals, exits, i);
            assert(counted_at(arrivals, exits, g) <= most);
        }
    } else {
        let top = lemma_last_of_equals(arrivals, exits, best);
        assert(counted_at(arrivals, exits, top) <= most);
        assert(present(arrivals, exits, arrivals[best] as int) == most);
        assert(!(present(arrivals, exits, arrivals[best] as int) <= 0));
        assert forall|i: int| 0 <= i < arrivals.len() implies ({
            let other = #[trigger] arrivals[i] as int;
            &&& present(arrivals, exits, other) <= present(arrivals, exits, time)
            &&& present(arrivals, exits, other) == present(arrivals, exits, time) ==> time <= other
        }) by {
            let g = lemma_last_of_equals(arrivals, exits, i);
            assert(counted_at(arrivals, exits, g) <= most);
            if counted_at(arrivals, exits, g) == most {
                if g < best {
                    assert(counted_at(arrivals, exits, g) < most);
                }
                assert(arrivals[best] <= arrivals[g]);
            }
        }
    }
}

/// Among the arrivals at the time of the arrival at position `i`, the last
/// one in the ascending sequence is counted with all who are present then.
proof fn lemma_last_of_equals(arrivals: Seq<u32>, exits: Seq<u32>, i: int) -> (g: int)
    requires
        ascending(arrivals),
        0 <= i < arrivals.len(),
    ensures
        i <= g < arrivals.len(),
        arrivals[g] == arrivals[i],
        present(arrivals, exits, arrivals[i] as int) == counted_at(arrivals, exits, g),
        counted_at(arrivals, exits, i) <= counted_at(arrivals, exits, g),
{
    lemma_count_below_splits(arrivals, arrivals[i] + 1);
    let g = count_below(arrivals, arrivals[i] + 1) - 1;
    if g < i {
        assert(arrivals[i] >= arrivals[i] + 1);
    }
    assert(arrivals[i] <= arrivals[g]);
    g
}

} // verus!
