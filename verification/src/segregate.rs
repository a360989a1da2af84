//! Putting a list of 0s, 1s and 2s in order: the 0s first, then the 1s, then
//! the 2s.

use std::collections::VecDeque;
use vstd::prelude::*;

verus! {

/// How often `v` occurs in `s`.
pub open spec fn count_of(s: Seq<u8>, v: u8) -> nat
    decreases s.len(),
{
    if s.len() == 0 {
        0
    } else {
        count_of(s.drop_last(), v) + if s.last() == v {
            1nat
        } else {
            0nat
        }
    }
}

/// Every element is 0, 1 or 2.
pub open spec fn only_0_1_2(s: Seq<u8>) -> bool {
    forall|i: int| 0 <= i < s.len() ==> s[i] <= 2
}

/// As many 0s as `s` has, then as many 1s as `s` has, then 2s up to the
/// length of `s`.
pub open spec fn segregated(s: Seq<u8>) -> Seq<u8> {
    Seq::new(
        s.len(),
        |i: int|
            if i < count_of(s, 0) {
                0u8
            } else if i < count_of(s, 0) + count_of(s, 1) {
                1u8
            } else {
                2u8
            },
    )
}

/// No element is smaller than one before it.
pub open spec fn ascending(s: Seq<u8>) -> bool {
    forall|i: int, j: int| 0 <= i <= j < s.len() ==> s[i] <= s[j]
}

/// A sequence of 0s, 1s and 2s has as many elements as it has 0s, 1s and 2s
/// together.
pub proof fn lemma_counts_add_up(s: Seq<u8>)
    requires
        only_0_1_2(s),
    ensures
        count_of(s, 0) + count_of(s, 1) + count_of(s, 2) == s.len(),
    decreases s.len(),
{
    if s.len() > 0 {
        lemma_counts_add_up(s.drop_last());
    }
}

/// How often an element occurs in a sequence is how often the elements of
/// the sequence, taken together, hold it.
pub proof fn lemma_count_of_is_multiplicity(s: Seq<u8>, v: u8)
    ensures
        count_of(s, v) == s.to_multiset().count(v),
    decreases s.len(),
{
    s.to_multiset_ensures();
    if s.len() == 0 {
        assert(!s.contains(v));
    } else {
        let front = s.drop_last();
        lemma_count_of_is_multiplicity(front, v);
        front.to_multiset_ensures();
        assert(front.push(s.last()) =~= s);
    }
}

/// In the first `n` elements of the segregated sequence, each of 0, 1 and 2
/// occurs as often as its share of the positions allows.
proof fn lemma_count_of_segregated_prefix(s: Seq<u8>, n: int, v: u8)
    requires
        0 <= n <= s.len(),
    ensures
        count_of(segregated(s).take(n), v) == {
            let zeros = count_of(s, 0) as int;
            let ones = count_of(s, 1) as int;
            let low = if v == 0 {
                0
            } else if v == 1 {
                zeros
            } else {
                zeros + ones
            };
            let high = if v == 0 {
                zeros
            } else if v == 1 {
                zeros + ones
            } else {
                s.len() as int
            };
            if v > 2 || n <= low || high <= low {
                0
            } else if n <= high {
                n - low
            } else {
                high - low
            }
        },
    decreases n,
{
    if n > 0 {
        lemma_count_of_segregated_prefix(s, n - 1, v);
        assert(segregated(s).take(n).drop_last() =~= segregated(s).take(n - 1));
    }
}

/// The segregated sequence is in ascending order and holds the elements of
/// the sequence it was made from, each as often as that one.
pub proof fn lemma_segregated_sorts(s: Seq<u8>)
    requires
        only_0_1_2(s),
    ensures
        ascending(segregated(s)),
        segregated(s).to_multiset() == s.to_multiset(),
{
    lemma_counts_add_up(s);
    let t = segregated(s);
    assert(t.take(s.len() as int) =~= t);
    assert forall|v: u8| t.to_multiset().count(v) == s.to_multiset().count(v) by {
        lemma_count_of_segregated_prefix(s, s.len() as int, v);
        lemma_count_of_is_multiplicity(t, v);
        lemma_count_of_is_multiplicity(s, v);
        if v > 2 {
            lemma_absent_value(s, v);
        }
    }
    assert(t.to_multiset() =~= s.to_multiset());
}

/// A value that is none of 0, 1 and 2 does not occur among 0s, 1s and 2s.
proof fn lemma_absent_value(s: Seq<u8>, v: u8)
    requires
        only_0_1_2(s),
        v > 2,
    ensures
        count_of(s, v) == 0,
    decreases s.len(),
{
    if s.len() > 0 {
        lemma_absent_value(s.drop_last(), v);
    }
}

/// Puts the list in order, in place: all its 0s, then all its 1s, then all
/// its 2s. The list holds nothing but 0s, 1s and 2s.
pub fn segregate(head: &mut VecDeque<u8>)
    requires
        only_0_1_2(old(head)@),
    ensures
        final(head)@ == segregated(old(head)@),
        ascending(final(head)@),
        final(head)@.to_multiset() == old(head)@.to_multiset(),
{
    let ghost s = head@;
    let n: usize = head.len();
    let mut zeros: usize = 0;
    let mut ones: usize = 0;
    let mut i: usize = 0;
    while i < n
        invariant
            head@ == s,
            n == s.len(),
            only_0_1_2(s),
            i <= n,
            zeros == count_of(s.take(i as int), 0),
            ones == count_of(s.take(i as int), 1),
            zeros + ones <= i,
        decreases n - i,
    {
        let x: u8 = head[i];
        proof {
            assert(s.take(i + 1).drop_last() =~= s.take(i as int));
            lemma_counts_add_up(s.take(i as int));
        }
        if x == 0 {
            zeros += 1;
        } else if x == 1 {
            ones += 1;
        }
        i += 1;
    }
    proof {
        assert(s.take(n as int) =~= s);
        lemma_counts_add_up(s);
    }
    head.clear();
    let mut k: usize = 0;
    while k < n
        invariant
            n == s.len(),
            zeros == count_of(s, 0),
            ones == count_of(s, 1),
            zeros + ones <= n,
            k <= n,
            head@ == segregated(s).take(k as int),
        decreases n - k,
    {
        let v: u8 = if k < zeros {
            0
        } else if k - zeros < ones {
            1
        } else {
            2
        };
        head.push_back(v);
        proof {
            assert(head@ =~= segregated(s).take(k + 1));
        }
        k += 1;
    }
    proof {
        assert(segregated(s).take(n as int) =~= segregated(s));
        lemma_segregated_sorts(s);
    }
}

} // verus!
