//! The least radius with which a row of heaters warms every house.

use vstd::prelude::*;

verus! {

/// How far apart two positions are.
pub open spec fn distance(a: int, b: int) -> int {
    if a >= b {
        a - b
    } else {
        b - a
    }
}

/// Some heater stands within `radius` of `house`.
pub open spec fn heated(house: int, heaters: Seq<u32>, radius: int) -> bool {
    exists|j: int| 0 <= j < heaters.len() && distance(house, #[trigger] heaters[j] as int) <= radius
}

/// Every house has some heater within `radius`.
pub open spec fn heats_all(houses: Seq<u32>, heaters: Seq<u32>, radius: int) -> bool {
    forall|i: int| 0 <= i < houses.len() ==> heated(#[trigger] houses[i] as int, heaters, radius)
}

/// No element is smaller than one before it.
pub open spec fn ascending(s: Seq<u32>) -> bool {
    forall|i: int, j: int| 0 <= i <= j < s.len() ==> s[i] <= s[j]
}

/// What a radius heats, a larger radius heats too.
pub proof fn lemma_larger_radius_heats(houses: Seq<u32>, heaters: Seq<u32>, small: int, large: int)
    requires
        heats_all(houses, heaters, small),
        small <= large,
    ensures
        heats_all(houses, heaters, large),
{
    assert forall|i: int| 0 <= i < houses.len() implies heated(
        #[trigger] houses[i] as int,
        heaters,
        large,
    ) by {
        assert(heated(houses[i] as int, heaters, small));
        let j = choose|j: int|
            0 <= j < heaters.len() && distance(houses[i] as int, #[trigger] heaters[j] as int)
                <= small;
        assert(distance(houses[i] as int, heaters[j] as int) <= large);
    }
}

/// Whether the slice is in ascending order.
pub fn is_sorted(arr: &[u32]) -> (sorted: bool)
    ensures
        sorted == ascending(arr@),
{
    if arr.len() < 2 {
        return true;
    }
    let last: usize = arr.len() - 1;
    let mut i: usize = 0;
    while i < last
        invariant
            last + 1 == arr@.len(),
            i <= last,
            forall|a: int, b: int| 0 <= a <= b <= i ==> arr@[a] <= arr@[b],
        decreases arr@.len() - i,
    {
        if arr[i] > arr[i + 1] {
            return false;
        }
        i += 1;
    }
    true
}

/// Whether heaters of the given radius warm every house.
pub fn can_heat_all(houses: &[u32], heaters: &[u32], radius: u32) -> (ok: bool)
    requires
        ascending(houses@),
        ascending(heaters@),
    ensures
        ok == heats_all(houses@, heaters@, radius as int),
{
    let mut i: usize = 0;
    let mut k: usize = 0;
    while k < houses.len()
        invariant
            ascending(houses@),
            ascending(heaters@),
            k <= houses@.len(),
            i <= heaters@.len(),
            forall|h: int|
                0 <= h < k ==> heated(#[trigger] houses@[h] as int, heaters@, radius as int),
            forall|j: int| 0 <= j < i ==> k > 0 && heaters@[j] + radius < houses@[k - 1],
        decreases houses@.len() - k,
    {
        let house: u32 = houses[k];
        while i < heaters.len() && (heaters[i] as u64) + (radius as u64) < house as u64
            invariant
                ascending(houses@),
                k < houses@.len(),
                house == houses@[k as int],
                i <= heaters@.len(),
                forall|j: int| 0 <= j < i ==> heaters@[j] + radius < house,
            decreases heaters@.len() - i,
        {
            i += 1;
        }
        if i == heaters.len() || heaters[i] as u64 > (house as u64) + (radius as u64) {
            proof {
                if heated(house as int, heaters@, radius as int) {
                    let j = choose|j: int|
                        0 <= j < heaters@.len() && distance(
                            house as int,
                            #[trigger] heaters@[j] as int,
                        ) <= radius;
                    if j >= i {
                        assert(heaters@[i as int] <= heaters@[j]);
                    }
                }
                assert(!heated(houses@[k as int] as int, heaters@, radius as int));
            }
            return false;
        }
        proof {
            assert(distance(house as int, heaters@[i as int] as int) <= radius);
        }
        k += 1;
    }
    true
}

/// The least radius such that every house has a heater within that distance.
/// Both slices hold positions in ascending order, and neither is empty.
pub fn min_heater_radius(houses: &[u32], heaters: &[u32]) -> (radius: u32)
    requires
        houses@.len() > 0,
        heaters@.len() > 0,
        ascending(houses@),
        ascending(heaters@),
    ensures
        heats_all(houses@, heaters@, radius as int),
        forall|r: int| 0 <= r < radius ==> !heats_all(houses@, heaters@, r),
{
    let last_house: u32 = houses[houses.len() - 1];
    let last_heater: u32 = heaters[heaters.len() - 1];
    let to_last_house: u32 = if last_house >= heaters[0] {
        last_house - heaters[0]
    } else {
        0
    };
    let to_first_house: u32 = if last_heater >= houses[0] {
        last_heater - houses[0]
    } else {
        0
    };
    let mut left: u32 = 0;
    let mut right: u32 = if to_last_house >= to_first_house {
        to_last_house
    } else {
        to_first_house
    };
    proof {
        assert forall|i: int| 0 <= i < houses@.len() implies heated(
            #[trigger] houses@[i] as int,
            heaters@,
            right as int,
        ) by {
            assert(houses@[0] <= houses@[i] <= houses@[houses@.len() - 1]);
            assert(heaters@[0] <= heaters@[heaters@.len() - 1]);
            assert(distance(houses@[i] as int, heaters@[0] as int) <= right);
        }
    }
    while left < right
        invariant
            ascending(houses@),
            ascending(heaters@),
            left <= right,
            heats_all(houses@, heaters@, right as int),
            forall|r: int| 0 <= r < left ==> !heats_all(houses@, heaters@, r),
        decreases right - left,
    {
        let mid: u32 = left + (right - left) / 2;
        if can_heat_all(houses, heaters, mid) {
            right = mid;
        } else {
            proof {
                assert forall|r: int| 0 <= r < mid + 1 implies !heats_all(houses@, heaters@, r) by {
                    if heats_all(houses@, heaters@, r) {
                        lemma_larger_radius_heats(houses@, heaters@, r, mid as int);
                    }
                }
            }
            left = mid + 1;
        }
    }
    left
}

} // verus!
