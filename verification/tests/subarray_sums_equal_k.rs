use weekly_drills::subarray_sums_equal_k::{
    checked_subarray_sums, checked_subarray_sums_2ptr, subarray_sums, subarray_sums_2ptr,
};

#[test]
fn test_subarray_sums_1() {
    assert_eq!(subarray_sums(&[1, 0, 1, 1, 0, 1], 2), 6);
}

#[test]
fn test_subarray_sums_2() {
    assert_eq!(subarray_sums(&[1, 2, 3], 3), 2);
}

#[test]
fn test_subarray_sums_3() {
    assert_eq!(subarray_sums(&[0, 0, 0, 0], 0), 10);
}

#[test]
fn test_subarray_sums_4() {
    assert_eq!(subarray_sums(&[0, 0, 0, 0, 0, 0, 0], 1), 0);
}

#[test]
fn test_subarray_sums_negatives() {
    assert_eq!(subarray_sums(&[-1, -1, 1], 0), 1);
}

#[test]
fn test_subarray_sums_mixed() {
    assert_eq!(subarray_sums(&[-1, 1, 2, 1, -1, 3], 3), 6);
    // [-1, 1, 2], [1, 2], [2, 1], [3], [1, -1, 3], [-1, 1, 2, 1]
}

#[test]
fn test_subarray_sums_2tpr_1() {
    assert_eq!(subarray_sums_2ptr(&[1, 0, 1, 1, 0, 1], 2), 6);
}

#[test]
fn test_subarray_sums_2tpr_2() {
    assert_eq!(subarray_sums_2ptr(&[1, 2, 3], 3), 2);
}

#[test]
fn test_subarray_sums_2tpr_3() {
    assert_eq!(subarray_sums_2ptr(&[0, 0, 0, 0], 0), 10);
}

#[test]
fn test_subarray_sums_2tpr_4() {
    assert_eq!(subarray_sums_2ptr(&[0, 0, 0, 0, 0, 0, 0], 1), 0);
}

#[test]
fn subarray_sums_of_nothing_and_of_extremes() {
    assert_eq!(subarray_sums(&[], 0), 0);
    assert_eq!(subarray_sums(&[-1, 1, -1, 1], 0), 4);
    assert_eq!(subarray_sums(&[i64::MAX, i64::MAX, i64::MIN, i64::MIN], -1), 1);
    assert_eq!(subarray_sums(&[i64::MAX, i64::MIN, i64::MAX, i64::MIN], -1), 3);
    assert_eq!(subarray_sums(&[i64::MIN], i64::MAX), 0);
    assert_eq!(subarray_sums_2ptr(&[], 0), 0);
    assert_eq!(subarray_sums_2ptr(&[u32::MAX, u32::MAX], 0), 0);
    assert_eq!(subarray_sums_2ptr(&[u32::MAX, 0, u32::MAX], u32::MAX), 4);
    assert_eq!(subarray_sums_2ptr(&[5], 0), 0);
    assert_eq!(subarray_sums_2ptr(&[0, 0, 3, 0, 0], 3), 9);
}

#[test]
fn both_counts_agree_on_numbers_that_are_not_negative() {
    let nums: Vec<u32> = vec![3, 0, 1, 2, 0, 0, 4, 1, 1, 0, 2, 5, 0, 1];
    let wide: Vec<i64> = nums.iter().map(|&x| x as i64).collect();
    for k in 0..12u32 {
        let mut expected = 0u32;
        for i in 0..nums.len() {
            let mut sum = 0u32;
            for j in i..nums.len() {
                sum += nums[j];
                if sum == k {
                    expected += 1;
                }
            }
        }
        assert_eq!(subarray_sums(&wide, k as i64), expected);
        assert_eq!(subarray_sums_2ptr(&nums, k), expected);
        assert_eq!(checked_subarray_sums(&wide, k as i64), Some(expected));
        assert_eq!(checked_subarray_sums_2ptr(&nums, k), Some(expected));
    }
}
