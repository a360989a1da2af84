use weekly_drills::wave_sort::wave_sort;

fn check_valid_wave(nums: &[i32]) {
    if nums.is_empty() || nums.len() == 1 {
        return;
    }
    let case = nums[0] >= nums[1];
    for i in 1..nums.len() - 1 {
        if i % 2 == if case { 0 } else { 1 } {
            assert!(nums[i] >= nums[i + 1]);
        } else {
            assert!(nums[i] <= nums[i + 1]);
        }
    }
}

#[test]
fn test_check_valid_wave() {
    let nums = [3, 2, 3, 2, 3, 2, 3];
    check_valid_wave(&nums);
}

#[test]
fn test_check_valid_wave_down_up() {
    let nums = [3, 4, 3, 4, 3, 4, 3];
    check_valid_wave(&nums);
}

#[test]
fn test_check_valid_wave_same() {
    let nums = [3; 8];
    check_valid_wave(&nums);
}

#[test]
#[should_panic]
fn test_check_valid_wave_invalid() {
    let nums = [1, 2, 3, 4, 5, 6];
    check_valid_wave(&nums);
}

#[test]
fn test_wave_sort_1() {
    let mut nums = [10, 5, 6, 3, 2, 20, 100, 80];
    wave_sort(&mut nums);
    check_valid_wave(&nums);
}

#[test]
fn test_wave_sort_2() {
    let mut nums = [20, 10, 8, 6, 4, 2];
    wave_sort(&mut nums);
    check_valid_wave(&nums);
}

#[test]
fn test_wave_sort_sorted() {
    let mut nums = (0..10).collect::<Vec<i32>>();
    wave_sort(&mut nums);
    check_valid_wave(&nums);
}

#[test]
fn test_wave_sort_sorted_same() {
    let mut nums = vec![3; 10];
    wave_sort(&mut nums);
    check_valid_wave(&nums);
}

#[test]
fn test_wave_sort_empty() {
    let mut nums = Vec::new();
    wave_sort(&mut nums);
    assert!(nums.is_empty());
}

#[test]
fn wave_sort_exact_results() {
    let mut nums = [10, 5, 6, 3, 2, 20, 100, 80];
    wave_sort(&mut nums);
    assert_eq!(nums, [10, 5, 6, 2, 20, 3, 100, 80]);

    let mut nums = [2, 2, 2, 3, 3, 3];
    wave_sort(&mut nums);
    assert_eq!(nums, [2, 2, 3, 2, 3, 3]);

    let mut nums = [1, 2];
    wave_sort(&mut nums);
    assert_eq!(nums, [2, 1]);

    let mut nums = [7];
    wave_sort(&mut nums);
    assert_eq!(nums, [7]);
}

#[test]
fn wave_sort_hands_back_the_slice_and_keeps_the_elements() {
    let mut nums = [1, 2, 3, 4, 5, 6];
    let res = wave_sort(&mut nums);
    assert_eq!(res, &[2, 1, 4, 3, 6, 5]);
    res[0] = 9;
    assert_eq!(nums[0], 9);

    let mut nums = vec![5, -1, 5, i32::MIN, i32::MAX, 0, 0];
    let mut before = nums.clone();
    wave_sort(&mut nums);
    for i in 0..nums.len() - 1 {
        if i % 2 == 0 {
            assert!(nums[i] >= nums[i + 1]);
        } else {
            assert!(nums[i] <= nums[i + 1]);
        }
    }
    let mut after = nums.clone();
    before.sort();
    after.sort();
    assert_eq!(before, after);
}
