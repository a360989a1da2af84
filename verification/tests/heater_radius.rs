use weekly_drills::heater_radius::{can_heat_all, is_sorted, min_heater_radius};

#[test]
fn test_min_heater_radius1() {
    let houses = vec![1, 2, 3];
    let heaters = vec![2];
    assert_eq!(min_heater_radius(&houses, &heaters), 1);
}

#[test]
fn test_min_heater_radius2() {
    let houses = vec![1, 2, 3, 4];
    let heaters = vec![1, 4];
    assert_eq!(min_heater_radius(&houses, &heaters), 1);
}

#[test]
fn test_min_heater_radius3() {
    let houses = vec![1, 2, 3, 4, 5];
    let heaters = vec![1, 4];
    assert_eq!(min_heater_radius(&houses, &heaters), 1);
}

#[test]
fn test_min_heater_radius4() {
    let houses = vec![1, 2, 3, 6, 8];
    let heaters = vec![1];
    assert_eq!(min_heater_radius(&houses, &heaters), 7);
}

#[test]
fn test_min_heater_radius5() {
    let houses = vec![1, 2, 3, 6, 8];
    let heaters = vec![1, 8];
    assert_eq!(min_heater_radius(&houses, &heaters), 2);
}

#[test]
fn min_heater_radius_edges() {
    assert_eq!(min_heater_radius(&[5], &[5]), 0);
    assert_eq!(min_heater_radius(&[1, 2, 3], &[1, 2, 3]), 0);
    assert_eq!(min_heater_radius(&[0], &[u32::MAX]), u32::MAX);
    assert_eq!(min_heater_radius(&[u32::MAX], &[0]), u32::MAX);
    assert_eq!(min_heater_radius(&[0, u32::MAX], &[0, u32::MAX]), 0);
    assert_eq!(min_heater_radius(&[10, 10, 10], &[3, 30]), 7);
}

#[test]
fn can_heat_all_tells_whether_the_radius_is_enough() {
    let houses = [1, 2, 3, 6, 8];
    let heaters = [1, 8];
    assert!(!can_heat_all(&houses, &heaters, 0));
    assert!(!can_heat_all(&houses, &heaters, 1));
    assert!(can_heat_all(&houses, &heaters, 2));
    assert!(can_heat_all(&houses, &heaters, u32::MAX));
    assert!(can_heat_all(&[], &heaters, 0));
    assert!(!can_heat_all(&houses, &[], u32::MAX));
}

#[test]
fn is_sorted_accepts_ascending_only() {
    assert!(is_sorted(&[]));
    assert!(is_sorted(&[4]));
    assert!(is_sorted(&[1, 1, 2, 3]));
    assert!(!is_sorted(&[1, 3, 2]));
    assert!(!is_sorted(&[2, 1]));
}
