use weekly_drills::max_guests::maximum_guests;

#[test]
fn test_maximum_guests1() {
    let mut arrivals = vec![1, 2, 9, 5, 5];
    let mut exits = vec![4, 5, 12, 9, 12];
    assert_eq!(maximum_guests(&mut arrivals, &mut exits), 5);
}

#[test]
fn test_maximum_guests2() {
    let mut arrivals = vec![3, 3, 9, 10, 8, 12];
    let mut exits = vec![4, 6, 20, 15, 12, 16];
    assert_eq!(maximum_guests(&mut arrivals, &mut exits), 12);
}

#[test]
fn test_maximum_guests_no_exits() {
    let mut arrivals = vec![1, 2, 9, 5, 5, 5, 6, 7];
    let mut exits = vec![];
    assert_eq!(maximum_guests(&mut arrivals, &mut exits), 9);
}

#[test]
fn test_maximum_guests_big_times() {
    let mut arrivals = vec![1, 100, 1000, 10000, u32::MAX];
    let mut exits = vec![2, 101, 1001, 10001, u32::MAX];
    assert_eq!(maximum_guests(&mut arrivals, &mut exits), 1);
}

#[test]
fn test_maximum_guests_no_arrivals() {
    // don't think this is possible but i think it'd be 0 if it was
    let mut arrivals = vec![];
    let mut exits = vec![1, 2, 3, 4, 5];
    assert_eq!(maximum_guests(&mut arrivals, &mut exits), 0);
}

#[test]
fn maximum_guests_sorts_both_slices() {
    let mut arrivals = vec![9, 1, 5, 2, 5];
    let mut exits = vec![12, 4, 9, 5, 12];
    assert_eq!(maximum_guests(&mut arrivals, &mut exits), 5);
    assert_eq!(arrivals, vec![1, 2, 5, 5, 9]);
    assert_eq!(exits, vec![4, 5, 9, 12, 12]);
}

#[test]
fn maximum_guests_when_more_have_left_than_come() {
    let mut arrivals = vec![10];
    let mut exits = vec![1, 2, 3];
    assert_eq!(maximum_guests(&mut arrivals, &mut exits), 0);

    let mut arrivals = vec![10, 11, 12, 13, 14];
    let mut exits = vec![1, 2, 3];
    assert_eq!(maximum_guests(&mut arrivals, &mut exits), 14);

    let mut arrivals = vec![10, 11, 12, 13, 14];
    let mut exits = vec![1, 2, 3, 13];
    assert_eq!(maximum_guests(&mut arrivals, &mut exits), 13);
}

#[test]
fn maximum_guests_takes_the_earliest_of_equal_times() {
    let mut arrivals = vec![7, 3];
    let mut exits = vec![5, 9];
    assert_eq!(maximum_guests(&mut arrivals, &mut exits), 3);

    let mut arrivals = vec![4, 4, 4];
    let mut exits = vec![4, 4, 4];
    assert_eq!(maximum_guests(&mut arrivals, &mut exits), 4);
}
