use std::collections::VecDeque;
use weekly_drills::segregate::segregate;

#[test]
fn test_segregate_1() {
    let mut list = VecDeque::new();
    [1, 2, 2, 1, 2, 0, 2, 2]
        .iter()
        .for_each(|&x| list.push_back(x));

    segregate(&mut list);

    let mut iter = list.iter();
    [0, 1, 1, 2, 2, 2, 2, 2]
        .iter()
        .for_each(|&x| assert_eq!(Some(&x), iter.next()));
}

#[test]
fn test_segregate_2() {
    let mut list = VecDeque::new();
    [2, 2, 0, 1].iter().for_each(|&x| list.push_back(x));

    segregate(&mut list);

    let mut iter = list.iter();
    [0, 1, 2, 2]
        .iter()
        .for_each(|&x| assert_eq!(Some(&x), iter.next()));
}

#[test]
fn test_segregate_no_0() {
    let mut list = VecDeque::new();
    [1, 2, 2, 1, 2, 2, 2]
        .iter()
        .for_each(|&x| list.push_back(x));

    segregate(&mut list);

    let mut iter = list.iter();
    [1, 1, 2, 2, 2, 2, 2]
        .iter()
        .for_each(|&x| assert_eq!(Some(&x), iter.next()));
}

#[test]
fn test_segregate_no_2() {
    let mut list = VecDeque::new();
    [1, 1, 0, 1, 1, 1, 0]
        .iter()
        .for_each(|&x| list.push_back(x));

    segregate(&mut list);

    let mut iter = list.iter();
    [0, 0, 1, 1, 1, 1, 1]
        .iter()
        .for_each(|&x| assert_eq!(Some(&x), iter.next()));
}

#[test]
fn segregate_keeps_length_and_ends() {
    let mut list: VecDeque<u8> = VecDeque::new();
    segregate(&mut list);
    assert!(list.is_empty());

    let mut list: VecDeque<u8> = VecDeque::from(vec![2, 0]);
    segregate(&mut list);
    assert_eq!(list, VecDeque::from(vec![0, 2]));

    let mut list: VecDeque<u8> = VecDeque::from(vec![1]);
    segregate(&mut list);
    assert_eq!(list, VecDeque::from(vec![1]));
    assert_eq!(list.iter().next(), Some(&1));
}
