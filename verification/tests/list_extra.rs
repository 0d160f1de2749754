use speaking_order::list_extra::{insert_just_before, prepend};
use std::collections::VecDeque;

fn even(x: &i32) -> bool {
    return x % 2 == 0;
}

#[test]
fn linked_list_extra_test1() {
    let mut ll = VecDeque::from([1, 2, 3, 4, 5, 4, 3, 2, 1, 0]);
    insert_just_before(&mut ll, &mut VecDeque::from([0]), |x| *x == 5);
    assert_eq!(ll, VecDeque::from([1, 2, 3, 4, 0, 5, 4, 3, 2, 1, 0]));
}

#[test]
fn test2() {
    let mut ll = VecDeque::from([1, 2, 3, 4, 5, 4, 3, 2, 1, 0]);
    insert_just_before(&mut ll, &mut VecDeque::from([0]), &even);
    assert_eq!(ll, VecDeque::from([1, 0, 2, 3, 4, 5, 4, 3, 2, 1, 0]));
}

#[test]
fn test3() {
    let mut ll = VecDeque::from([]);
    insert_just_before(&mut ll, &mut VecDeque::from([0]), &even);
    assert_eq!(ll, VecDeque::from([0]));
}

#[test]
fn test4() {
    let mut ll = VecDeque::from([1, 3, 5, 7]);
    insert_just_before(&mut ll, &mut VecDeque::from([0]), &even);
    assert_eq!(ll, VecDeque::from([1, 3, 5, 7, 0]));
}

#[test]
fn test5() {
    let mut ll = VecDeque::from([2, 3, 4, 5]);
    insert_just_before(&mut ll, &mut VecDeque::from([0]), &even);
    assert_eq!(ll, VecDeque::from([0, 2, 3, 4, 5]));
}

#[test]
fn insert_just_before_empties_items_and_keeps_their_order() {
    let mut ll = VecDeque::from([1, 3, 6, 7]);
    let mut items = VecDeque::from([10, 11, 12]);
    insert_just_before(&mut ll, &mut items, &even);
    assert_eq!(ll, VecDeque::from([1, 3, 10, 11, 12, 6, 7]));
    assert!(items.is_empty());
}

#[test]
fn insert_just_before_asks_nothing_behind_the_first_match() {
    let asked = std::cell::Cell::new(0);
    let mut ll = VecDeque::from([1, 2, 3, 4]);
    insert_just_before(&mut ll, &mut VecDeque::from([9]), |x| {
        asked.set(asked.get() + 1);
        *x == 2
    });
    assert_eq!(ll, VecDeque::from([1, 9, 2, 3, 4]));
    assert_eq!(asked.get(), 2);
}

#[test]
fn insert_just_before_with_no_items_changes_nothing() {
    let mut ll = VecDeque::from([1, 2, 3]);
    let mut items: VecDeque<i32> = VecDeque::new();
    insert_just_before(&mut ll, &mut items, &even);
    assert_eq!(ll, VecDeque::from([1, 2, 3]));
}

#[test]
fn prepend_moves_all_of_the_first_before_the_second() {
    let mut a = VecDeque::from([1, 2]);
    let mut b = VecDeque::from([3, 4, 5]);
    prepend(&mut a, &mut b);
    assert!(a.is_empty());
    assert_eq!(b, VecDeque::from([1, 2, 3, 4, 5]));
}

#[test]
fn prepend_of_nothing_changes_nothing() {
    let mut a: VecDeque<i32> = VecDeque::new();
    let mut b = VecDeque::from([3, 4]);
    prepend(&mut a, &mut b);
    assert!(a.is_empty());
    assert_eq!(b, VecDeque::from([3, 4]));
}
