use linked_lists::linked_list::error::ListError;
use linked_lists::linked_list::singly_ll::{run, SinglyLinkedList};

fn shown(list: &SinglyLinkedList<'_, i32>) -> Vec<i32> {
    list.display().into_iter().copied().collect()
}

fn singly_filled<'a>(values: &'a [i32]) -> SinglyLinkedList<'a, i32> {
    let mut list = SinglyLinkedList::new();
    for value in values {
        list.push_back(value);
    }
    list
}

#[test]
fn singly_new_list_is_empty() {
    let list: SinglyLinkedList<'_, i32> = SinglyLinkedList::new();
    assert!(list.is_empty());
    assert_eq!(list.get_length(), 0);
    assert!(list.display().is_empty());
    assert_eq!(list.find(&3), (false, 0));
}

#[test]
fn singly_push_front_and_push_back_order() {
    let mut list = SinglyLinkedList::new();
    list.push_front(&10);
    list.push_front(&20);
    list.push_front(&30);
    assert_eq!(shown(&list), vec![30, 20, 10]);
    list.push_back(&50);
    list.push_back(&80);
    assert_eq!(shown(&list), vec![30, 20, 10, 50, 80]);
    assert_eq!(list.get_length(), 5);
    assert!(!list.is_empty());
}

#[test]
fn singly_push_back_on_an_empty_list() {
    let mut list = SinglyLinkedList::new();
    list.push_back(&1);
    assert_eq!(shown(&list), vec![1]);
}

#[test]
fn singly_pop_front_takes_the_first() {
    let values = [1, 2, 3];
    let mut list = singly_filled(&values);
    assert_eq!(list.pop_front(), Some(&1));
    assert_eq!(shown(&list), vec![2, 3]);
    assert_eq!(list.pop_front(), Some(&2));
    assert_eq!(list.pop_front(), Some(&3));
    assert_eq!(list.pop_front(), None);
    assert!(list.is_empty());
}

#[test]
fn singly_pop_back_takes_the_last() {
    let values = [1, 2, 3];
    let mut list = singly_filled(&values);
    assert_eq!(list.pop_back(), Some(&3));
    assert_eq!(shown(&list), vec![1, 2]);
    assert_eq!(list.pop_back(), Some(&2));
    assert_eq!(list.pop_back(), Some(&1));
    assert_eq!(list.pop_back(), None);
    assert!(list.is_empty());
}

#[test]
fn singly_insert_at_index_front_middle_back() {
    let values = [1, 2, 3];
    let mut list = singly_filled(&values);
    assert_eq!(list.insert_at_index(0, &10), Ok(()));
    assert_eq!(shown(&list), vec![10, 1, 2, 3]);
    assert_eq!(list.insert_at_index(2, &20), Ok(()));
    assert_eq!(shown(&list), vec![10, 1, 20, 2, 3]);
    assert_eq!(list.insert_at_index(5, &30), Ok(()));
    assert_eq!(shown(&list), vec![10, 1, 20, 2, 3, 30]);
    assert_eq!(list.insert_at_index(1, &40), Ok(()));
    assert_eq!(shown(&list), vec![10, 40, 1, 20, 2, 3, 30]);
}

#[test]
fn singly_insert_at_index_out_of_range() {
    let values = [1, 2, 3];
    let mut list = singly_filled(&values);
    assert_eq!(list.insert_at_index(4, &9), Err(ListError::OutOfRange));
    assert_eq!(shown(&list), vec![1, 2, 3]);
    let mut empty: SinglyLinkedList<'_, i32> = SinglyLinkedList::new();
    assert_eq!(empty.insert_at_index(1, &9), Err(ListError::OutOfRange));
    assert_eq!(empty.insert_at_index(0, &9), Ok(()));
    assert_eq!(shown(&empty), vec![9]);
}

#[test]
fn singly_find_first_match_and_absent() {
    let values = [5, 6, 7, 6];
    let list = singly_filled(&values);
    assert_eq!(list.find(&5), (true, 0));
    assert_eq!(list.find(&6), (true, 1));
    assert_eq!(list.find(&7), (true, 2));
    assert_eq!(list.find(&8), (false, 0));
    assert_eq!(list.find(&6), (true, 1));
    assert_eq!(shown(&list), vec![5, 6, 7, 6]);
}

#[test]
fn singly_insert_after_first_match() {
    let values = [1, 2, 3, 2];
    let mut list = singly_filled(&values);
    assert_eq!(list.insert_after(&2, &9), Ok(1));
    assert_eq!(shown(&list), vec![1, 2, 9, 3, 2]);
    assert_eq!(list.insert_after(&1, &8), Ok(0));
    assert_eq!(shown(&list), vec![1, 8, 2, 9, 3, 2]);
    let values = [4, 5];
    let mut list = singly_filled(&values);
    assert_eq!(list.insert_after(&5, &6), Ok(1));
    assert_eq!(shown(&list), vec![4, 5, 6]);
    assert_eq!(list.pop_back(), Some(&6));
}

#[test]
fn singly_insert_after_reports_empty_and_not_found() {
    let mut list: SinglyLinkedList<'_, i32> = SinglyLinkedList::new();
    assert_eq!(list.insert_after(&1, &2), Err(ListError::Empty));
    assert!(list.is_empty());
    let values = [1, 2, 3];
    let mut list = singly_filled(&values);
    assert_eq!(list.insert_after(&4, &5), Err(ListError::NotFound));
    assert_eq!(shown(&list), vec![1, 2, 3]);
}

#[test]
fn singly_reverse_turns_the_list_round() {
    let values = [1, 2, 3, 4];
    let mut list = singly_filled(&values);
    list.reverse();
    assert_eq!(shown(&list), vec![4, 3, 2, 1]);
    list.reverse();
    assert_eq!(shown(&list), vec![1, 2, 3, 4]);
    let mut empty: SinglyLinkedList<'_, i32> = SinglyLinkedList::new();
    empty.reverse();
    assert!(empty.is_empty());
    empty.push_back(&1);
    empty.reverse();
    assert_eq!(shown(&empty), vec![1]);
}

#[test]
fn singly_demonstration_sequence() {
    let mut list = SinglyLinkedList::new();
    list.push_front(&10);
    list.push_front(&20);
    list.push_front(&30);
    assert_eq!(shown(&list), vec![30, 20, 10]);
    list.push_back(&50);
    list.push_back(&80);
    assert_eq!(shown(&list), vec![30, 20, 10, 50, 80]);
    assert_eq!(list.pop_front(), Some(&30));
    assert_eq!(list.pop_back(), Some(&80));
    assert_eq!(shown(&list), vec![20, 10, 50]);
    assert_eq!(list.insert_at_index(2, &100), Ok(()));
    assert_eq!(shown(&list), vec![20, 10, 100, 50]);
    assert_eq!(list.insert_after(&20, &100), Ok(0));
    assert_eq!(list.insert_after(&20, &500), Ok(0));
    assert_eq!(shown(&list), vec![20, 500, 100, 10, 100, 50]);
    assert_eq!(list.find(&50), (true, 5));
    assert!(!list.is_empty());
    list.reverse();
    assert_eq!(shown(&list), vec![50, 100, 10, 100, 500, 20]);
}

#[test]
fn singly_run_ends_with_the_reversed_list() {
    let list = run();
    assert_eq!(shown(&list), vec![50, 100, 10, 100, 500, 20]);
    assert_eq!(list.get_length(), 6);
}
