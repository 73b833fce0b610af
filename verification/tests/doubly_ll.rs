use linked_lists::linked_list::doubly_ll::{run, DoublyLinkedList};
use linked_lists::linked_list::error::ListError;

fn forward(list: &DoublyLinkedList<'_, i32>) -> Vec<i32> {
    list.display().into_iter().copied().collect()
}

fn backward(list: &DoublyLinkedList<'_, i32>) -> Vec<i32> {
    list.display_backward().into_iter().copied().collect()
}

fn filled<'a>(values: &'a [i32]) -> DoublyLinkedList<'a, i32> {
    let mut list = DoublyLinkedList::new();
    for value in values {
        list.push_back(value);
    }
    list
}

fn assert_consistent(list: &DoublyLinkedList<'_, i32>, expected: &[i32]) {
    let mut reversed = expected.to_vec();
    reversed.reverse();
    assert_eq!(forward(list), expected.to_vec());
    assert_eq!(backward(list), reversed);
    assert_eq!(list.get_length() as usize, expected.len());
    assert_eq!(list.is_empty(), expected.is_empty());
    assert_eq!(list.get_tail_value(), expected.last());
}

#[test]
fn doubly_new_list_is_empty() {
    let list: DoublyLinkedList<'_, i32> = DoublyLinkedList::new();
    assert!(list.is_empty());
    assert_eq!(list.get_length(), 0);
    assert!(list.display().is_empty());
    assert!(list.display_backward().is_empty());
    assert_eq!(list.get_tail_value(), None);
    assert_eq!(list.find(&1), (false, 0));
}

#[test]
fn doubly_push_front_puts_the_value_first() {
    let mut list = DoublyLinkedList::new();
    list.push_front(&10);
    assert_consistent(&list, &[10]);
    list.push_front(&20);
    list.push_front(&30);
    assert_consistent(&list, &[30, 20, 10]);
}

#[test]
fn doubly_push_back_on_an_empty_list_makes_head_and_tail() {
    let mut list = DoublyLinkedList::new();
    list.push_back(&7);
    assert_consistent(&list, &[7]);
    assert_eq!(list.get_tail_value(), Some(&7));
}

#[test]
fn doubly_push_back_three_reads_in_order_both_ways() {
    let (a, b, c) = (1, 2, 3);
    let mut list = DoublyLinkedList::new();
    list.push_back(&a);
    list.push_back(&b);
    list.push_back(&c);
    assert_eq!(forward(&list), vec![1, 2, 3]);
    assert_eq!(backward(&list), vec![3, 2, 1]);
}

#[test]
fn doubly_delete_at_node_takes_out_an_inner_node() {
    let values = [10, 20, 30, 40];
    let mut list = filled(&values);
    assert_eq!(list.delete_at_node(&20), Ok(1));
    assert_eq!(forward(&list), vec![10, 30, 40]);
    assert_eq!(backward(&list), vec![40, 30, 10]);
    assert_eq!(list.get_length(), 3);
}

#[test]
fn doubly_delete_at_node_prefers_head_then_tail() {
    let values = [1, 2, 3, 2];
    let mut list = filled(&values);
    assert_eq!(list.delete_at_node(&2), Ok(3));
    assert_consistent(&list, &[1, 2, 3]);

    let values = [5, 6, 5, 7];
    let mut list = filled(&values);
    assert_eq!(list.delete_at_node(&5), Ok(0));
    assert_consistent(&list, &[6, 5, 7]);

    let values = [1, 9, 8, 9, 2];
    let mut list = filled(&values);
    assert_eq!(list.delete_at_node(&9), Ok(1));
    assert_consistent(&list, &[1, 8, 9, 2]);
}

#[test]
fn doubly_delete_at_node_reports_empty_and_not_found() {
    let mut list: DoublyLinkedList<'_, i32> = DoublyLinkedList::new();
    assert_eq!(list.delete_at_node(&1), Err(ListError::Empty));
    assert_consistent(&list, &[]);

    let values = [1, 2, 3];
    let mut list = filled(&values);
    assert_eq!(list.delete_at_node(&4), Err(ListError::NotFound));
    assert_consistent(&list, &[1, 2, 3]);
}

#[test]
fn doubly_delete_at_node_on_the_only_node_empties_the_list() {
    let values = [4];
    let mut list = filled(&values);
    assert_eq!(list.delete_at_node(&4), Ok(0));
    assert_consistent(&list, &[]);
}

#[test]
fn doubly_insert_at_index_zero_on_an_empty_list() {
    let mut list = DoublyLinkedList::new();
    assert_eq!(list.insert_at_index(0, &9), Ok(()));
    assert_consistent(&list, &[9]);
}

#[test]
fn doubly_insert_at_index_past_the_end_is_out_of_range() {
    let values = [1, 2, 3];
    let mut list = filled(&values);
    assert_eq!(list.insert_at_index(5, &9), Err(ListError::OutOfRange));
    assert_consistent(&list, &[1, 2, 3]);
    assert_eq!(list.insert_at_index(4, &9), Err(ListError::OutOfRange));
    assert_consistent(&list, &[1, 2, 3]);

    let mut empty: DoublyLinkedList<'_, i32> = DoublyLinkedList::new();
    assert_eq!(empty.insert_at_index(1, &9), Err(ListError::OutOfRange));
    assert!(empty.is_empty());
}

#[test]
fn doubly_insert_at_index_front_middle_and_back() {
    let values = [1, 2, 3];
    let mut list = filled(&values);
    assert_eq!(list.insert_at_index(0, &10), Ok(()));
    assert_consistent(&list, &[10, 1, 2, 3]);
    assert_eq!(list.insert_at_index(2, &20), Ok(()));
    assert_consistent(&list, &[10, 1, 20, 2, 3]);
    assert_eq!(list.insert_at_index(5, &30), Ok(()));
    assert_consistent(&list, &[10, 1, 20, 2, 3, 30]);
    assert_eq!(list.insert_at_index(5, &40), Ok(()));
    assert_consistent(&list, &[10, 1, 20, 2, 3, 40, 30]);
}

#[test]
fn doubly_find_of_an_absent_value() {
    let values = [1, 2, 3];
    let list = filled(&values);
    assert_eq!(list.find(&4), (false, 0));
    assert_consistent(&list, &[1, 2, 3]);
}

#[test]
fn doubly_find_gives_the_first_match() {
    let values = [5, 6, 7, 6];
    let list = filled(&values);
    assert_eq!(list.find(&5), (true, 0));
    assert_eq!(list.find(&6), (true, 1));
    assert_eq!(list.find(&7), (true, 2));
}

#[test]
fn doubly_queries_repeat_and_change_nothing() {
    let values = [3, 1, 4, 1, 5];
    let list = filled(&values);
    for _ in 0..3 {
        assert_eq!(list.find(&1), (true, 1));
        assert_eq!(list.find(&9), (false, 0));
        assert_eq!(list.get_length(), 5);
        assert!(!list.is_empty());
    }
    assert_consistent(&list, &[3, 1, 4, 1, 5]);
}

#[test]
fn doubly_push_front_then_delete_front_restores_the_list() {
    let values = [1, 2, 3];
    let mut list = filled(&values);
    let tail = list.get_tail_value();
    list.push_front(&0);
    assert_consistent(&list, &[0, 1, 2, 3]);
    assert_eq!(list.delete_front(), Some(&0));
    assert_consistent(&list, &[1, 2, 3]);
    assert_eq!(list.get_tail_value(), tail);

    let mut empty = DoublyLinkedList::new();
    empty.push_front(&5);
    assert_eq!(empty.delete_front(), Some(&5));
    assert_consistent(&empty, &[]);
}

#[test]
fn doubly_delete_front_and_back_on_an_empty_list() {
    let mut list: DoublyLinkedList<'_, i32> = DoublyLinkedList::new();
    assert_eq!(list.delete_front(), None);
    assert_eq!(list.delete_back(), None);
    assert_consistent(&list, &[]);
}

#[test]
fn doubly_delete_front_and_back_on_a_single_node() {
    let values = [8];
    let mut list = filled(&values);
    assert_eq!(list.delete_front(), Some(&8));
    assert_consistent(&list, &[]);
    assert_eq!(list.delete_front(), None);

    let mut list = filled(&values);
    assert_eq!(list.delete_back(), Some(&8));
    assert_consistent(&list, &[]);
    assert_eq!(list.delete_back(), None);
}

#[test]
fn doubly_delete_front_and_back_move_the_ends() {
    let values = [1, 2, 3, 4];
    let mut list = filled(&values);
    assert_eq!(list.delete_front(), Some(&1));
    assert_consistent(&list, &[2, 3, 4]);
    assert_eq!(list.delete_back(), Some(&4));
    assert_consistent(&list, &[2, 3]);
    assert_eq!(list.delete_back(), Some(&3));
    assert_consistent(&list, &[2]);
}

#[test]
fn doubly_push_after_node_ties_both_neighbours() {
    let values = [1, 2, 3];
    let mut list = filled(&values);
    assert_eq!(list.push_after_node(&2, &9), Ok(1));
    assert_consistent(&list, &[1, 2, 9, 3]);
    assert_eq!(list.push_after_node(&1, &8), Ok(0));
    assert_consistent(&list, &[1, 8, 2, 9, 3]);
}

#[test]
fn doubly_push_after_node_behind_the_tail_makes_a_new_tail() {
    let values = [1, 2, 3];
    let mut list = filled(&values);
    assert_eq!(list.push_after_node(&3, &4), Ok(2));
    assert_consistent(&list, &[1, 2, 3, 4]);
    assert_eq!(list.get_tail_value(), Some(&4));
}

#[test]
fn doubly_push_after_node_takes_the_first_match_only() {
    let values = [7, 7, 7];
    let mut list = filled(&values);
    assert_eq!(list.push_after_node(&7, &7), Ok(0));
    assert_consistent(&list, &[7, 7, 7, 7]);
    let values = [1, 2, 1, 2];
    let mut list = filled(&values);
    assert_eq!(list.push_after_node(&2, &5), Ok(1));
    assert_consistent(&list, &[1, 2, 5, 1, 2]);
}

#[test]
fn doubly_push_after_node_reports_empty_and_not_found() {
    let mut list: DoublyLinkedList<'_, i32> = DoublyLinkedList::new();
    assert_eq!(list.push_after_node(&1, &2), Err(ListError::Empty));
    assert_consistent(&list, &[]);

    let values = [1, 2, 3];
    let mut list = filled(&values);
    assert_eq!(list.push_after_node(&4, &5), Err(ListError::NotFound));
    assert_consistent(&list, &[1, 2, 3]);
}

#[test]
fn doubly_reverse_turns_the_list_round() {
    let values = [1, 2, 3, 4];
    let mut list = filled(&values);
    list.reverse();
    assert_consistent(&list, &[4, 3, 2, 1]);
    list.push_front(&5);
    list.push_back(&0);
    assert_consistent(&list, &[5, 4, 3, 2, 1, 0]);
}

#[test]
fn doubly_reverse_twice_gives_the_list_back() {
    let values = [3, 1, 4, 1, 5, 9];
    let mut list = filled(&values);
    list.reverse();
    list.reverse();
    assert_consistent(&list, &[3, 1, 4, 1, 5, 9]);
}

#[test]
fn doubly_reverse_of_an_empty_and_of_a_single_node_list() {
    let mut list: DoublyLinkedList<'_, i32> = DoublyLinkedList::new();
    list.reverse();
    assert_consistent(&list, &[]);
    list.push_back(&1);
    list.reverse();
    assert_consistent(&list, &[1]);
}

#[test]
fn doubly_get_tail_value_follows_the_tail() {
    let mut list = DoublyLinkedList::new();
    assert_eq!(list.get_tail_value(), None);
    list.push_front(&1);
    assert_eq!(list.get_tail_value(), Some(&1));
    list.push_front(&2);
    assert_eq!(list.get_tail_value(), Some(&1));
    list.push_back(&3);
    assert_eq!(list.get_tail_value(), Some(&3));
    list.delete_back();
    assert_eq!(list.get_tail_value(), Some(&1));
}

#[test]
fn doubly_released_slots_are_taken_again() {
    let values = [1, 2, 3, 4, 5];
    let mut list = filled(&values);
    assert_eq!(list.delete_at_node(&3), Ok(2));
    assert_eq!(list.delete_front(), Some(&1));
    assert_eq!(list.delete_back(), Some(&5));
    assert_consistent(&list, &[2, 4]);
    list.push_back(&6);
    list.push_front(&7);
    assert_eq!(list.insert_at_index(2, &8), Ok(()));
    list.push_back(&9);
    assert_consistent(&list, &[7, 2, 8, 4, 6, 9]);
    assert_eq!(list.delete_at_node(&8), Ok(2));
    assert_eq!(list.push_after_node(&4, &10), Ok(2));
    assert_consistent(&list, &[7, 2, 4, 10, 6, 9]);
}

#[test]
fn doubly_traversals_agree_after_every_operation() {
    let mut list = DoublyLinkedList::new();
    let mut model: Vec<i32> = Vec::new();
    let values: Vec<i32> = (0..40).collect();
    for (step, value) in values.iter().enumerate() {
        match step % 7 {
            0 | 1 => {
                list.push_back(value);
                model.push(*value);
            }
            2 => {
                list.push_front(value);
                model.insert(0, *value);
            }
            3 => {
                let index = (step / 2 % (model.len() + 1)) as u32;
                assert_eq!(list.insert_at_index(index, value), Ok(()));
                model.insert(index as usize, *value);
            }
            4 => {
                let removed = list.delete_front().copied();
                let expected = if model.is_empty() { None } else { Some(model.remove(0)) };
                assert_eq!(removed, expected);
            }
            5 => {
                list.reverse();
                model.reverse();
            }
            _ => {
                let removed = list.delete_back().copied();
                assert_eq!(removed, model.pop());
            }
        }
        assert_consistent(&list, &model);
    }
}

#[test]
fn doubly_demonstration_sequence() {
    let mut list = DoublyLinkedList::new();
    assert_consistent(&list, &[]);
    list.push_front(&10);
    list.push_front(&20);
    list.push_front(&30);
    list.push_front(&40);
    assert_consistent(&list, &[40, 30, 20, 10]);
    list.push_back(&50);
    list.push_back(&60);
    assert_eq!(list.get_tail_value(), Some(&60));
    list.push_back(&70);
    list.push_back(&80);
    assert_consistent(&list, &[40, 30, 20, 10, 50, 60, 70, 80]);
    assert_eq!(list.push_after_node(&50, &969), Ok(4));
    assert_eq!(list.push_after_node(&969, &1000), Ok(5));
    assert_consistent(&list, &[40, 30, 20, 10, 50, 969, 1000, 60, 70, 80]);
    assert_eq!(list.get_length(), 10);
    assert_eq!(list.delete_front(), Some(&40));
    assert_eq!(list.delete_front(), Some(&30));
    assert_eq!(list.delete_back(), Some(&80));
    assert_eq!(list.delete_at_node(&60), Ok(5));
    assert_eq!(list.delete_at_node(&10), Ok(1));
    assert_consistent(&list, &[20, 50, 969, 1000, 70]);
    list.reverse();
    assert_consistent(&list, &[70, 1000, 969, 50, 20]);
}

#[test]
fn doubly_list_error_variants_differ() {
    assert_ne!(ListError::Empty, ListError::NotFound);
    assert_ne!(ListError::NotFound, ListError::OutOfRange);
    assert_ne!(ListError::Empty, ListError::OutOfRange);
    assert_eq!(format!("{:?}", ListError::OutOfRange), "OutOfRange");
}

#[test]
fn doubly_run_ends_with_the_reversed_list() {
    let list = run();
    assert_consistent(&list, &[70, 1000, 969, 50, 20]);
}
