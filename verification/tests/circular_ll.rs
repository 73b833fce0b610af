use linked_lists::linked_list::circular_ll::{run, CircularLinkedList};

fn ring(list: &CircularLinkedList<'_, i32>) -> Vec<i32> {
    list.display().into_iter().copied().collect()
}

#[test]
fn circular_new_list_is_empty() {
    let list: CircularLinkedList<'_, i32> = CircularLinkedList::new();
    assert!(list.is_empty());
    assert!(list.display().is_empty());
}

#[test]
fn circular_push_front_on_an_empty_list() {
    let mut list = CircularLinkedList::new();
    list.push_front(&1);
    assert!(!list.is_empty());
    assert_eq!(ring(&list), vec![1]);
}

#[test]
fn circular_push_front_puts_the_value_first() {
    let mut list = CircularLinkedList::new();
    list.push_front(&1);
    list.push_front(&2);
    list.push_front(&3);
    list.push_front(&4);
    assert_eq!(ring(&list), vec![4, 3, 2, 1]);
    assert_eq!(ring(&list), vec![4, 3, 2, 1]);
}

#[test]
fn circular_display_ends_where_the_ring_closes() {
    let values: Vec<i32> = (0..100).collect();
    let mut list = CircularLinkedList::new();
    for value in &values {
        list.push_front(value);
    }
    let mut expected = values.clone();
    expected.reverse();
    assert_eq!(ring(&list), expected);
}

#[test]
fn circular_run_builds_the_demonstration_list() {
    let list = run();
    assert!(!list.is_empty());
    assert_eq!(ring(&list), vec![60, 50]);
}
