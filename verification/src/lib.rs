//! Linked lists over borrowed values: a doubly linked list, a singly linked
//! list and a circular list. Every operation states what it does to the
//! sequence of values that the list holds.

pub mod linked_list;
