use vstd::prelude::*;
use vstd::std_specs::cmp::PartialEqSpec;
use crate::linked_list::error::ListError;
use crate::linked_list::model::{
    has_match, is_find_result, is_first_match, matches_at, values_of,
};

verus! {

/// One cell of the list: a borrowed value and the rest of the chain.
struct Node<'a, T> {
    data: &'a T,
    next: Option<Box<Node<'a, T>>>,
}

/// A singly linked list over borrowed values. Each node owns its successor.
pub struct SinglyLinkedList<'a, T> {
    head: Option<Box<Node<'a, T>>>,
}

/// The values held from `link` to the end of the chain.
spec fn values<T>(link: Option<Box<Node<T>>>) -> Seq<T>
    decreases link,
{
    match link {
        None => Seq::empty(),
        Some(node) => seq![*node.data] + values(node.next),
    }
}

/// A chain that starts with a node holds that node's value, then what its
/// successor holds.
proof fn lemma_values_step<T>(link: Option<Box<Node<T>>>)
    requires
        link is Some,
    ensures
        values(link).len() > 0,
        values(link)[0] == *link->0.data,
        values(link).drop_first() == values(link->0.next),
{
    assert(values(link).drop_first() =~= values(link->0.next));
}

/// What one step of a cursor along the chain does. The cursor stands
/// `walked` links into a chain that held `before`, on the link `here`, which
/// will at last hold `prior`; it moves on to the `next` of the node there,
/// which will at last hold `rest`.
proof fn lemma_cursor_step<T>(
    before: Seq<T>,
    walked: int,
    here: Option<Box<Node<T>>>,
    prior: Option<Box<Node<T>>>,
    rest: Option<Box<Node<T>>>,
)
    requires
        0 <= walked <= before.len(),
        values(here) == before.skip(walked),
        here is Some,
        prior is Some,
        prior->0.data == here->0.data,
        prior->0.next == rest,
    ensures
        walked < before.len(),
        *here->0.data == before[walked],
        values(here->0.next) == before.skip(walked + 1),
        before.take(walked) + values(prior) == before.take(walked + 1) + values(rest),
{
    lemma_values_step(here);
    lemma_values_step(prior);
    assert(before.skip(walked)[0] == before[walked]);
    assert(before.skip(walked).drop_first() =~= before.skip(walked + 1));
    assert(values(prior) =~= seq![before[walked]] + values(rest));
    assert(before.take(walked) + (seq![before[walked]] + values(rest)) =~= before.take(walked + 1)
        + values(rest));
}

impl<'a, T> SinglyLinkedList<'a, T> {
    /// The values of the list, from the head on.
    pub closed spec fn view(&self) -> Seq<T> {
        values(self.head)
    }

    /// The length fits the index type.
    pub open spec fn well_formed(&self) -> bool {
        self@.len() <= u32::MAX
    }

    /// Create a new singly linked list.
    pub fn new() -> (list: Self)
        ensures
            list.well_formed(),
            list@ == Seq::<T>::empty(),
    {
        SinglyLinkedList { head: None }
    }

    /// Push a new node to the front of the list.
    pub fn push_front(&mut self, data: &'a T)
        requires
            old(self)@.len() < u32::MAX,
        ensures
            final(self).well_formed(),
            final(self)@ == seq![*data] + old(self)@,
    {
        let new_node = Node { data, next: self.head.take() };
        self.head = Some(Box::new(new_node));
    }

    /// Push a new node to the back of the list.
    pub fn push_back(&mut self, data: &'a T)
        requires
            old(self)@.len() < u32::MAX,
        ensures
            final(self).well_formed(),
            final(self)@ == old(self)@.push(*data),
    {
        let ghost before = self@;
        let ghost mut walked: int = 0;
        let mut cursor = &mut self.head;
        while cursor.is_some()
            invariant
                0 <= walked <= before.len(),
                values(*cursor) == before.skip(walked),
                values(after_borrow(self.head)) == before.take(walked) + values(*final(cursor)),
            decreases before.len() - walked,
        {
            let ghost prior = *final(cursor);
            let ghost here = *cursor;
            match cursor {
                Some(node) => {
                    cursor = &mut node.next;
                },
                None => {},
            }
            proof {
                lemma_cursor_step(before, walked, here, prior, *final(cursor));
                walked = walked + 1;
            }
        }
        *cursor = Some(Box::new(Node { data, next: None }));
        proof {
            assert(values(*cursor) =~= seq![*data]);
            assert(before.take(walked) + seq![*data] =~= before.push(*data));
        }
    }

    /// Remove the first node from the list and hand back its value; `None`,
    /// and nothing changes, where the list is empty.
    pub fn pop_front(&mut self) -> (removed: Option<&'a T>)
        ensures
            match removed {
                Some(v) => {
                    &&& old(self)@.len() > 0
                    &&& *v == old(self)@.first()
                    &&& final(self)@ == old(self)@.drop_first()
                },
                None => old(self)@.len() == 0 && final(self)@ == old(self)@,
            },
    {
        match self.head.take() {
            Some(node) => {
                proof {
                    lemma_values_step(old(self).head);
                }
                let node = *node;
                self.head = node.next;
                Some(node.data)
            },
            None => None,
        }
    }

    /// Whether the list holds no node.
    pub fn is_empty(&self) -> (empty: bool)
        ensures
            empty == (self@.len() == 0),
    {
        proof {
            if self.head is Some {
                lemma_values_step(self.head);
            }
        }
        self.head.is_none()
    }

    /// Get the length of the list.
    pub fn get_length(&self) -> (length: u32)
        requires
            self.well_formed(),
        ensures
            length == self@.len(),
    {
        let mut counter: u32 = 0;
        let mut curr = &self.head;
        while curr.is_some()
            invariant
                self.well_formed(),
                counter <= self@.len(),
                values(*curr) == self@.skip(counter as int),
            decreases self@.len() - counter,
        {
            proof {
                lemma_values_step(*curr);
                assert(self@.skip(counter as int).drop_first() =~= self@.skip(counter + 1));
            }
            curr = &curr.as_ref().unwrap().next;
            counter += 1;
        }
        counter
    }

    /// Find the first node whose value equals `data` and return its index
    /// from the head: `(true, index)`, or `(false, 0)` where no node has it.
    pub fn find(&self, data: &T) -> (found: (bool, u32)) where T: PartialEq
        requires
            self.well_formed(),
        ensures
            found.0 ==> found.1 < self@.len(),
            !found.0 ==> found.1 == 0,
            T::obeys_eq_spec() ==> is_find_result(self@, *data, found),
    {
        let mut curr = &self.head;
        let mut index_counter: u32 = 0;
        while curr.is_some()
            invariant
                self.well_formed(),
                index_counter <= self@.len(),
                values(*curr) == self@.skip(index_counter as int),
                T::obeys_eq_spec() ==> forall|j: int|
                    0 <= j < index_counter ==> !matches_at(self@, *data, j),
            decreases self@.len() - index_counter,
        {
            proof {
                lemma_values_step(*curr);
                assert(self@.skip(index_counter as int).drop_first() =~= self@.skip(index_counter + 1));
                assert(self@.skip(index_counter as int)[0] == self@[index_counter as int]);
            }
            let value = curr.as_ref().unwrap();
            if *value.data == *data {
                return (true, index_counter);
            }
            index_counter += 1;
            curr = &value.next;
        }
        (false, 0)
    }

    /// The values of the list in order, gathered from the head on.
    pub fn display(&self) -> (shown: Vec<&'a T>)
        ensures
            shown@.len() == self@.len(),
            values_of(shown@) == self@,
    {
        let mut shown: Vec<&'a T> = Vec::new();
        let mut curr = &self.head;
        while curr.is_some()
            invariant
                shown@.len() <= self@.len(),
                values(*curr) == self@.skip(shown@.len() as int),
                values_of(shown@) == self@.take(shown@.len() as int),
            decreases self@.len() - shown@.len(),
        {
            proof {
                lemma_values_step(*curr);
                assert(self@.skip(shown@.len() as int).drop_first() =~= self@.skip(shown@.len() as int + 1));
                assert(self@.skip(shown@.len() as int)[0] == self@[shown@.len() as int]);
            }
            let value = curr.as_ref().unwrap();
            shown.push(value.data);
            curr = &value.next;
        }
        shown
    }

    /// Reverse the list.
    pub fn reverse(&mut self)
        ensures
            final(self)@ == old(self)@.reverse(),
    {
        let ghost before = self@;
        let mut prev: Option<Box<Node<'a, T>>> = None;
        let mut curr = self.head.take();
        while curr.is_some()
            invariant
                values(prev).len() + values(curr).len() == before.len(),
                values(curr) == before.skip(values(prev).len() as int),
                values(prev) == before.take(values(prev).len() as int).reverse(),
            decreases values(curr).len(),
        {
            let ghost turned = values(prev).len() as int;
            proof {
                lemma_values_step(curr);
                assert(before.skip(turned).drop_first() =~= before.skip(turned + 1));
            }
            let mut boxed_node = curr.unwrap();
            let next = boxed_node.next.take();
            boxed_node.next = prev;
            prev = Some(boxed_node);
            curr = next;
            proof {
                lemma_values_step(prev);
                assert(values(prev) =~= before.take(turned + 1).reverse());
            }
        }
        self.head = prev;
        proof {
            assert(before.take(before.len() as int) =~= before);
        }
    }

    /// Remove the last node from the list and hand back its value; `None`,
    /// and nothing changes, where the list is empty.
    pub fn pop_back(&mut self) -> (removed: Option<&'a T>)
        ensures
            match removed {
                Some(v) => {
                    &&& old(self)@.len() > 0
                    &&& *v == old(self)@.last()
                    &&& final(self)@ == old(self)@.drop_last()
                },
                None => old(self)@.len() == 0 && final(self)@ == old(self)@,
            },
    {
        if self.head.is_none() {
            return None;
        }
        let ghost before = self@;
        let ghost mut walked: int = 0;
        let mut cursor = &mut self.head;
        while cursor.as_ref().unwrap().next.is_some()
            invariant
                *cursor is Some,
                0 <= walked < before.len(),
                values(*cursor) == before.skip(walked),
                values(after_borrow(self.head)) == before.take(walked) + values(*final(cursor)),
            decreases before.len() - walked,
        {
            let ghost prior = *final(cursor);
            let ghost here = *cursor;
            match cursor {
                Some(node) => {
                    cursor = &mut node.next;
                },
                None => {},
            }
            proof {
                lemma_cursor_step(before, walked, here, prior, *final(cursor));
                lemma_values_step(*cursor);
                walked = walked + 1;
            }
        }
        proof {
            lemma_values_step(*cursor);
            assert(values(cursor->0.next) =~= Seq::<T>::empty());
            assert(before.skip(walked).len() == 1);
            assert(before.take(walked) + Seq::<T>::empty() =~= before.drop_last());
        }
        match cursor.take() {
            Some(node) => Some(node.data),
            None => None,
        }
    }

    /// Insert a new node at a specific index, counted from zero. An index
    /// past the length is out of range.
    pub fn insert_at_index(&mut self, index: u32, data: &'a T) -> (result: Result<(), ListError>)
        requires
            old(self)@.len() < u32::MAX,
        ensures
            final(self).well_formed(),
            match result {
                Ok(()) => {
                    &&& index <= old(self)@.len()
                    &&& final(self)@ == old(self)@.insert(index as int, *data)
                },
                Err(e) => {
                    &&& e == ListError::OutOfRange
                    &&& index > old(self)@.len()
                    &&& final(self)@ == old(self)@
                },
            },
    {
        let length = self.get_length();
        if index > length {
            return Err(ListError::OutOfRange);
        }
        if index == 0 {
            self.push_front(data);
            assert(seq![*data] + old(self)@ =~= old(self)@.insert(0, *data));
            return Ok(());
        }
        if index == length {
            self.push_back(data);
            assert(old(self)@.push(*data) =~= old(self)@.insert(index as int, *data));
            return Ok(());
        }
        let ghost before = self@;
        let mut index_counter: u32 = 0;
        let mut cursor = &mut self.head;
        while index_counter < index
            invariant
                index < before.len(),
                index_counter <= index,
                values(*cursor) == before.skip(index_counter as int),
                values(after_borrow(self.head)) == before.take(index_counter as int) + values(
                    *final(cursor),
                ),
            decreases index - index_counter,
        {
            let ghost prior = *final(cursor);
            let ghost here = *cursor;
            match cursor {
                Some(node) => {
                    cursor = &mut node.next;
                },
                None => {},
            }
            proof {
                lemma_cursor_step(before, index_counter as int, here, prior, *final(cursor));
            }
            index_counter += 1;
        }
        let new_node = Node { data, next: cursor.take() };
        *cursor = Some(Box::new(new_node));
        proof {
            assert(values(*cursor) =~= seq![*data] + before.skip(index as int));
            assert(before.take(index as int) + (seq![*data] + before.skip(index as int))
                =~= before.insert(index as int, *data));
        }
        Ok(())
    }

    /// Insert a new node holding `data` right behind the first node whose
    /// value equals `node`. Hands back the index of that first node.
    pub fn insert_after(&mut self, node: &T, data: &'a T) -> (result: Result<u32, ListError>) where
        T: PartialEq,
        requires
            old(self)@.len() < u32::MAX,
        ensures
            final(self).well_formed(),
            match result {
                Ok(index) => {
                    &&& index < old(self)@.len()
                    &&& final(self)@ == old(self)@.insert(index + 1, *data)
                },
                Err(e) => {
                    &&& final(self)@ == old(self)@
                    &&& e == (if old(self)@.len() == 0 {
                        ListError::Empty
                    } else {
                        ListError::NotFound
                    })
                },
            },
            T::obeys_eq_spec() ==> match result {
                Ok(index) => is_first_match(old(self)@, *node, index as int),
                Err(_) => !has_match(old(self)@, *node),
            },
    {
        if self.is_empty() {
            return Err(ListError::Empty);
        }
        let ghost before = self@;
        let mut index_counter: u32 = 0;
        let mut cursor = &mut self.head;
        while cursor.is_some()
            invariant
                before == old(self)@,
                0 < before.len() < u32::MAX,
                index_counter <= before.len(),
                values(*cursor) == before.skip(index_counter as int),
                values(after_borrow(self.head)) == before.take(index_counter as int) + values(
                    *final(cursor),
                ),
                T::obeys_eq_spec() ==> forall|j: int|
                    0 <= j < index_counter ==> !matches_at(before, *node, j),
            decreases before.len() - index_counter,
        {
            let ghost prior = *final(cursor);
            let ghost here = *cursor;
            proof {
                lemma_values_step(here);
                assert(before.skip(index_counter as int)[0] == before[index_counter as int]);
            }
            match cursor {
                Some(curr) => {
                    if *curr.data == *node {
                        let new_node = Node { data, next: curr.next.take() };
                        curr.next = Some(Box::new(new_node));
                        proof {
                            lemma_values_step(prior);
                            lemma_values_step(prior->0.next);
                            assert(values(prior) =~= seq![before[index_counter as int], *data]
                                + before.skip(index_counter + 1));
                            assert(before.take(index_counter as int) + (seq![
                                before[index_counter as int],
                                *data,
                            ] + before.skip(index_counter + 1)) =~= before.insert(
                                index_counter + 1,
                                *data,
                            ));
                        }
                        return Ok(index_counter);
                    }
                    cursor = &mut curr.next;
                },
                None => {},
            }
            proof {
                lemma_cursor_step(before, index_counter as int, here, prior, *final(cursor));
            }
            index_counter += 1;
        }
        proof {
            assert(values(*cursor) =~= Seq::<T>::empty());
            assert(before.take(index_counter as int) + Seq::<T>::empty() =~= before);
        }
        Err(ListError::NotFound)
    }
}

/// The pushes and pops of the demonstration: 10, 20 and 30 to the front, 50
/// and 80 to the back, then one pop at each end.
fn run_pushes_and_pops() -> (list: SinglyLinkedList<'static, i32>)
    ensures
        list@ == seq![20i32, 10i32, 50i32],
{
    let mut singly_ll = SinglyLinkedList::new();
    singly_ll.push_front(&10);
    singly_ll.push_front(&20);
    singly_ll.push_front(&30);
    singly_ll.push_back(&50);
    singly_ll.push_back(&80);
    assert(singly_ll@ =~= seq![30i32, 20i32, 10i32, 50i32, 80i32]);
    singly_ll.pop_front();
    singly_ll.pop_back();
    assert(singly_ll@ =~= seq![20i32, 10i32, 50i32]);
    singly_ll
}

/// The insertions of the demonstration: 100 at index 2, then 100 and 500
/// behind 20.
fn run_insertions(singly_ll: &mut SinglyLinkedList<'static, i32>)
    requires
        old(singly_ll)@ == seq![20i32, 10i32, 50i32],
    ensures
        final(singly_ll)@ == seq![20i32, 500i32, 100i32, 10i32, 100i32, 50i32],
{
    let at_index = singly_ll.insert_at_index(2, &100);
    assert(at_index is Ok);
    assert(singly_ll@ =~= seq![20i32, 10i32, 100i32, 50i32]);
    assert(matches_at(singly_ll@, 20i32, 0));
    let first = singly_ll.insert_after(&20, &100);
    assert(first == Ok::<u32, ListError>(0));
    assert(singly_ll@ =~= seq![20i32, 100i32, 10i32, 100i32, 50i32]);
    assert(matches_at(singly_ll@, 20i32, 0));
    let second = singly_ll.insert_after(&20, &500);
    assert(second == Ok::<u32, ListError>(0));
    assert(singly_ll@ =~= seq![20i32, 500i32, 100i32, 10i32, 100i32, 50i32]);
}

/// Runs the demonstration on a list of numbers and hands back the list that
/// it ends with: pushes and pops at both ends, an insertion by index, two
/// behind a value, and a reversal.
pub fn run() -> (list: SinglyLinkedList<'static, i32>)
    ensures
        list@ == seq![50i32, 100i32, 10i32, 100i32, 500i32, 20i32],
{
    let mut singly_ll = run_pushes_and_pops();
    run_insertions(&mut singly_ll);
    singly_ll.reverse();
    assert(singly_ll@ =~= seq![50i32, 100i32, 10i32, 100i32, 500i32, 20i32]);
    singly_ll
}

} // verus!
